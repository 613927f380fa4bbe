//! A plan, the run that it asks for, and the result.

use std::collections::BTreeMap;

use vstd::prelude::*;
use vstd::slice::slice_to_vec;
use vstd::utf8::encode_utf8;

use crate::client::{
    bytes_view, expect_view, expect_wf, failures_view, pairs_view, CheckFailure,
    CheckFailureView, ExpectSpec, ExpectView,
};
use crate::json::Json;
use crate::metrics::{
    ascending_codes, ascending_entries, counts_view, fresh_metrics, lists, sums_up,
    Elapsed, Metrics, MetricsResult, Millis, Rate, TimePoint,
};
use crate::plan::{
    as_json, compound_view, dict_view, entries_fit, get_item, get_number, get_present, get_string,
    get_truth, item, item_fits, needed_text, number_of, optional_text, plan_is_json, present,
    py_to_json, read_unsigned_value, required_string, same_text,
    sequence_item_fits, truth, unsigned, values_view,
    Entries, EntriesView, PlanError, PlanErrorView, PlanValue, PlanView,
};
use crate::scheduler::{
    cumulates, endpoint_request, endpoints_view, flow_view, is_run, largest_target, prepared,
    requests_view, spawn_endpoint_vus, spawn_flow_vus, weight_sum, Endpoint, EndpointView,
    FlowStep, HttpRun, Real, Stages, StepView, Work, WorkView,
};
use crate::sse::{is_sse_run, spawn_sse_vus, SseConfig, SseRun, SseView};
use crate::template::{
    extract_path, extracts_view, parse_extract_path, segments_view, Segment, SegmentView,
};
use crate::text::{str_equal, to_uppercase, uppercase};
use crate::ws::{is_ws_run, spawn_ws_vus, WsConfig, WsMode, WsRun, WsView};

verus! {

broadcast use vstd::string::group_string_axioms;

/// That a value is not of the kind that it has to be.
pub open spec fn wrong<T>(message: Seq<char>) -> Result<T, PlanErrorView> {
    Err(PlanErrorView::Value(message))
}

// ----------------------------------------------------------------------
// Parts of a request
// ----------------------------------------------------------------------

/// Whether all keys and values are texts.
pub open spec fn all_texts(entries: EntriesView) -> bool {
    forall|i: int|
        0 <= i < entries.len() ==> (#[trigger] entries[i]).0 is Some && entries[i].1 is Text
}

/// The headers in a dictionary.
pub open spec fn headers_of(dict: EntriesView) -> Result<
    Seq<(Seq<char>, Seq<char>)>,
    PlanErrorView,
> {
    match present(dict, "headers"@) {
        Some(PlanView::Dict(entries)) => if all_texts(entries) {
            Ok(Seq::new(entries.len(), |i: int| (entries[i].0->0, entries[i].1->Text_0)))
        } else {
            wrong("headers must be a dict of strings"@)
        },
        Some(_) => wrong("headers must be a dict of strings"@),
        None => Ok(seq![]),
    }
}

/// The headers in a dictionary.
fn parse_headers(dict: &Entries) -> (r: Result<Vec<(String, String)>, PlanError>)
    ensures
        match r {
            Ok(h) => headers_of(dict_view(dict@)) == Ok::<
                Seq<(Seq<char>, Seq<char>)>,
                PlanErrorView,
            >(pairs_view(h@)),
            Err(e) => headers_of(dict_view(dict@)) == Err::<
                Seq<(Seq<char>, Seq<char>)>,
                PlanErrorView,
            >(e@),
        },
{
    let mut headers: Vec<(String, String)> = Vec::new();
    match get_present(dict, "headers") {
        Some(v) => {
            proof {
                compound_view(v);
            }
            match v {
                PlanValue::Dict(entries) => {
                    let ghost all = dict_view(entries@);
                    for i in 0..entries.len()
                        invariant
                            all == dict_view(entries@),
                            headers_of(dict_view(dict@)) == if all_texts(all) {
                                Ok(
                                    Seq::new(
                                        all.len(),
                                        |i: int| (all[i].0->0, all[i].1->Text_0),
                                    ),
                                )
                            } else {
                                wrong("headers must be a dict of strings"@)
                            },
                            headers@.len() == i,
                            forall|j: int|
                                0 <= j < i ==> (#[trigger] all[j]).0 is Some && all[j].1 is Text
                                    && headers@[j].0@ == all[j].0->0 && headers@[j].1@
                                    == all[j].1->Text_0,
                    {
                        assert(all[i as int].1 == entries@[i as int].1@);
                        match (&entries[i].0, &entries[i].1) {
                            (Some(k), PlanValue::Text(t)) => {
                                headers.push((k.clone(), t.clone()));
                            },
                            _ => {
                                assert(!all_texts(all)) by {
                                    assert(!(all[i as int].0 is Some && all[i as int].1 is Text));
                                }
                                return Err(
                                    PlanError::Value(
                                        "headers must be a dict of strings".to_owned(),
                                    ),
                                );
                            },
                        }
                    }
                    assert(pairs_view(headers@) =~= headers_of(dict_view(dict@))->Ok_0);
                    Ok(headers)
                },
                _ => Err(PlanError::Value("headers must be a dict of strings".to_owned())),
            }
        },
        None => {
            assert(pairs_view(headers@) =~= seq![]);
            Ok(headers)
        },
    }
}

/// The body in a dictionary.
pub open spec fn body_of(dict: EntriesView) -> Result<Option<Seq<u8>>, PlanErrorView> {
    match present(dict, "body"@) {
        Some(PlanView::Text(t)) => Ok(Some(encode_utf8(t))),
        Some(_) => wrong("body must be a string"@),
        None => Ok(None),
    }
}

/// The body in a dictionary.
fn parse_body(dict: &Entries) -> (r: Result<Option<Vec<u8>>, PlanError>)
    ensures
        match r {
            Ok(b) => body_of(dict_view(dict@)) == Ok::<Option<Seq<u8>>, PlanErrorView>(
                bytes_view(b),
            ),
            Err(e) => body_of(dict_view(dict@)) == Err::<Option<Seq<u8>>, PlanErrorView>(e@),
        },
{
    match get_present(dict, "body") {
        Some(PlanValue::Text(t)) => Ok(Some(slice_to_vec(t.as_str().as_bytes()))),
        Some(_) => Err(PlanError::Value("body must be a string".to_owned())),
        None => Ok(None),
    }
}

/// The extractions in a dictionary.
pub open spec fn extracts_of(dict: EntriesView) -> Result<
    Seq<(Seq<char>, Seq<SegmentView>)>,
    PlanErrorView,
> {
    match present(dict, "extract"@) {
        Some(PlanView::Dict(entries)) => if all_texts(entries) {
            Ok(
                Seq::new(
                    entries.len(),
                    |i: int| (entries[i].0->0, extract_path(entries[i].1->Text_0)),
                ),
            )
        } else {
            Err(PlanErrorView::Type)
        },
        Some(_) => wrong("extract must be a dict"@),
        None => Ok(seq![]),
    }
}

/// The extractions in a dictionary.
fn parse_extracts(dict: &Entries) -> (r: Result<Vec<(String, Vec<Segment>)>, PlanError>)
    ensures
        match r {
            Ok(x) => extracts_of(dict_view(dict@)) == Ok::<
                Seq<(Seq<char>, Seq<SegmentView>)>,
                PlanErrorView,
            >(extracts_view(x@)),
            Err(e) => extracts_of(dict_view(dict@)) == Err::<
                Seq<(Seq<char>, Seq<SegmentView>)>,
                PlanErrorView,
            >(e@),
        },
{
    let mut out: Vec<(String, Vec<Segment>)> = Vec::new();
    match get_present(dict, "extract") {
        Some(v) => {
            proof {
                compound_view(v);
            }
            match v {
                PlanValue::Dict(entries) => {
                    let ghost all = dict_view(entries@);
                    for i in 0..entries.len()
                        invariant
                            all == dict_view(entries@),
                            extracts_of(dict_view(dict@)) == if all_texts(all) {
                                Ok(
                                    Seq::new(
                                        all.len(),
                                        |i: int| (all[i].0->0, extract_path(all[i].1->Text_0)),
                                    ),
                                )
                            } else {
                                Err(PlanErrorView::Type)
                            },
                            out@.len() == i,
                            forall|j: int|
                                0 <= j < i ==> (#[trigger] all[j]).0 is Some && all[j].1 is Text
                                    && out@[j].0@ == all[j].0->0 && segments_view(out@[j].1@)
                                    == extract_path(all[j].1->Text_0),
                    {
                        assert(all[i as int].1 == entries@[i as int].1@);
                        match (&entries[i].0, &entries[i].1) {
                            (Some(k), PlanValue::Text(t)) => {
                                out.push((k.clone(), parse_extract_path(t.as_str())));
                            },
                            _ => {
                                assert(!all_texts(all)) by {
                                    assert(!(all[i as int].0 is Some && all[i as int].1 is Text));
                                }
                                return Err(PlanError::Type);
                            },
                        }
                    }
                    assert(extracts_view(out@) =~= extracts_of(dict_view(dict@))->Ok_0);
                    Ok(out)
                },
                _ => Err(PlanError::Value("extract must be a dict".to_owned())),
            }
        },
        None => {
            assert(extracts_view(out@) =~= seq![]);
            Ok(out)
        },
    }
}

/// A status, where there is one.
pub open spec fn status_of(v: Option<PlanView>) -> Option<u16> {
    match v {
        Some(v) => match unsigned(v, 0xffff) {
            Ok(n) => Some(n as u16),
            Err(_) => None,
        },
        None => None,
    }
}

/// The expectation in a dictionary.
pub open spec fn expect_of(dict: EntriesView) -> Result<Option<ExpectView>, PlanErrorView> {
    match present(dict, "expect"@) {
        Some(PlanView::Dict(d)) => match optional_text(d, "body_contains"@) {
            Ok(body_contains) => Ok(
                Some(
                    ExpectView {
                        status: status_of(item(d, "status"@)),
                        body_contains,
                        json: match item(d, "json"@) {
                            Some(v) => Some(as_json(v)),
                            None => None,
                        },
                    },
                ),
            ),
            Err(e) => Err(e),
        },
        Some(_) => wrong("expect must be a dict"@),
        None => Ok(None),
    }
}

/// The expectation in a dictionary is one.
proof fn expectation_is_one(dict: EntriesView)
    requires
        entries_fit(dict),
    ensures
        expect_of(dict) matches Ok(e) ==> expect_wf(e),
{
    item_fits(dict, "expect"@);
    if let Some(PlanView::Dict(d)) = present(dict, "expect"@) {
        item_fits(d, "json"@);
        if let Some(v) = item(d, "json"@) {
            plan_is_json(v);
        }
    }
}

/// The expectation in a dictionary.
fn parse_expect(dict: &Entries) -> (r: Result<Option<ExpectSpec>, PlanError>)
    requires
        entries_fit(dict_view(dict@)),
    ensures
        match r {
            Ok(x) => expect_of(dict_view(dict@)) == Ok::<Option<ExpectView>, PlanErrorView>(
                expect_view(x),
            ),
            Err(e) => expect_of(dict_view(dict@)) == Err::<Option<ExpectView>, PlanErrorView>(e@),
        },
{
    match get_present(dict, "expect") {
        Some(v) => {
            proof {
                compound_view(v);
                item_fits(dict_view(dict@), "expect"@);
            }
            match v {
                PlanValue::Dict(d) => {
                    let status: Option<u16> = match get_item(d, "status") {
                        Some(s) => match read_unsigned_value(s, 0xffff) {
                            Ok(n) => Some(n as u16),
                            Err(_) => None,
                        },
                        None => None,
                    };
                    let body_contains: Option<String> = match get_string(d, "body_contains") {
                        Ok(t) => t,
                        Err(e) => {
                            return Err(e);
                        },
                    };
                    let json: Option<Json> = match get_item(d, "json") {
                        Some(j) => {
                            proof {
                                item_fits(dict_view(d@), "json"@);
                            }
                            Some(py_to_json(j))
                        },
                        None => None,
                    };
                    Ok(Some(ExpectSpec { status, body_contains, json }))
                },
                _ => Err(PlanError::Value("expect must be a dict".to_owned())),
            }
        },
        None => Ok(None),
    }
}

// ----------------------------------------------------------------------
// Endpoints and flows
// ----------------------------------------------------------------------

/// The method in a dictionary, in upper case.
pub open spec fn method_of(dict: EntriesView) -> Result<Seq<char>, PlanErrorView> {
    match optional_text(dict, "method"@) {
        Ok(Some(m)) => Ok(uppercase(m)),
        Ok(None) => Ok(uppercase("GET"@)),
        Err(e) => Err(e),
    }
}

/// The weight of an endpoint, 1 where there is none.
pub open spec fn weight_of(v: Option<PlanView>) -> u32 {
    match v {
        Some(v) => match unsigned(v, 0xffff_ffff) {
            Ok(n) => n as u32,
            Err(_) => 1,
        },
        None => 1,
    }
}

/// The endpoint that a dictionary describes.
pub open spec fn endpoint_of(dict: EntriesView) -> Result<EndpointView, PlanErrorView> {
    match method_of(dict) {
        Err(e) => Err(e),
        Ok(method) => match needed_text(dict, "path"@) {
            Err(e) => Err(e),
            Ok(path) => match body_of(dict) {
                Err(e) => Err(e),
                Ok(body) => match headers_of(dict) {
                    Err(e) => Err(e),
                    Ok(headers) => match expect_of(dict) {
                        Err(e) => Err(e),
                        Ok(expect) => Ok(
                            EndpointView {
                                method,
                                path,
                                weight: weight_of(item(dict, "weight"@)),
                                body,
                                headers,
                                expect,
                            },
                        ),
                    },
                },
            },
        },
    }
}

/// The step of a flow that a dictionary describes.
pub open spec fn step_of(dict: EntriesView) -> Result<StepView, PlanErrorView> {
    match method_of(dict) {
        Err(e) => Err(e),
        Ok(method) => match needed_text(dict, "path"@) {
            Err(e) => Err(e),
            Ok(path) => match headers_of(dict) {
                Err(e) => Err(e),
                Ok(headers) => match body_of(dict) {
                    Err(e) => Err(e),
                    Ok(body) => match extracts_of(dict) {
                        Err(e) => Err(e),
                        Ok(extracts) => match expect_of(dict) {
                            Err(e) => Err(e),
                            Ok(expect) => Ok(
                                StepView { method, path, headers, body, extracts, expect },
                            ),
                        },
                    },
                },
            },
        },
    }
}

/// The values of a sequence; none where it is no sequence.
pub open spec fn sequence(v: PlanView) -> Option<Seq<PlanView>> {
    match v {
        PlanView::List(items) => Some(items),
        PlanView::Sequence(items) => Some(items),
        _ => None,
    }
}

/// The dictionaries in a sequence.
pub open spec fn dicts_of(v: PlanView) -> Result<Seq<EntriesView>, PlanErrorView> {
    match sequence(v) {
        Some(items) => if forall|i: int| 0 <= i < items.len() ==> (#[trigger] items[i]) is Dict {
            Ok(Seq::new(items.len(), |i: int| items[i]->Dict_0))
        } else {
            Err(PlanErrorView::Type)
        },
        None => Err(PlanErrorView::Type),
    }
}

/// The endpoints that dictionaries describe, or what is wrong with the first
/// one that describes none.
pub open spec fn endpoints_of(dicts: Seq<EntriesView>) -> Result<Seq<EndpointView>, PlanErrorView>
    decreases dicts.len(),
{
    if dicts.len() == 0 {
        Ok(seq![])
    } else {
        match endpoints_of(dicts.drop_last()) {
            Err(e) => Err(e),
            Ok(before) => match endpoint_of(dicts.last()) {
                Err(e) => Err(e),
                Ok(endpoint) => Ok(before.push(endpoint)),
            },
        }
    }
}

/// The steps that dictionaries describe, or what is wrong with the first one
/// that describes none.
pub open spec fn steps_of(dicts: Seq<EntriesView>) -> Result<Seq<StepView>, PlanErrorView>
    decreases dicts.len(),
{
    if dicts.len() == 0 {
        Ok(seq![])
    } else {
        match steps_of(dicts.drop_last()) {
            Err(e) => Err(e),
            Ok(before) => match step_of(dicts.last()) {
                Err(e) => Err(e),
                Ok(step) => Ok(before.push(step)),
            },
        }
    }
}

/// The endpoints stop at the first dictionary that describes none.
proof fn endpoints_of_more(dicts: Seq<EntriesView>, n: int)
    requires
        0 <= n <= dicts.len(),
    ensures
        endpoints_of(dicts.take(n)) matches Err(e) ==> endpoints_of(dicts) == Err::<
            Seq<EndpointView>,
            PlanErrorView,
        >(e),
    decreases dicts.len(),
{
    if n == dicts.len() {
        assert(dicts.take(n) =~= dicts);
    } else {
        assert(dicts.drop_last().take(n) =~= dicts.take(n));
        endpoints_of_more(dicts.drop_last(), n);
    }
}

/// The steps stop at the first dictionary that describes none.
proof fn steps_of_more(dicts: Seq<EntriesView>, n: int)
    requires
        0 <= n <= dicts.len(),
    ensures
        steps_of(dicts.take(n)) matches Err(e) ==> steps_of(dicts) == Err::<
            Seq<StepView>,
            PlanErrorView,
        >(e),
    decreases dicts.len(),
{
    if n == dicts.len() {
        assert(dicts.take(n) =~= dicts);
    } else {
        assert(dicts.drop_last().take(n) =~= dicts.take(n));
        steps_of_more(dicts.drop_last(), n);
    }
}

/// The method in a dictionary, in upper case.
fn parse_method_of(dict: &Entries) -> (r: Result<String, PlanError>)
    ensures
        same_text(r, method_of(dict_view(dict@))),
{
    match get_string(dict, "method") {
        Ok(Some(m)) => Ok(to_uppercase(m.as_str())),
        Ok(None) => Ok(to_uppercase("GET")),
        Err(e) => Err(e),
    }
}

/// The endpoint that a dictionary describes.
fn parse_endpoint(dict: &Entries) -> (r: Result<Endpoint, PlanError>)
    requires
        entries_fit(dict_view(dict@)),
    ensures
        match r {
            Ok(x) => endpoint_of(dict_view(dict@)) == Ok::<EndpointView, PlanErrorView>(x@),
            Err(e) => endpoint_of(dict_view(dict@)) == Err::<EndpointView, PlanErrorView>(e@),
        },
{
    let method: String = match parse_method_of(dict) {
        Ok(m) => m,
        Err(e) => {
            return Err(e);
        },
    };
    let path: String = match required_string(dict, "path") {
        Ok(p) => p,
        Err(e) => {
            return Err(e);
        },
    };
    let weight: u32 = match get_item(dict, "weight") {
        Some(v) => match read_unsigned_value(v, 0xffff_ffff) {
            Ok(n) => n as u32,
            Err(_) => 1,
        },
        None => 1,
    };
    let body: Option<Vec<u8>> = match parse_body(dict) {
        Ok(b) => b,
        Err(e) => {
            return Err(e);
        },
    };
    let headers: Vec<(String, String)> = match parse_headers(dict) {
        Ok(h) => h,
        Err(e) => {
            return Err(e);
        },
    };
    let expect: Option<ExpectSpec> = match parse_expect(dict) {
        Ok(x) => x,
        Err(e) => {
            return Err(e);
        },
    };
    Ok(Endpoint { method, path, weight, body, headers, expect })
}

/// The step of a flow that a dictionary describes.
fn parse_step(dict: &Entries) -> (r: Result<FlowStep, PlanError>)
    requires
        entries_fit(dict_view(dict@)),
    ensures
        match r {
            Ok(x) => step_of(dict_view(dict@)) == Ok::<StepView, PlanErrorView>(x@),
            Err(e) => step_of(dict_view(dict@)) == Err::<StepView, PlanErrorView>(e@),
        },
{
    let method: String = match parse_method_of(dict) {
        Ok(m) => m,
        Err(e) => {
            return Err(e);
        },
    };
    let path: String = match required_string(dict, "path") {
        Ok(p) => p,
        Err(e) => {
            return Err(e);
        },
    };
    let headers: Vec<(String, String)> = match parse_headers(dict) {
        Ok(h) => h,
        Err(e) => {
            return Err(e);
        },
    };
    let body: Option<Vec<u8>> = match parse_body(dict) {
        Ok(b) => b,
        Err(e) => {
            return Err(e);
        },
    };
    let extracts: Vec<(String, Vec<Segment>)> = match parse_extracts(dict) {
        Ok(x) => x,
        Err(e) => {
            return Err(e);
        },
    };
    let expect: Option<ExpectSpec> = match parse_expect(dict) {
        Ok(x) => x,
        Err(e) => {
            return Err(e);
        },
    };
    Ok(FlowStep { method, path, headers, body, extracts, expect })
}

/// What references to dictionaries hold.
pub open spec fn dict_refs_view(dicts: Seq<&Entries>) -> Seq<EntriesView> {
    Seq::new(dicts.len(), |i: int| dict_view(dicts[i]@))
}

/// The dictionaries in a sequence.
fn parse_dicts<'a>(v: &'a PlanValue) -> (r: Result<Vec<&'a Entries>, PlanError>)
    requires
        v@.fits(),
    ensures
        match r {
            Ok(ds) => {
                &&& dicts_of(v@) == Ok::<Seq<EntriesView>, PlanErrorView>(dict_refs_view(ds@))
                &&& forall|i: int|
                    0 <= i < ds@.len() ==> entries_fit(dict_view((#[trigger] ds@[i])@))
            },
            Err(e) => dicts_of(v@) == Err::<Seq<EntriesView>, PlanErrorView>(e@),
        },
{
    proof {
        compound_view(v);
    }
    let items: &'a Vec<PlanValue> = match v {
        PlanValue::List(items) => items,
        PlanValue::Sequence(items) => items,
        _ => {
            return Err(PlanError::Type);
        },
    };
    let ghost all = values_view(items@);
    let mut out: Vec<&'a Entries> = Vec::new();
    for i in 0..items.len()
        invariant
            all == values_view(items@),
            v@.fits(),
            sequence(v@) == Some(all),
            out@.len() == i,
            forall|j: int|
                0 <= j < i ==> (#[trigger] all[j]) is Dict && all[j]->Dict_0 == dict_view(out@[j]@),
            forall|j: int| 0 <= j < i ==> entries_fit(dict_view((#[trigger] out@[j])@)),
    {
        proof {
            compound_view(&items@[i as int]);
            assert(all[i as int] == items@[i as int]@);
            sequence_item_fits(v@, i as int);
        }
        match &items[i] {
            PlanValue::Dict(d) => {
                out.push(d);
            },
            _ => {
                assert(!(all[i as int] is Dict));
                return Err(PlanError::Type);
            },
        }
    }
    assert(dict_refs_view(out@) =~= dicts_of(v@)->Ok_0);
    Ok(out)
}

/// The endpoints that dictionaries describe.
fn parse_endpoints(dicts: &Vec<&Entries>) -> (r: Result<Vec<Endpoint>, PlanError>)
    requires
        forall|i: int| 0 <= i < dicts@.len() ==> entries_fit(dict_view((#[trigger] dicts@[i])@)),
    ensures
        match r {
            Ok(x) => endpoints_of(dict_refs_view(dicts@)) == Ok::<
                Seq<EndpointView>,
                PlanErrorView,
            >(endpoints_view(x@)),
            Err(e) => endpoints_of(dict_refs_view(dicts@)) == Err::<
                Seq<EndpointView>,
                PlanErrorView,
            >(e@),
        },
{
    let ghost all = dict_refs_view(dicts@);
    let mut out: Vec<Endpoint> = Vec::new();
    assert(all.take(0) =~= seq![]);
    assert(endpoints_view(out@) =~= seq![]);
    for i in 0..dicts.len()
        invariant
            all == dict_refs_view(dicts@),
            forall|i: int|
                0 <= i < dicts@.len() ==> entries_fit(dict_view((#[trigger] dicts@[i])@)),
            endpoints_of(all.take(i as int)) == Ok::<Seq<EndpointView>, PlanErrorView>(
                endpoints_view(out@),
            ),
    {
        let ghost before = endpoints_view(out@);
        proof {
            assert(all.take(i as int + 1).drop_last() =~= all.take(i as int));
            assert(all.take(i as int + 1).last() == dict_view(dicts@[i as int]@));
            endpoints_of_more(all, i as int + 1);
        }
        match parse_endpoint(dicts[i]) {
            Ok(endpoint) => {
                out.push(endpoint);
                assert(endpoints_view(out@) =~= before.push(endpoint@));
            },
            Err(e) => {
                return Err(e);
            },
        }
    }
    assert(all.take(all.len() as int) =~= all);
    Ok(out)
}

/// The steps that dictionaries describe.
fn parse_flow(dicts: &Vec<&Entries>) -> (r: Result<Vec<FlowStep>, PlanError>)
    requires
        forall|i: int| 0 <= i < dicts@.len() ==> entries_fit(dict_view((#[trigger] dicts@[i])@)),
    ensures
        match r {
            Ok(x) => steps_of(dict_refs_view(dicts@)) == Ok::<Seq<StepView>, PlanErrorView>(
                flow_view(x@),
            ),
            Err(e) => steps_of(dict_refs_view(dicts@)) == Err::<Seq<StepView>, PlanErrorView>(e@),
        },
{
    let ghost all = dict_refs_view(dicts@);
    let mut out: Vec<FlowStep> = Vec::new();
    assert(all.take(0) =~= seq![]);
    assert(flow_view(out@) =~= seq![]);
    for i in 0..dicts.len()
        invariant
            all == dict_refs_view(dicts@),
            forall|i: int|
                0 <= i < dicts@.len() ==> entries_fit(dict_view((#[trigger] dicts@[i])@)),
            steps_of(all.take(i as int)) == Ok::<Seq<StepView>, PlanErrorView>(flow_view(out@)),
    {
        let ghost before = flow_view(out@);
        proof {
            assert(all.take(i as int + 1).drop_last() =~= all.take(i as int));
            assert(all.take(i as int + 1).last() == dict_view(dicts@[i as int]@));
            steps_of_more(all, i as int + 1);
        }
        match parse_step(dicts[i]) {
            Ok(step) => {
                out.push(step);
                assert(flow_view(out@) =~= before.push(step@));
            },
            Err(e) => {
                return Err(e);
            },
        }
    }
    assert(all.take(all.len() as int) =~= all);
    Ok(out)
}

// ----------------------------------------------------------------------
// Stages, streams and WebSockets
// ----------------------------------------------------------------------

/// The stage that a value describes.
pub open spec fn stage_of(v: PlanView) -> Result<(Real, u32), PlanErrorView> {
    match v {
        PlanView::Dict(d) => match number_of(d, "duration"@) {
            None => wrong("stage missing duration"@),
            Some(duration) => match item(d, "target"@) {
                None => wrong("stage missing target"@),
                Some(t) => match unsigned(t, 0xffff_ffff) {
                    Ok(n) => Ok((duration, n as u32)),
                    Err(_) => wrong("stage missing target"@),
                },
            },
        },
        _ => wrong("each stage must be a dict"@),
    }
}

/// The stages that values describe, or what is wrong with the first one that
/// describes none.
pub open spec fn stage_list(items: Seq<PlanView>) -> Result<Seq<(Real, u32)>, PlanErrorView>
    decreases items.len(),
{
    if items.len() == 0 {
        Ok(seq![])
    } else {
        match stage_list(items.drop_last()) {
            Err(e) => Err(e),
            Ok(before) => match stage_of(items.last()) {
                Err(e) => Err(e),
                Ok(stage) => Ok(before.push(stage)),
            },
        }
    }
}

/// The stages stop at the first value that describes none.
proof fn stage_list_of_more(items: Seq<PlanView>, n: int)
    requires
        0 <= n <= items.len(),
    ensures
        stage_list(items.take(n)) matches Err(e) ==> stage_list(items) == Err::<
            Seq<(Real, u32)>,
            PlanErrorView,
        >(e),
    decreases items.len(),
{
    if n == items.len() {
        assert(items.take(n) =~= items);
    } else {
        assert(items.drop_last().take(n) =~= items.take(n));
        stage_list_of_more(items.drop_last(), n);
    }
}

/// The stages of a plan.
pub open spec fn stages_of(plan: EntriesView) -> Result<Option<Seq<(Real, u32)>>, PlanErrorView> {
    match present(plan, "stages"@) {
        Some(PlanView::List(items)) => match stage_list(items) {
            Ok(stages) => Ok(Some(stages)),
            Err(e) => Err(e),
        },
        Some(_) => wrong("stages must be a list"@),
        None => Ok(None),
    }
}

/// The stage that a value describes.
fn parse_stage(v: &PlanValue) -> (r: Result<(Real, u32), PlanError>)
    ensures
        match r {
            Ok(x) => stage_of(v@) == Ok::<(Real, u32), PlanErrorView>(x),
            Err(e) => stage_of(v@) == Err::<(Real, u32), PlanErrorView>(e@),
        },
{
    proof {
        compound_view(v);
    }
    match v {
        PlanValue::Dict(d) => {
            let duration: Real = match get_number(d, "duration") {
                Some(n) => n,
                None => {
                    return Err(PlanError::Value("stage missing duration".to_owned()));
                },
            };
            match get_item(d, "target") {
                Some(t) => match read_unsigned_value(t, 0xffff_ffff) {
                    Ok(n) => Ok((duration, n as u32)),
                    Err(_) => Err(PlanError::Value("stage missing target".to_owned())),
                },
                None => Err(PlanError::Value("stage missing target".to_owned())),
            }
        },
        _ => Err(PlanError::Value("each stage must be a dict".to_owned())),
    }
}

/// The stages of a plan: the duration in seconds and the target of each.
pub fn parse_stages(plan: &Entries) -> (r: Result<Option<Vec<(Real, u32)>>, PlanError>)
    ensures
        match r {
            Ok(Some(x)) => stages_of(dict_view(plan@)) == Ok::<
                Option<Seq<(Real, u32)>>,
                PlanErrorView,
            >(Some(x@)),
            Ok(None) => stages_of(dict_view(plan@)) == Ok::<
                Option<Seq<(Real, u32)>>,
                PlanErrorView,
            >(None),
            Err(e) => stages_of(dict_view(plan@)) == Err::<
                Option<Seq<(Real, u32)>>,
                PlanErrorView,
            >(e@),
        },
{
    match get_present(plan, "stages") {
        Some(v) => {
            proof {
                compound_view(v);
            }
            match v {
                PlanValue::List(items) => {
                    let ghost all = values_view(items@);
                    let mut out: Vec<(Real, u32)> = Vec::new();
                    assert(all.take(0) =~= seq![]);
                    assert(out@ =~= seq![]);
                    for i in 0..items.len()
                        invariant
                            all == values_view(items@),
                            present(dict_view(plan@), "stages"@) == Some(PlanView::List(all)),
                            stage_list(all.take(i as int)) == Ok::<
                                Seq<(Real, u32)>,
                                PlanErrorView,
                            >(out@),
                    {
                        proof {
                            assert(all.take(i as int + 1).drop_last() =~= all.take(i as int));
                            assert(all.take(i as int + 1).last() == items@[i as int]@);
                            stage_list_of_more(all, i as int + 1);
                        }
                        match parse_stage(&items[i]) {
                            Ok(stage) => {
                                out.push(stage);
                            },
                            Err(e) => {
                                return Err(e);
                            },
                        }
                    }
                    assert(all.take(all.len() as int) =~= all);
                    Ok(Some(out))
                },
                _ => Err(PlanError::Value("stages must be a list".to_owned())),
            }
        },
        None => Ok(None),
    }
}

/// The stream of events that a plan describes.
pub open spec fn sse_of(plan: EntriesView) -> Result<Option<SseView>, PlanErrorView> {
    match present(plan, "sse"@) {
        Some(PlanView::Dict(d)) => match needed_text(d, "path"@) {
            Err(e) => Err(e),
            Ok(path) => match headers_of(d) {
                Err(e) => Err(e),
                Ok(headers) => match expect_of(d) {
                    Err(e) => Err(e),
                    Ok(expect) => Ok(Some(SseView { path, headers, expect })),
                },
            },
        },
        Some(_) => wrong("sse must be a dict"@),
        None => Ok(None),
    }
}

/// What an optional stream holds.
pub open spec fn sse_view(sse: Option<SseConfig>) -> Option<SseView> {
    match sse {
        Some(s) => Some(s@),
        None => None,
    }
}

/// The stream of events that a plan describes.
fn parse_sse(plan: &Entries) -> (r: Result<Option<SseConfig>, PlanError>)
    requires
        entries_fit(dict_view(plan@)),
    ensures
        match r {
            Ok(x) => sse_of(dict_view(plan@)) == Ok::<Option<SseView>, PlanErrorView>(sse_view(x)),
            Err(e) => sse_of(dict_view(plan@)) == Err::<Option<SseView>, PlanErrorView>(e@),
        },
{
    match get_present(plan, "sse") {
        Some(v) => {
            proof {
                compound_view(v);
                item_fits(dict_view(plan@), "sse"@);
            }
            match v {
                PlanValue::Dict(d) => {
                    let path: String = match required_string(d, "path") {
                        Ok(p) => p,
                        Err(e) => {
                            return Err(e);
                        },
                    };
                    let headers: Vec<(String, String)> = match parse_headers(d) {
                        Ok(h) => h,
                        Err(e) => {
                            return Err(e);
                        },
                    };
                    let expect: Option<ExpectSpec> = match parse_expect(d) {
                        Ok(x) => x,
                        Err(e) => {
                            return Err(e);
                        },
                    };
                    Ok(Some(SseConfig { path, headers, expect }))
                },
                _ => Err(PlanError::Value("sse must be a dict".to_owned())),
            }
        },
        None => Ok(None),
    }
}

/// The mode of that name; echo where there is none.
pub open spec fn mode_of(name: Option<Seq<char>>) -> WsMode {
    if name == Some("send"@) {
        WsMode::Send
    } else if name == Some("recv"@) {
        WsMode::Recv
    } else {
        WsMode::Echo
    }
}

/// A number, zero where there is none.
pub open spec fn real_or_zero(number: Option<Real>) -> Real {
    match number {
        Some(r) => r,
        None => Real { bits: 0 },
    }
}

/// The WebSocket that a plan describes.
pub open spec fn ws_of(plan: EntriesView) -> Result<Option<WsView>, PlanErrorView> {
    match present(plan, "ws"@) {
        Some(PlanView::Dict(d)) => match needed_text(d, "url"@) {
            Err(e) => Err(e),
            Ok(url) => match optional_text(d, "message"@) {
                Err(e) => Err(e),
                Ok(message) => match optional_text(d, "mode"@) {
                    Err(e) => Err(e),
                    Ok(mode) => Ok(
                        Some(
                            WsView {
                                url,
                                message: match message {
                                    Some(m) => encode_utf8(m),
                                    None => seq![],
                                },
                                mode: mode_of(mode),
                                send_interval: real_or_zero(number_of(d, "send_interval"@)),
                            },
                        ),
                    ),
                },
            },
        },
        Some(_) => wrong("ws must be a dict"@),
        None => Ok(None),
    }
}

/// What an optional WebSocket holds.
pub open spec fn ws_view(ws: Option<WsConfig>) -> Option<WsView> {
    match ws {
        Some(w) => Some(w@),
        None => None,
    }
}

/// A number, zero where there is none.
fn number_or_zero(number: Option<Real>) -> (r: Real)
    ensures
        r == real_or_zero(number),
{
    match number {
        Some(r) => r,
        None => Real { bits: 0 },
    }
}

/// The WebSocket that a plan describes.
fn parse_ws(plan: &Entries) -> (r: Result<Option<WsConfig>, PlanError>)
    ensures
        match r {
            Ok(x) => ws_of(dict_view(plan@)) == Ok::<Option<WsView>, PlanErrorView>(ws_view(x)),
            Err(e) => ws_of(dict_view(plan@)) == Err::<Option<WsView>, PlanErrorView>(e@),
        },
{
    match get_present(plan, "ws") {
        Some(v) => {
            proof {
                compound_view(v);
            }
            match v {
                PlanValue::Dict(d) => {
                    let url: String = match required_string(d, "url") {
                        Ok(u) => u,
                        Err(e) => {
                            return Err(e);
                        },
                    };
                    let message: Vec<u8> = match get_string(d, "message") {
                        Ok(Some(m)) => slice_to_vec(m.as_str().as_bytes()),
                        Ok(None) => {
                            let nothing: Vec<u8> = Vec::new();
                            assert(nothing@ =~= seq![]);
                            nothing
                        },
                        Err(e) => {
                            return Err(e);
                        },
                    };
                    let mode: WsMode = match get_string(d, "mode") {
                        Ok(Some(m)) => {
                            if str_equal(m.as_str(), "send") {
                                WsMode::Send
                            } else if str_equal(m.as_str(), "recv") {
                                WsMode::Recv
                            } else {
                                WsMode::Echo
                            }
                        },
                        Ok(None) => WsMode::Echo,
                        Err(e) => {
                            return Err(e);
                        },
                    };
                    let send_interval: Real = number_or_zero(get_number(d, "send_interval"));
                    Ok(Some(WsConfig { url, message, mode, send_interval }))
                },
                _ => Err(PlanError::Value("ws must be a dict".to_owned())),
            }
        },
        None => Ok(None),
    }
}

// ----------------------------------------------------------------------
// The engine
// ----------------------------------------------------------------------

/// What virtual users do.
#[derive(Debug)]
pub enum Workload {
    Endpoints(Vec<Endpoint>),
    Flow(Vec<FlowStep>),
    Sse(SseConfig),
    Ws(WsConfig),
}

/// What a `Workload` holds.
pub enum WorkloadView {
    Endpoints(Seq<EndpointView>),
    Flow(Seq<StepView>),
    Sse(SseView),
    Ws(WsView),
}

impl View for Workload {
    type V = WorkloadView;

    open spec fn view(&self) -> WorkloadView {
        match self {
            Workload::Endpoints(e) => WorkloadView::Endpoints(endpoints_view(e@)),
            Workload::Flow(f) => WorkloadView::Flow(flow_view(f@)),
            Workload::Sse(s) => WorkloadView::Sse(s@),
            Workload::Ws(w) => WorkloadView::Ws(w@),
        }
    }
}

impl WorkloadView {
    /// Whether its expectations are ones.
    pub open spec fn wf(self) -> bool {
        match self {
            WorkloadView::Endpoints(all) => forall|i: int|
                0 <= i < all.len() ==> expect_wf((#[trigger] all[i]).expect),
            WorkloadView::Flow(all) => forall|i: int|
                0 <= i < all.len() ==> expect_wf((#[trigger] all[i]).expect),
            WorkloadView::Sse(s) => expect_wf(s.expect),
            WorkloadView::Ws(_) => true,
        }
    }

    /// Whether it listens to a stream or exchanges messages.
    pub open spec fn streams(self) -> bool {
        self is Sse || self is Ws
    }
}

/// The core execution engine: what a plan asks for.
#[derive(Debug)]
pub struct Engine {
    pub base_url: String,
    pub insecure: bool,
    pub http2: bool,
    pub workload: Workload,
    pub vu_count: u32,
    pub duration_secs: u64,
    pub iterations: Option<u64>,
    pub stages: Option<Stages>,
    pub ramp_up: Real,
    pub rps: Option<Real>,
}

/// What an `Engine` holds.
pub struct EngineView {
    pub base_url: Seq<char>,
    pub insecure: bool,
    pub http2: bool,
    pub workload: WorkloadView,
    pub vu_count: u32,
    pub duration_secs: u64,
    pub iterations: Option<u64>,
    pub stages: Option<Seq<(Real, u32)>>,
    pub ramp_up: Real,
    pub rps: Option<Real>,
}

impl View for Engine {
    type V = EngineView;

    open spec fn view(&self) -> EngineView {
        EngineView {
            base_url: self.base_url@,
            insecure: self.insecure,
            http2: self.http2,
            workload: self.workload@,
            vu_count: self.vu_count,
            duration_secs: self.duration_secs,
            iterations: self.iterations,
            stages: match self.stages {
                Some(s) => Some(s.stages@),
                None => None,
            },
            ramp_up: self.ramp_up,
            rps: self.rps,
        }
    }
}

/// The number of iterations, where there is one above 0.
pub open spec fn iterations_of(plan: EntriesView) -> Option<u64> {
    match item(plan, "iterations"@) {
        Some(v) => match unsigned(v, u64::MAX) {
            Ok(n) => if n > 0 {
                Some(n)
            } else {
                None
            },
            Err(_) => None,
        },
        None => None,
    }
}

/// How many virtual users there are, and for how many seconds.
pub struct Load {
    pub vu_count: u32,
    pub duration_secs: u64,
    pub stages: Option<Seq<(Real, u32)>>,
}

/// How many virtual users there are, and for how long: by the stages where
/// there are any, and else by the plan.
pub open spec fn load_of(
    plan: EntriesView,
    stages: Option<Seq<(Real, u32)>>,
    iterations: Option<u64>,
    stage_secs: u64,
) -> Result<Load, PlanErrorView> {
    let some_stages = match stages {
        Some(list) => list.len() > 0,
        None => false,
    };
    if some_stages {
        let largest = largest_target(stages->0);
        Ok(
            Load {
                vu_count: if largest > 1 {
                    largest
                } else {
                    1
                },
                duration_secs: stage_secs,
                stages,
            },
        )
    } else {
        match item(plan, "vu"@) {
            None => wrong("missing vu"@),
            Some(v) => match unsigned(v, 0xffff_ffff) {
                Err(e) => Err(e),
                Ok(vu) => {
                    let duration = match present(plan, "duration"@) {
                        Some(d) => unsigned(d, u64::MAX),
                        None => Ok(0u64),
                    };
                    match duration {
                        Err(e) => Err(e),
                        Ok(secs) => if secs == 0 && iterations is None {
                            wrong("missing duration, iterations, or stages"@)
                        } else {
                            Ok(Load { vu_count: vu as u32, duration_secs: secs, stages: None })
                        },
                    }
                },
            },
        }
    }
}

/// The workload of a plan: a flow before endpoints before a stream before a
/// WebSocket.
pub open spec fn workload_of(
    plan: EntriesView,
    sse: Option<SseView>,
    ws: Option<WsView>,
) -> Result<WorkloadView, PlanErrorView> {
    match item(plan, "flow"@) {
        Some(v) => match dicts_of(v) {
            Err(e) => Err(e),
            Ok(dicts) => match steps_of(dicts) {
                Err(e) => Err(e),
                Ok(steps) => Ok(WorkloadView::Flow(steps)),
            },
        },
        None => match item(plan, "endpoints"@) {
            Some(v) => match dicts_of(v) {
                Err(e) => Err(e),
                Ok(dicts) => match endpoints_of(dicts) {
                    Err(e) => Err(e),
                    Ok(endpoints) => Ok(WorkloadView::Endpoints(endpoints)),
                },
            },
            None => match (sse, ws) {
                (Some(s), _) => Ok(WorkloadView::Sse(s)),
                (None, Some(w)) => Ok(WorkloadView::Ws(w)),
                (None, None) => wrong("missing endpoints, flow, sse, or ws"@),
            },
        },
    }
}

/// The base URL of a plan. It may be missing where the workload is a
/// WebSocket.
pub open spec fn base_url_of(plan: EntriesView, is_ws: bool) -> Result<Seq<char>, PlanErrorView> {
    if is_ws {
        match item(plan, "base_url"@) {
            Some(PlanView::Text(t)) => Ok(t),
            _ => Ok(seq![]),
        }
    } else {
        needed_text(plan, "base_url"@)
    }
}

/// What does not go together in a plan.
pub open spec fn conflict(workload: WorkloadView, load: Load) -> Option<PlanErrorView> {
    if load.duration_secs == 0 && workload.streams() {
        Some(PlanErrorView::Value("sse/ws workloads require duration"@))
    } else if load.stages is Some && workload.streams() {
        Some(PlanErrorView::Value("stages only apply to endpoints/flow workloads"@))
    } else {
        None
    }
}

/// What a plan asks for, once its stages are known.
pub open spec fn engine_with(
    plan: EntriesView,
    iterations: Option<u64>,
    load: Load,
) -> Result<EngineView, PlanErrorView> {
    match sse_of(plan) {
        Err(e) => Err(e),
        Ok(sse) => match ws_of(plan) {
            Err(e) => Err(e),
            Ok(ws) => match workload_of(plan, sse, ws) {
                Err(e) => Err(e),
                Ok(workload) => match conflict(workload, load) {
                    Some(e) => Err(e),
                    None => match base_url_of(plan, workload is Ws) {
                        Err(e) => Err(e),
                        Ok(base_url) => Ok(
                            EngineView {
                                base_url,
                                insecure: truth(item(plan, "insecure"@)),
                                http2: truth(item(plan, "http2"@)),
                                workload,
                                vu_count: load.vu_count,
                                duration_secs: load.duration_secs,
                                iterations,
                                stages: load.stages,
                                ramp_up: real_or_zero(number_of(plan, "ramp_up"@)),
                                rps: number_of(plan, "rps"@),
                            },
                        ),
                    },
                },
            },
        },
    }
}

/// What a plan asks for, or what is wrong with it.
pub open spec fn engine_of(plan: EntriesView, stage_secs: u64) -> Result<
    EngineView,
    PlanErrorView,
> {
    match stages_of(plan) {
        Err(e) => Err(e),
        Ok(stages) => {
            let iterations = iterations_of(plan);
            if stages is Some && iterations is Some {
                wrong("stages and iterations are mutually exclusive"@)
            } else {
                match load_of(plan, stages, iterations, stage_secs) {
                    Err(e) => Err(e),
                    Ok(load) => engine_with(plan, iterations, load),
                }
            }
        },
    }
}

proof fn endpoints_are_wf(dicts: Seq<EntriesView>)
    requires
        forall|i: int| 0 <= i < dicts.len() ==> entries_fit(#[trigger] dicts[i]),
    ensures
        endpoints_of(dicts) matches Ok(all) ==> WorkloadView::Endpoints(all).wf(),
    decreases dicts.len(),
{
    if dicts.len() > 0 {
        let rest = dicts.drop_last();
        assert forall|i: int| 0 <= i < rest.len() implies entries_fit(#[trigger] rest[i]) by {
            assert(rest[i] == dicts[i]);
        }
        endpoints_are_wf(rest);
        assert(entries_fit(dicts[dicts.len() - 1]));
        expectation_is_one(dicts.last());
    }
}

proof fn steps_are_wf(dicts: Seq<EntriesView>)
    requires
        forall|i: int| 0 <= i < dicts.len() ==> entries_fit(#[trigger] dicts[i]),
    ensures
        steps_of(dicts) matches Ok(all) ==> WorkloadView::Flow(all).wf(),
    decreases dicts.len(),
{
    if dicts.len() > 0 {
        let rest = dicts.drop_last();
        assert forall|i: int| 0 <= i < rest.len() implies entries_fit(#[trigger] rest[i]) by {
            assert(rest[i] == dicts[i]);
        }
        steps_are_wf(rest);
        assert(entries_fit(dicts[dicts.len() - 1]));
        expectation_is_one(dicts.last());
    }
}

/// The number of iterations, where there is one above 0.
fn parse_iterations(plan: &Entries) -> (n: Option<u64>)
    ensures
        n == iterations_of(dict_view(plan@)),
{
    match get_item(plan, "iterations") {
        Some(v) => match read_unsigned_value(v, u64::MAX) {
            Ok(n) => if n > 0 {
                Some(n)
            } else {
                None
            },
            Err(_) => None,
        },
        None => None,
    }
}

/// The workload of a plan.
fn parse_workload(plan: &Entries, sse: Option<SseConfig>, ws: Option<WsConfig>) -> (r: Result<
    Workload,
    PlanError,
>)
    requires
        entries_fit(dict_view(plan@)),
        sse_view(sse) matches Some(s) ==> expect_wf(s.expect),
    ensures
        match r {
            Ok(w) => workload_of(dict_view(plan@), sse_view(sse), ws_view(ws)) == Ok::<
                WorkloadView,
                PlanErrorView,
            >(w@) && w@.wf(),
            Err(e) => workload_of(dict_view(plan@), sse_view(sse), ws_view(ws)) == Err::<
                WorkloadView,
                PlanErrorView,
            >(e@),
        },
{
    if let Some(v) = get_item(plan, "flow") {
        proof {
            item_fits(dict_view(plan@), "flow"@);
        }
        return match parse_dicts(v) {
            Ok(dicts) => {
                proof {
                    let all = dict_refs_view(dicts@);
                    assert forall|i: int| 0 <= i < all.len() implies entries_fit(
                        #[trigger] all[i],
                    ) by {
                        assert(all[i] == dict_view(dicts@[i]@));
                    }
                    steps_are_wf(all);
                }
                match parse_flow(&dicts) {
                    Ok(steps) => Ok(Workload::Flow(steps)),
                    Err(e) => Err(e),
                }
            },
            Err(e) => Err(e),
        };
    }
    if let Some(v) = get_item(plan, "endpoints") {
        proof {
            item_fits(dict_view(plan@), "endpoints"@);
        }
        return match parse_dicts(v) {
            Ok(dicts) => {
                proof {
                    let all = dict_refs_view(dicts@);
                    assert forall|i: int| 0 <= i < all.len() implies entries_fit(
                        #[trigger] all[i],
                    ) by {
                        assert(all[i] == dict_view(dicts@[i]@));
                    }
                    endpoints_are_wf(all);
                }
                match parse_endpoints(&dicts) {
                    Ok(endpoints) => Ok(Workload::Endpoints(endpoints)),
                    Err(e) => Err(e),
                }
            },
            Err(e) => Err(e),
        };
    }
    match (sse, ws) {
        (Some(s), _) => Ok(Workload::Sse(s)),
        (None, Some(w)) => Ok(Workload::Ws(w)),
        (None, None) => Err(PlanError::Value("missing endpoints, flow, sse, or ws".to_owned())),
    }
}

impl Engine {
    /// What a plan asks for. `stage_secs` is how many seconds all its stages
    /// take, rounded up.
    pub fn new(plan: &Entries, stage_secs: u64) -> (r: Result<Engine, PlanError>)
        requires
            entries_fit(dict_view(plan@)),
        ensures
            match r {
                Ok(engine) => {
                    &&& engine_of(dict_view(plan@), stage_secs) == Ok::<EngineView, PlanErrorView>(
                        engine@,
                    )
                    &&& engine@.workload.wf()
                    &&& engine.stages matches Some(s) ==> s.max_target == largest_target(s.stages@)
                },
                Err(e) => engine_of(dict_view(plan@), stage_secs) == Err::<
                    EngineView,
                    PlanErrorView,
                >(e@),
            },
    {
        let stages_parsed: Option<Vec<(Real, u32)>> = match parse_stages(plan) {
            Ok(s) => s,
            Err(e) => {
                return Err(e);
            },
        };
        let iterations: Option<u64> = parse_iterations(plan);
        if stages_parsed.is_some() && iterations.is_some() {
            return Err(
                PlanError::Value("stages and iterations are mutually exclusive".to_owned()),
            );
        }
        let some_stages: bool = match &stages_parsed {
            Some(list) => list.len() > 0,
            None => false,
        };
        let (vu_count, duration_secs, stages): (u32, u64, Option<Stages>) = match stages_parsed {
            Some(list) if some_stages => {
                let s: Stages = Stages::new(list);
                let vu: u32 = if s.max_target > 1 {
                    s.max_target
                } else {
                    1
                };
                (vu, stage_secs, Some(s))
            },
            _ => {
                let vu: u32 = match get_item(plan, "vu") {
                    Some(v) => match read_unsigned_value(v, 0xffff_ffff) {
                        Ok(n) => n as u32,
                        Err(e) => {
                            return Err(e);
                        },
                    },
                    None => {
                        return Err(PlanError::Value("missing vu".to_owned()));
                    },
                };
                let secs: u64 = match get_present(plan, "duration") {
                    Some(v) => match read_unsigned_value(v, u64::MAX) {
                        Ok(n) => n,
                        Err(e) => {
                            return Err(e);
                        },
                    },
                    None => 0,
                };
                if secs == 0 && iterations.is_none() {
                    return Err(
                        PlanError::Value("missing duration, iterations, or stages".to_owned()),
                    );
                }
                (vu, secs, None)
            },
        };
        let insecure: bool = get_truth(plan, "insecure");
        let http2: bool = get_truth(plan, "http2");
        let ramp_up: Real = number_or_zero(get_number(plan, "ramp_up"));
        let rps: Option<Real> = get_number(plan, "rps");
        let sse: Option<SseConfig> = match parse_sse(plan) {
            Ok(s) => s,
            Err(e) => {
                return Err(e);
            },
        };
        proof {
            item_fits(dict_view(plan@), "sse"@);
            if let Some(PlanView::Dict(d)) = present(dict_view(plan@), "sse"@) {
                expectation_is_one(d);
            }
        }
        let ws: Option<WsConfig> = match parse_ws(plan) {
            Ok(w) => w,
            Err(e) => {
                return Err(e);
            },
        };
        let workload: Workload = match parse_workload(plan, sse, ws) {
            Ok(w) => w,
            Err(e) => {
                return Err(e);
            },
        };
        let streams: bool = match &workload {
            Workload::Sse(_) | Workload::Ws(_) => true,
            _ => false,
        };
        let is_ws: bool = match &workload {
            Workload::Ws(_) => true,
            _ => false,
        };
        if duration_secs == 0 && streams {
            return Err(PlanError::Value("sse/ws workloads require duration".to_owned()));
        }
        if stages.is_some() && streams {
            return Err(
                PlanError::Value("stages only apply to endpoints/flow workloads".to_owned()),
            );
        }
        let base_url: String = if is_ws {
            match get_item(plan, "base_url") {
                Some(PlanValue::Text(t)) => t.clone(),
                _ => {
                    let nothing: String = String::new();
                    assert(nothing@ =~= seq![]);
                    nothing
                },
            }
        } else {
            match required_string(plan, "base_url") {
                Ok(t) => t,
                Err(e) => {
                    return Err(e);
                },
            }
        };
        Ok(
            Engine {
                base_url,
                insecure,
                http2,
                workload,
                vu_count,
                duration_secs,
                iterations,
                stages,
                ramp_up,
                rps,
            },
        )
    }
}

/// Of several workloads in a plan a flow comes before endpoints, those before
/// a stream and that before a WebSocket.
pub proof fn workloads_have_an_order(plan: EntriesView, stage_secs: u64)
    requires
        engine_of(plan, stage_secs) is Ok,
    ensures
        ({
            let w = engine_of(plan, stage_secs)->Ok_0.workload;
            &&& w is Flow <==> item(plan, "flow"@) is Some
            &&& w is Endpoints <==> item(plan, "flow"@) is None && item(plan, "endpoints"@) is Some
            &&& w is Sse <==> item(plan, "flow"@) is None && item(plan, "endpoints"@) is None
                && present(plan, "sse"@) is Some
            &&& w is Ws ==> present(plan, "ws"@) is Some
        }),
{
}

/// Only a plan whose workload is a WebSocket may leave out the base URL; any
/// other is refused without one, unless something else refuses it before.
pub proof fn base_url_is_needed(plan: EntriesView, stage_secs: u64)
    requires
        !(item(plan, "base_url"@) matches Some(PlanView::Text(_))),
    ensures
        engine_of(plan, stage_secs) matches Ok(e) ==> e.workload is Ws && e.base_url == Seq::<
            char,
        >::empty(),
{
}

/// A plan that is accepted says how long it runs: by its stages, a number of
/// iterations or a time, the first two never together, and a stream or a
/// WebSocket by a time alone.
pub proof fn plans_say_how_long_they_run(plan: EntriesView, stage_secs: u64)
    requires
        engine_of(plan, stage_secs) is Ok,
    ensures
        ({
            let e = engine_of(plan, stage_secs)->Ok_0;
            &&& e.stages is Some || e.iterations is Some || e.duration_secs > 0
            &&& !(e.stages is Some && e.iterations is Some)
            &&& e.workload.streams() ==> e.duration_secs > 0 && e.stages is None
            &&& e.stages is Some ==> e.vu_count >= 1
        }),
{
}

// ----------------------------------------------------------------------
// A run
// ----------------------------------------------------------------------

/// The virtual users of a run.
pub enum Users {
    Http(HttpRun),
    Sse(SseRun),
    Ws(WsRun),
}

/// A run at its start.
pub struct Run {
    pub metrics: Metrics,
    pub users: Users,
}

impl Engine {
    /// Start the virtual users, with nothing recorded yet. `limited` is
    /// whether the plan limits the rate of requests.
    pub fn run(&self, limited: bool) -> (run: Run)
        requires
            self.duration_secs + 2 <= usize::MAX,
            self@.workload matches WorkloadView::Endpoints(all) ==> weight_sum(all) <= u32::MAX,
        ensures
            run.metrics@ == fresh_metrics(self.duration_secs),
            run.metrics@.wf(),
            match self@.workload {
                WorkloadView::Endpoints(all) => run.users matches Users::Http(http) && {
                    &&& is_run(
                        http,
                        self.vu_count,
                        self.base_url@,
                        self.duration_secs,
                        self.iterations,
                        self.stages is Some,
                        self.insecure,
                        self.http2,
                        limited,
                    )
                    &&& http.work matches Work::Endpoints(s) && {
                        &&& requests_view(s.endpoints@) == all.map_values(
                            |e: EndpointView| endpoint_request(e),
                        )
                        &&& cumulates(s.cumulative@, all)
                        &&& s.total == weight_sum(all)
                    }
                    &&& weight_sum(all) >= 1 ==> http.work.wf()
                },
                WorkloadView::Flow(all) => run.users matches Users::Http(http) && {
                    &&& is_run(
                        http,
                        self.vu_count,
                        self.base_url@,
                        self.duration_secs,
                        self.iterations,
                        self.stages is Some,
                        self.insecure,
                        self.http2,
                        limited,
                    )
                    &&& http.work@ == (WorkView::Flow {
                        steps: all.map_values(|s: StepView| prepared(s)),
                    })
                },
                WorkloadView::Sse(s) => run.users matches Users::Sse(sse)
                    && is_sse_run(
                    sse,
                    self.vu_count,
                    self.base_url@,
                    s,
                    self.duration_secs,
                    self.insecure,
                ),
                WorkloadView::Ws(w) => run.users matches Users::Ws(ws) && is_ws_run(
                    ws,
                    self.vu_count,
                    w,
                    self.duration_secs,
                    self.insecure,
                ),
            },
    {
        let metrics: Metrics = Metrics::new(self.duration_secs);
        let users: Users = match &self.workload {
            Workload::Endpoints(endpoints) => Users::Http(
                spawn_endpoint_vus(
                    self.vu_count,
                    self.base_url.as_str(),
                    endpoints,
                    self.duration_secs,
                    self.iterations,
                    self.stages.is_some(),
                    self.insecure,
                    self.http2,
                    limited,
                ),
            ),
            Workload::Flow(steps) => Users::Http(
                spawn_flow_vus(
                    self.vu_count,
                    self.base_url.as_str(),
                    steps,
                    self.duration_secs,
                    self.iterations,
                    self.stages.is_some(),
                    self.insecure,
                    self.http2,
                    limited,
                ),
            ),
            Workload::Sse(sse) => Users::Sse(
                spawn_sse_vus(
                    self.vu_count,
                    self.base_url.as_str(),
                    sse,
                    self.duration_secs,
                    self.insecure,
                ),
            ),
            Workload::Ws(ws) => Users::Ws(
                spawn_ws_vus(self.vu_count, ws, self.duration_secs, self.insecure),
            ),
        };
        Run { metrics, users }
    }
}

// ----------------------------------------------------------------------
// The result
// ----------------------------------------------------------------------

/// The result of a run.
#[derive(Debug)]
pub struct RunResult {
    pub total: u64,
    pub success: u64,
    pub failed: u64,
    pub elapsed_secs: Elapsed,
    pub rps: Rate,
    pub bytes: u64,
    pub min_ms: Millis,
    pub max_ms: Millis,
    pub avg_ms: Millis,
    pub p50_ms: u64,
    pub p95_ms: u64,
    pub p99_ms: u64,
    pub percentiles: BTreeMap<u64, u64>,
    pub status_codes: BTreeMap<u16, u64>,
    pub checks_passed: u64,
    pub checks_failed: u64,
    pub check_failures: Vec<CheckFailure>,
    pub errors: Vec<(String, u64)>,
    pub time_series: Vec<TimePoint>,
}

/// A value in the result.
#[derive(Debug)]
pub enum Cell {
    Count(u64),
    Seconds(Elapsed),
    PerSecond(Rate),
    Millis(Millis),
    WholeMillis(u64),
    Text(String),
}

/// What a `Cell` holds.
pub enum CellView {
    Count(u64),
    Seconds(Elapsed),
    PerSecond(Rate),
    Millis(Millis),
    WholeMillis(u64),
    Text(Seq<char>),
}

impl View for Cell {
    type V = CellView;

    open spec fn view(&self) -> CellView {
        match self {
            Cell::Count(n) => CellView::Count(*n),
            Cell::Seconds(e) => CellView::Seconds(*e),
            Cell::PerSecond(r) => CellView::PerSecond(*r),
            Cell::Millis(m) => CellView::Millis(*m),
            Cell::WholeMillis(n) => CellView::WholeMillis(*n),
            Cell::Text(t) => CellView::Text(t@),
        }
    }
}

/// A value of the result, or several of them.
#[derive(Debug)]
pub enum Field {
    One(Cell),
    ByNumber(Vec<(u64, Cell)>),
    ByName(Vec<(String, Cell)>),
    Table(Vec<Vec<(&'static str, Cell)>>),
}

/// What a `Field` holds.
pub enum FieldView {
    One(CellView),
    ByNumber(Seq<(u64, CellView)>),
    ByName(Seq<(Seq<char>, CellView)>),
    Table(Seq<Seq<(Seq<char>, CellView)>>),
}

/// What a row of a table holds.
pub open spec fn row_view(row: Seq<(&'static str, Cell)>) -> Seq<(Seq<char>, CellView)> {
    Seq::new(row.len(), |i: int| (row[i].0@, row[i].1@))
}

impl View for Field {
    type V = FieldView;

    open spec fn view(&self) -> FieldView {
        match self {
            Field::One(c) => FieldView::One(c@),
            Field::ByNumber(all) => FieldView::ByNumber(
                Seq::new(all@.len(), |i: int| (all@[i].0, all@[i].1@)),
            ),
            Field::ByName(all) => FieldView::ByName(
                Seq::new(all@.len(), |i: int| (all@[i].0@, all@[i].1@)),
            ),
            Field::Table(rows) => FieldView::Table(
                Seq::new(rows@.len(), |i: int| row_view(rows@[i]@)),
            ),
        }
    }
}

/// The row of a failed assertion.
pub open spec fn failure_row(f: CheckFailureView) -> Seq<(Seq<char>, CellView)> {
    seq![
        ("method"@, CellView::Text(f.method)),
        ("path"@, CellView::Text(f.path)),
        ("check"@, CellView::Text(f.check)),
        ("expected"@, CellView::Text(f.expected)),
        ("actual"@, CellView::Text(f.actual)),
    ]
}

/// The row of a point in the time series.
pub open spec fn point_row(p: TimePoint) -> Seq<(Seq<char>, CellView)> {
    seq![
        ("t"@, CellView::Count(p.t)),
        ("requests"@, CellView::Count(p.requests)),
        ("success"@, CellView::Count(p.success)),
        ("failed"@, CellView::Count(p.failed)),
        ("bytes"@, CellView::Count(p.bytes)),
        ("avg_ms"@, CellView::Millis(p.avg_ms)),
    ]
}

/// The entries of a map by ascending keys, up to a largest one.
pub open spec fn ascending(map: Map<u64, u64>, last: int) -> Seq<(u64, u64)>
    decreases last + 1,
{
    if last < 0 {
        seq![]
    } else if map.contains_key(last as u64) {
        ascending(map, last - 1).push((last as u64, map[last as u64]))
    } else {
        ascending(map, last - 1)
    }
}

/// The counts of status codes, by numbers.
pub open spec fn codes_as_numbers(codes: Map<u16, u64>) -> Map<u64, u64> {
    Map::new(
        |k: u64| k <= 0xffff && codes.contains_key(k as u16),
        |k: u64| codes[k as u16],
    )
}

/// The result under its names, in their order.
pub open spec fn result_dict(r: RunResult) -> Seq<(Seq<char>, FieldView)> {
    seq![
        ("total"@, FieldView::One(CellView::Count(r.total))),
        ("success"@, FieldView::One(CellView::Count(r.success))),
        ("failed"@, FieldView::One(CellView::Count(r.failed))),
        ("elapsed_secs"@, FieldView::One(CellView::Seconds(r.elapsed_secs))),
        ("rps"@, FieldView::One(CellView::PerSecond(r.rps))),
        ("bytes"@, FieldView::One(CellView::Count(r.bytes))),
        ("min_ms"@, FieldView::One(CellView::Millis(r.min_ms))),
        ("max_ms"@, FieldView::One(CellView::Millis(r.max_ms))),
        ("avg_ms"@, FieldView::One(CellView::Millis(r.avg_ms))),
        ("p50_ms"@, FieldView::One(CellView::WholeMillis(r.p50_ms))),
        ("p95_ms"@, FieldView::One(CellView::WholeMillis(r.p95_ms))),
        ("p99_ms"@, FieldView::One(CellView::WholeMillis(r.p99_ms))),
        (
            "percentiles"@,
            FieldView::ByNumber(
                ascending(r.percentiles@, u64::MAX as int).map_values(
                    |e: (u64, u64)| (e.0, CellView::WholeMillis(e.1)),
                ),
            ),
        ),
        (
            "status_codes"@,
            FieldView::ByNumber(
                ascending(codes_as_numbers(r.status_codes@), u64::MAX as int).map_values(
                    |e: (u64, u64)| (e.0, CellView::Count(e.1)),
                ),
            ),
        ),
        ("checks_passed"@, FieldView::One(CellView::Count(r.checks_passed))),
        ("checks_failed"@, FieldView::One(CellView::Count(r.checks_failed))),
        (
            "check_failures"@,
            FieldView::Table(
                failures_view(r.check_failures@).map_values(
                    |f: CheckFailureView| failure_row(f),
                ),
            ),
        ),
        (
            "time_series"@,
            FieldView::Table(r.time_series@.map_values(|p: TimePoint| point_row(p))),
        ),
        (
            "errors"@,
            FieldView::ByName(
                counts_view(r.errors@).map_values(
                    |e: (Seq<char>, u64)| (e.0, CellView::Count(e.1)),
                ),
            ),
        ),
    ]
}

/// What the fields of a result hold.
pub open spec fn fields_view(fields: Seq<(&'static str, Field)>) -> Seq<(Seq<char>, FieldView)> {
    Seq::new(fields.len(), |i: int| (fields[i].0@, fields[i].1@))
}

proof fn ascending_is_listed(
    entries: Seq<(u64, u64)>,
    map: Map<u64, u64>,
    last: int,
    n: int,
)
    requires
        lists(entries, map),
        forall|i: int, j: int|
            0 <= i < j < entries.len() ==> #[trigger] entries[i].0 < #[trigger] entries[j].0,
        0 <= n <= entries.len(),
        -1 <= last <= u64::MAX,
        forall|i: int| 0 <= i < n ==> (#[trigger] entries[i]).0 <= last,
        forall|i: int| n <= i < entries.len() ==> (#[trigger] entries[i]).0 > last,
    ensures
        ascending(map, last) == entries.take(n),
    decreases last + 1,
{
    if last < 0 {
        if n > 0 {
            assert(entries[0].0 <= last);
        }
        assert(entries.take(n) =~= seq![]);
    } else if map.contains_key(last as u64) {
        let i = choose|i: int| 0 <= i < entries.len() && #[trigger] entries[i].0 == last as u64;
        assert(i < n);
        if i < n - 1 {
            assert(entries[i].0 < entries[n - 1].0);
        }
        assert forall|k: int| 0 <= k < n - 1 implies (#[trigger] entries[k]).0 <= last - 1 by {
            assert(entries[k].0 < entries[i].0);
        }
        ascending_is_listed(entries, map, last - 1, n - 1);
        assert(entries.take(n) =~= entries.take(n - 1).push(entries[i]));
    } else {
        assert forall|k: int| 0 <= k < n implies (#[trigger] entries[k]).0 <= last - 1 by {
            assert(map.contains_key(entries[k].0));
        }
        ascending_is_listed(entries, map, last - 1, n);
    }
}

/// The percentiles by ascending percentages.
fn percentile_cells(percentiles: &BTreeMap<u64, u64>) -> (field: Field)
    ensures
        field@ == FieldView::ByNumber(
            ascending(percentiles@, u64::MAX as int).map_values(
                |e: (u64, u64)| (e.0, CellView::WholeMillis(e.1)),
            ),
        ),
{
    let entries: Vec<(u64, u64)> = ascending_entries(percentiles);
    let mut cells: Vec<(u64, Cell)> = Vec::new();
    for i in 0..entries.len()
        invariant
            cells@.len() == i,
            forall|j: int|
                0 <= j < i ==> (#[trigger] cells@[j]).0 == entries@[j].0 && cells@[j].1@
                    == CellView::WholeMillis(entries@[j].1),
    {
        cells.push((entries[i].0, Cell::WholeMillis(entries[i].1)));
    }
    let field: Field = Field::ByNumber(cells);
    proof {
        ascending_is_listed(
            entries@,
            percentiles@,
            u64::MAX as int,
            entries@.len() as int,
        );
        assert(entries@.take(entries@.len() as int) =~= entries@);
        assert(field@->ByNumber_0 =~= ascending(percentiles@, u64::MAX as int).map_values(
            |e: (u64, u64)| (e.0, CellView::WholeMillis(e.1)),
        ));
    }
    field
}

/// The counts of status codes by ascending codes.
fn status_cells(codes: &BTreeMap<u16, u64>) -> (field: Field)
    ensures
        field@ == FieldView::ByNumber(
            ascending(codes_as_numbers(codes@), u64::MAX as int).map_values(
                |e: (u64, u64)| (e.0, CellView::Count(e.1)),
            ),
        ),
{
    let entries: Vec<(u16, u64)> = ascending_codes(codes);
    let mut cells: Vec<(u64, Cell)> = Vec::new();
    for i in 0..entries.len()
        invariant
            cells@.len() == i,
            forall|j: int|
                0 <= j < i ==> (#[trigger] cells@[j]).0 == entries@[j].0 && cells@[j].1@
                    == CellView::Count(entries@[j].1),
    {
        cells.push((entries[i].0 as u64, Cell::Count(entries[i].1)));
    }
    let field: Field = Field::ByNumber(cells);
    proof {
        let map = codes_as_numbers(codes@);
        let numbers = Seq::new(
            entries@.len(),
            |i: int| (entries@[i].0 as u64, entries@[i].1),
        );
        assert forall|i: int| 0 <= i < numbers.len() implies map.contains_key(
            #[trigger] numbers[i].0,
        ) && map[numbers[i].0] == numbers[i].1 by {
            assert(codes@.contains_key(entries@[i].0));
            assert(numbers[i].0 as u16 == entries@[i].0);
        }
        assert forall|k: u64| #[trigger] map.contains_key(k) implies exists|i: int|
            0 <= i < numbers.len() && #[trigger] numbers[i].0 == k by {
            let i = choose|i: int| 0 <= i < entries@.len() && #[trigger] entries@[i].0 == k as u16;
            assert(numbers[i].0 == k);
        }
        assert forall|i: int, j: int| 0 <= i < j < numbers.len() implies #[trigger] numbers[i].0
            < #[trigger] numbers[j].0 by {
            assert(entries@[i].0 < entries@[j].0);
        }
        ascending_is_listed(numbers, map, u64::MAX as int, numbers.len() as int);
        assert(numbers.take(numbers.len() as int) =~= numbers);
        assert(field@->ByNumber_0 =~= ascending(map, u64::MAX as int).map_values(
            |e: (u64, u64)| (e.0, CellView::Count(e.1)),
        ));
    }
    field
}

/// The rows of failed assertions.
fn failure_rows(failures: &Vec<CheckFailure>) -> (field: Field)
    ensures
        field@ == FieldView::Table(
            failures_view(failures@).map_values(|f: CheckFailureView| failure_row(f)),
        ),
{
    let mut rows: Vec<Vec<(&'static str, Cell)>> = Vec::new();
    for i in 0..failures.len()
        invariant
            rows@.len() == i,
            forall|j: int|
                0 <= j < i ==> row_view((#[trigger] rows@[j])@) == failure_row(failures@[j]@),
    {
        let f: &CheckFailure = &failures[i];
        let mut row: Vec<(&'static str, Cell)> = Vec::new();
        row.push(("method", Cell::Text(f.method.clone())));
        row.push(("path", Cell::Text(f.path.clone())));
        row.push(("check", Cell::Text(f.check.clone())));
        row.push(("expected", Cell::Text(f.expected.clone())));
        row.push(("actual", Cell::Text(f.actual.clone())));
        assert(row_view(row@) =~= failure_row(f@));
        rows.push(row);
    }
    let field: Field = Field::Table(rows);
    assert(field@->Table_0 =~= failures_view(failures@).map_values(
        |f: CheckFailureView| failure_row(f),
    ));
    field
}

/// The rows of the time series.
fn point_rows(points: &Vec<TimePoint>) -> (field: Field)
    ensures
        field@ == FieldView::Table(points@.map_values(|p: TimePoint| point_row(p))),
{
    let mut rows: Vec<Vec<(&'static str, Cell)>> = Vec::new();
    for i in 0..points.len()
        invariant
            rows@.len() == i,
            forall|j: int| 0 <= j < i ==> row_view((#[trigger] rows@[j])@) == point_row(points@[j]),
    {
        let p: TimePoint = points[i];
        let mut row: Vec<(&'static str, Cell)> = Vec::new();
        row.push(("t", Cell::Count(p.t)));
        row.push(("requests", Cell::Count(p.requests)));
        row.push(("success", Cell::Count(p.success)));
        row.push(("failed", Cell::Count(p.failed)));
        row.push(("bytes", Cell::Count(p.bytes)));
        row.push(("avg_ms", Cell::Millis(p.avg_ms)));
        assert(row_view(row@) =~= point_row(p));
        rows.push(row);
    }
    let field: Field = Field::Table(rows);
    assert(field@->Table_0 =~= points@.map_values(|p: TimePoint| point_row(p)));
    field
}

/// The counts of failures by their names.
fn error_cells(errors: &Vec<(String, u64)>) -> (field: Field)
    ensures
        field@ == FieldView::ByName(
            counts_view(errors@).map_values(
                |e: (Seq<char>, u64)| (e.0, CellView::Count(e.1)),
            ),
        ),
{
    let mut cells: Vec<(String, Cell)> = Vec::new();
    for i in 0..errors.len()
        invariant
            cells@.len() == i,
            forall|j: int|
                0 <= j < i ==> (#[trigger] cells@[j]).0@ == errors@[j].0@ && cells@[j].1@
                    == CellView::Count(errors@[j].1),
    {
        cells.push((errors[i].0.clone(), Cell::Count(errors[i].1)));
    }
    let field: Field = Field::ByName(cells);
    assert(field@->ByName_0 =~= counts_view(errors@).map_values(
        |e: (Seq<char>, u64)| (e.0, CellView::Count(e.1)),
    ));
    field
}

impl RunResult {
    /// Whether this is what the metrics come to.
    pub open spec fn is_of(self, s: MetricsResult) -> bool {
        &&& self.total == s.total
        &&& self.success == s.success
        &&& self.failed == s.failed
        &&& self.elapsed_secs == s.elapsed_secs
        &&& self.rps == s.rps
        &&& self.bytes == s.bytes
        &&& self.min_ms == s.min_ms
        &&& self.max_ms == s.max_ms
        &&& self.avg_ms == s.avg_ms
        &&& self.p50_ms == s.p50_ms
        &&& self.p95_ms == s.p95_ms
        &&& self.p99_ms == s.p99_ms
        &&& self.percentiles == s.percentiles
        &&& self.status_codes == s.status_codes
        &&& self.checks_passed == s.checks_passed
        &&& self.checks_failed == s.checks_failed
        &&& self.check_failures == s.check_failures
        &&& self.errors == s.errors
        &&& self.time_series == s.time_series
    }

    /// The result of a run that ends after this time.
    pub fn new(metrics: &Metrics, elapsed: Elapsed) -> (r: RunResult)
        requires
            metrics@.wf(),
        ensures
            exists|s: MetricsResult| #[trigger] sums_up(s, metrics@, elapsed) && r.is_of(s),
    {
        let snapshot: MetricsResult = metrics.snapshot(elapsed);
        let ghost s = snapshot;
        let r: RunResult = RunResult {
            total: snapshot.total,
            success: snapshot.success,
            failed: snapshot.failed,
            elapsed_secs: snapshot.elapsed_secs,
            rps: snapshot.rps,
            bytes: snapshot.bytes,
            min_ms: snapshot.min_ms,
            max_ms: snapshot.max_ms,
            avg_ms: snapshot.avg_ms,
            p50_ms: snapshot.p50_ms,
            p95_ms: snapshot.p95_ms,
            p99_ms: snapshot.p99_ms,
            percentiles: snapshot.percentiles,
            status_codes: snapshot.status_codes,
            checks_passed: snapshot.checks_passed,
            checks_failed: snapshot.checks_failed,
            check_failures: snapshot.check_failures,
            errors: snapshot.errors,
            time_series: snapshot.time_series,
        };
        assert(sums_up(s, metrics@, elapsed) && r.is_of(s));
        r
    }

    /// The result under its names, in their order.
    pub fn to_dict(&self) -> (fields: Vec<(&'static str, Field)>)
        ensures
            fields_view(fields@) == result_dict(*self),
    {
        let mut dict: Vec<(&'static str, Field)> = Vec::new();
        dict.push(("total", Field::One(Cell::Count(self.total))));
        dict.push(("success", Field::One(Cell::Count(self.success))));
        dict.push(("failed", Field::One(Cell::Count(self.failed))));
        dict.push(("elapsed_secs", Field::One(Cell::Seconds(self.elapsed_secs))));
        dict.push(("rps", Field::One(Cell::PerSecond(self.rps))));
        dict.push(("bytes", Field::One(Cell::Count(self.bytes))));
        dict.push(("min_ms", Field::One(Cell::Millis(self.min_ms))));
        dict.push(("max_ms", Field::One(Cell::Millis(self.max_ms))));
        dict.push(("avg_ms", Field::One(Cell::Millis(self.avg_ms))));
        dict.push(("p50_ms", Field::One(Cell::WholeMillis(self.p50_ms))));
        dict.push(("p95_ms", Field::One(Cell::WholeMillis(self.p95_ms))));
        dict.push(("p99_ms", Field::One(Cell::WholeMillis(self.p99_ms))));
        dict.push(("percentiles", percentile_cells(&self.percentiles)));
        dict.push(("status_codes", status_cells(&self.status_codes)));
        dict.push(("checks_passed", Field::One(Cell::Count(self.checks_passed))));
        dict.push(("checks_failed", Field::One(Cell::Count(self.checks_failed))));
        dict.push(("check_failures", failure_rows(&self.check_failures)));
        dict.push(("time_series", point_rows(&self.time_series)));
        dict.push(("errors", error_cells(&self.errors)));
        assert(fields_view(dict@) =~= result_dict(*self));
        dict
    }
}

}

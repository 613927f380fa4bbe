//! What a plan says and what is made of it, key by key.

use vstd::prelude::*;
use vstd::utf8::encode_utf8;

use crate::client::ExpectView;
use crate::engine::{
    dicts_of, endpoint_of, endpoints_of, engine_of, sse_of, stage_list, stage_of, step_of, steps_of,
    workload_of, ws_of, EngineView, WorkloadView,
};
use crate::json::{keys_ascend, member, put_is_update, JsonView, Number};
use crate::plan::{
    as_json, entries_fit, item, members_of, EntriesView, PlanErrorView, PlanView,
};
use crate::scheduler::{largest_target_is_largest, EndpointView, Real, StepView};
use crate::sse::SseView;
use crate::template::{extract_path, SegmentView};
use crate::text::uppercase;
use crate::ws::{WsMode, WsView};

verus! {

broadcast use vstd::string::group_string_axioms;

/// Whether a key is missing or has no value.
pub open spec fn is_left_out(dict: EntriesView, key: Seq<char>) -> bool {
    item(dict, key) is None || item(dict, key) == Some(PlanView::Nothing)
}

/// Whether a key has a text.
pub open spec fn has_text(dict: EntriesView, key: Seq<char>) -> bool {
    item(dict, key) matches Some(PlanView::Text(_))
}

/// Whether a key has a dictionary of texts.
pub open spec fn has_texts(dict: EntriesView, key: Seq<char>) -> bool {
    item(dict, key) matches Some(PlanView::Dict(all)) && forall|i: int|
        0 <= i < all.len() ==> (#[trigger] all[i]).0 is Some && all[i].1 is Text
}

/// Whether a value is an integer from 0 up to a largest one, or a truth value,
/// which stands for 0 or 1.
pub open spec fn is_whole(v: PlanView, max: int) -> bool {
    match v {
        PlanView::Int { value, .. } => 0 <= value <= max,
        PlanView::Bool(_) => true,
        _ => false,
    }
}

/// That integer.
pub open spec fn whole(v: PlanView) -> int {
    match v {
        PlanView::Int { value, .. } => value as int,
        PlanView::Bool(b) => if b {
            1
        } else {
            0
        },
        _ => 0,
    }
}

/// Whether a value is a number.
pub open spec fn is_number(v: PlanView) -> bool {
    match v {
        PlanView::Int { double, .. } => double is Some,
        PlanView::Float(_) => true,
        PlanView::Bool(_) => true,
        _ => false,
    }
}

/// Whether these are the pairs of texts under a key, in their order.
pub open spec fn says_pairs(
    dict: EntriesView,
    key: Seq<char>,
    pairs: Seq<(Seq<char>, Seq<char>)>,
) -> bool {
    match item(dict, key) {
        Some(PlanView::Dict(all)) => {
            &&& pairs.len() == all.len()
            &&& forall|i: int|
                0 <= i < all.len() ==> (#[trigger] all[i]).0 == Some(pairs[i].0) && all[i].1
                    == PlanView::Text(pairs[i].1)
        },
        _ => pairs.len() == 0,
    }
}

/// Whether these are the names under `extract` with the paths that their
/// texts write, in their order.
pub open spec fn says_extracts(
    dict: EntriesView,
    extracts: Seq<(Seq<char>, Seq<SegmentView>)>,
) -> bool {
    match item(dict, "extract"@) {
        Some(PlanView::Dict(all)) => {
            &&& extracts.len() == all.len()
            &&& forall|i: int|
                0 <= i < all.len() ==> (#[trigger] all[i]).0 == Some(extracts[i].0) && (
                all[i].1 matches PlanView::Text(t) && extracts[i].1 == extract_path(t))
        },
        _ => extracts.len() == 0,
    }
}

/// Whether this is the text under a key, or nothing where it is left out.
pub open spec fn says_text(dict: EntriesView, key: Seq<char>, text: Option<Seq<char>>) -> bool {
    match item(dict, key) {
        Some(PlanView::Text(t)) => text == Some(t),
        _ => text is None,
    }
}

/// Whether these are the bytes of the text under a key, or nothing where it is
/// left out.
pub open spec fn says_bytes(dict: EntriesView, key: Seq<char>, bytes: Option<Seq<u8>>) -> bool {
    match item(dict, key) {
        Some(PlanView::Text(t)) => bytes == Some(encode_utf8(t)),
        _ => bytes is None,
    }
}

/// Whether this is the method under `method` in upper case, which is GET where
/// it is left out.
pub open spec fn says_method(dict: EntriesView, method: Seq<char>) -> bool {
    match item(dict, "method"@) {
        Some(PlanView::Text(t)) => method == uppercase(t),
        _ => method == uppercase("GET"@),
    }
}

/// Whether this is the expectation under `expect`, none where it is left out:
/// its status where that is one, its text, and its JSON.
pub open spec fn says_expectation(dict: EntriesView, expect: Option<ExpectView>) -> bool {
    match item(dict, "expect"@) {
        Some(PlanView::Dict(x)) => expect matches Some(e) && {
            &&& says_text(x, "body_contains"@, e.body_contains)
            &&& match item(x, "status"@) {
                Some(v) => if is_whole(v, 65535) {
                    e.status matches Some(code) && code == whole(v)
                } else {
                    e.status is None
                },
                None => e.status is None,
            }
            &&& match item(x, "json"@) {
                Some(v) => e.json == Some(as_json(v)),
                None => e.json is None,
            }
        },
        _ => expect is None,
    }
}

/// Whether a dictionary has what a request needs, and nothing of a wrong kind.
pub open spec fn asks_for_a_request(dict: EntriesView) -> bool {
    &&& has_text(dict, "path"@)
    &&& is_left_out(dict, "method"@) || has_text(dict, "method"@)
    &&& is_left_out(dict, "body"@) || has_text(dict, "body"@)
    &&& is_left_out(dict, "headers"@) || has_texts(dict, "headers"@)
    &&& asks_for_nothing_odd(dict)
}

/// Whether the expectation in a dictionary is left out or is one.
pub open spec fn asks_for_nothing_odd(dict: EntriesView) -> bool {
    is_left_out(dict, "expect"@) || (item(dict, "expect"@) matches Some(PlanView::Dict(x)) && (
    is_left_out(x, "body_contains"@) || has_text(x, "body_contains"@)))
}

/// Whether a dictionary says all that an endpoint holds. The weight is 1 where
/// none is given.
pub open spec fn says_endpoint(dict: EntriesView, e: EndpointView) -> bool {
    &&& item(dict, "path"@) == Some(PlanView::Text(e.path))
    &&& says_method(dict, e.method)
    &&& says_bytes(dict, "body"@, e.body)
    &&& says_pairs(dict, "headers"@, e.headers)
    &&& says_expectation(dict, e.expect)
    &&& match item(dict, "weight"@) {
        Some(v) => e.weight == if is_whole(v, 0xffff_ffff) {
            whole(v)
        } else {
            1
        },
        None => e.weight == 1,
    }
}

/// Whether a dictionary has what a step of a flow needs, and nothing of a wrong
/// kind.
pub open spec fn asks_for_a_step(dict: EntriesView) -> bool {
    asks_for_a_request(dict) && (is_left_out(dict, "extract"@) || has_texts(dict, "extract"@))
}

/// Whether a dictionary says all that a step of a flow holds.
pub open spec fn says_step(dict: EntriesView, s: StepView) -> bool {
    &&& item(dict, "path"@) == Some(PlanView::Text(s.path))
    &&& says_method(dict, s.method)
    &&& says_bytes(dict, "body"@, s.body)
    &&& says_pairs(dict, "headers"@, s.headers)
    &&& says_extracts(dict, s.extracts)
    &&& says_expectation(dict, s.expect)
}

/// Whether a dictionary has what a stream needs, and nothing of a wrong kind.
pub open spec fn asks_for_a_stream(dict: EntriesView) -> bool {
    &&& has_text(dict, "path"@)
    &&& is_left_out(dict, "headers"@) || has_texts(dict, "headers"@)
    &&& asks_for_nothing_odd(dict)
}

/// Whether a dictionary says all that a stream holds.
pub open spec fn says_stream(dict: EntriesView, s: SseView) -> bool {
    &&& item(dict, "path"@) == Some(PlanView::Text(s.path))
    &&& says_pairs(dict, "headers"@, s.headers)
    &&& says_expectation(dict, s.expect)
}

/// Whether a dictionary has what a WebSocket needs, and nothing of a wrong
/// kind.
pub open spec fn asks_for_a_socket(dict: EntriesView) -> bool {
    &&& has_text(dict, "url"@)
    &&& is_left_out(dict, "message"@) || has_text(dict, "message"@)
    &&& is_left_out(dict, "mode"@) || has_text(dict, "mode"@)
}

/// Whether a dictionary says all that a WebSocket holds. The message is empty
/// where it is left out; the mode is to send or to receive exactly where it is
/// named so, and an echo otherwise.
pub open spec fn says_socket(dict: EntriesView, w: WsView) -> bool {
    &&& item(dict, "url"@) == Some(PlanView::Text(w.url))
    &&& match item(dict, "message"@) {
        Some(PlanView::Text(t)) => w.message == encode_utf8(t),
        _ => w.message.len() == 0,
    }
    &&& w.mode == WsMode::Send <==> item(dict, "mode"@) == Some(PlanView::Text("send"@))
    &&& w.mode == WsMode::Recv <==> item(dict, "mode"@) == Some(PlanView::Text("recv"@))
    &&& match item(dict, "send_interval"@) {
        Some(v) => if is_number(v) {
            is_number_of(v, w.send_interval)
        } else {
            w.send_interval.bits == 0
        },
        None => w.send_interval.bits == 0,
    }
}

/// Whether a value is this number.
pub open spec fn is_number_of(v: PlanView, r: Real) -> bool {
    match v {
        PlanView::Int { double, .. } => double == Some(r),
        PlanView::Float(f) => f == r,
        PlanView::Bool(b) => r.bits == if b {
            0x3ff0_0000_0000_0000u64
        } else {
            0u64
        },
        _ => false,
    }
}

/// Whether a value has what a stage needs.
pub open spec fn asks_for_a_stage(v: PlanView) -> bool {
    v matches PlanView::Dict(d) && {
        &&& item(d, "duration"@) matches Some(n) && is_number(n)
        &&& item(d, "target"@) matches Some(t) && is_whole(t, 0xffff_ffff)
    }
}

/// Whether a value says how long a stage takes and what its target is.
pub open spec fn says_stage(v: PlanView, stage: (Real, u32)) -> bool {
    v matches PlanView::Dict(d) && {
        &&& item(d, "duration"@) matches Some(n) && is_number_of(n, stage.0)
        &&& item(d, "target"@) matches Some(t) && whole(t) == stage.1
    }
}

proof fn endpoint_is_as_written(dict: EntriesView)
    ensures
        endpoint_of(dict) is Ok <==> asks_for_a_request(dict),
        endpoint_of(dict) matches Ok(e) ==> says_endpoint(dict, e),
{
}

proof fn step_is_as_written(dict: EntriesView)
    ensures
        step_of(dict) is Ok <==> asks_for_a_step(dict),
        step_of(dict) matches Ok(s) ==> says_step(dict, s),
{
}

proof fn stage_is_as_written(v: PlanView)
    ensures
        stage_of(v) is Ok <==> asks_for_a_stage(v),
        stage_of(v) matches Ok(s) ==> says_stage(v, s),
{
}

proof fn send_is_not_recv()
    ensures
        "send"@ != "recv"@,
{
    reveal_strlit("send");
    reveal_strlit("recv");
    assert("send"@[0] != "recv"@[0]);
}

proof fn endpoints_are_as_written(dicts: Seq<EntriesView>)
    ensures
        endpoints_of(dicts) is Ok <==> forall|i: int|
            0 <= i < dicts.len() ==> asks_for_a_request(#[trigger] dicts[i]),
        endpoints_of(dicts) matches Ok(all) ==> {
            &&& all.len() == dicts.len()
            &&& forall|i: int| 0 <= i < dicts.len() ==> says_endpoint(#[trigger] dicts[i], all[i])
        },
    decreases dicts.len(),
{
    if dicts.len() > 0 {
        let rest = dicts.drop_last();
        let last = dicts.len() - 1;
        endpoints_are_as_written(rest);
        endpoint_is_as_written(dicts[last]);
        if endpoints_of(dicts) is Ok {
            let all = endpoints_of(dicts)->Ok_0;
            assert forall|i: int| 0 <= i < dicts.len() implies asks_for_a_request(#[trigger] dicts[i])
                && says_endpoint(dicts[i], all[i]) by {
                if i < last {
                    assert(rest[i] == dicts[i]);
                    assert(asks_for_a_request(rest[i]));
                    assert(says_endpoint(rest[i], endpoints_of(rest)->Ok_0[i]));
                }
            }
        } else if endpoints_of(rest) is Err {
            let i = choose|i: int| 0 <= i < rest.len() && !asks_for_a_request(#[trigger] rest[i]);
            assert(!asks_for_a_request(dicts[i]));
        } else {
            assert(!asks_for_a_request(dicts[last]));
        }
    }
}

proof fn steps_are_as_written(dicts: Seq<EntriesView>)
    ensures
        steps_of(dicts) is Ok <==> forall|i: int|
            0 <= i < dicts.len() ==> asks_for_a_step(#[trigger] dicts[i]),
        steps_of(dicts) matches Ok(all) ==> {
            &&& all.len() == dicts.len()
            &&& forall|i: int| 0 <= i < dicts.len() ==> says_step(#[trigger] dicts[i], all[i])
        },
    decreases dicts.len(),
{
    if dicts.len() > 0 {
        let rest = dicts.drop_last();
        let last = dicts.len() - 1;
        steps_are_as_written(rest);
        step_is_as_written(dicts[last]);
        if steps_of(dicts) is Ok {
            let all = steps_of(dicts)->Ok_0;
            assert forall|i: int| 0 <= i < dicts.len() implies asks_for_a_step(#[trigger] dicts[i])
                && says_step(dicts[i], all[i]) by {
                if i < last {
                    assert(rest[i] == dicts[i]);
                    assert(asks_for_a_step(rest[i]) && says_step(rest[i], steps_of(rest)->Ok_0[i]));
                }
            }
        } else if steps_of(rest) is Err {
            let i = choose|i: int| 0 <= i < rest.len() && !asks_for_a_step(#[trigger] rest[i]);
            assert(!asks_for_a_step(dicts[i]));
        } else {
            assert(!asks_for_a_step(dicts[last]));
        }
    }
}

proof fn stage_values_are_as_written(items: Seq<PlanView>)
    ensures
        stage_list(items) is Ok <==> forall|i: int|
            0 <= i < items.len() ==> asks_for_a_stage(#[trigger] items[i]),
        stage_list(items) matches Ok(all) ==> {
            &&& all.len() == items.len()
            &&& forall|i: int| 0 <= i < items.len() ==> says_stage(#[trigger] items[i], all[i])
        },
    decreases items.len(),
{
    if items.len() > 0 {
        let rest = items.drop_last();
        let last = items.len() - 1;
        stage_values_are_as_written(rest);
        stage_is_as_written(items[last]);
        if stage_list(items) is Ok {
            let all = stage_list(items)->Ok_0;
            assert forall|i: int| 0 <= i < items.len() implies asks_for_a_stage(#[trigger] items[i])
                && says_stage(items[i], all[i]) by {
                if i < last {
                    assert(rest[i] == items[i]);
                    assert(asks_for_a_stage(rest[i]));
                    assert(says_stage(rest[i], stage_list(rest)->Ok_0[i]));
                }
            }
        } else if stage_list(rest) is Err {
            let i = choose|i: int| 0 <= i < rest.len() && !asks_for_a_stage(#[trigger] rest[i]);
            assert(!asks_for_a_stage(items[i]));
        } else {
            assert(!asks_for_a_stage(items[last]));
        }
    }
}

/// The values of a list or of another sequence.
pub open spec fn is_sequence_of(v: PlanView, items: Seq<PlanView>) -> bool {
    v == PlanView::List(items) || v == PlanView::Sequence(items)
}

/// An accepted plan with a flow has one step for each dictionary in it, in
/// their order, with the method, path, headers, body, extractions and
/// expectation that the dictionary holds.
pub proof fn flow_is_as_written(
    plan: EntriesView,
    stage_secs: u64,
    v: PlanView,
    items: Seq<PlanView>,
)
    requires
        engine_of(plan, stage_secs) is Ok,
        item(plan, "flow"@) == Some(v),
    ensures
        v is List || v is Sequence,
        is_sequence_of(v, items) ==> (engine_of(plan, stage_secs)->Ok_0.workload matches
            WorkloadView::Flow(steps) && {
            &&& steps.len() == items.len()
            &&& forall|i: int|
                0 <= i < items.len() ==> ((#[trigger] items[i]) matches PlanView::Dict(d)
                    && says_step(d, steps[i]))
        }),
{
    if is_sequence_of(v, items) {
        let dicts = dicts_of(v)->Ok_0;
        steps_are_as_written(dicts);
        assert forall|i: int| 0 <= i < items.len() implies ((
        #[trigger] items[i]) matches PlanView::Dict(d) && says_step(d, steps_of(dicts)->Ok_0[i])) by {
            assert(items[i] is Dict);
            assert(dicts[i] == items[i]->Dict_0);
        }
    }
}

/// An accepted plan without a flow but with endpoints has one endpoint for each
/// dictionary in them, in their order, with the method, path, weight, headers,
/// body and expectation that the dictionary holds.
pub proof fn endpoints_in_a_plan_are_as_written(
    plan: EntriesView,
    stage_secs: u64,
    v: PlanView,
    items: Seq<PlanView>,
)
    requires
        engine_of(plan, stage_secs) is Ok,
        item(plan, "flow"@) is None,
        item(plan, "endpoints"@) == Some(v),
    ensures
        v is List || v is Sequence,
        is_sequence_of(v, items) ==> (engine_of(plan, stage_secs)->Ok_0.workload matches
            WorkloadView::Endpoints(all) && {
            &&& all.len() == items.len()
            &&& forall|i: int|
                0 <= i < items.len() ==> ((#[trigger] items[i]) matches PlanView::Dict(d)
                    && says_endpoint(d, all[i]))
        }),
{
    if is_sequence_of(v, items) {
        let dicts = dicts_of(v)->Ok_0;
        endpoints_are_as_written(dicts);
        assert forall|i: int| 0 <= i < items.len() implies ((
        #[trigger] items[i]) matches PlanView::Dict(d) && says_endpoint(
            d,
            endpoints_of(dicts)->Ok_0[i],
        )) by {
            assert(items[i] is Dict);
            assert(dicts[i] == items[i]->Dict_0);
        }
    }
}

/// The stream of an accepted plan has the path, headers and expectation that
/// the dictionary under `sse` holds.
pub proof fn stream_is_as_written(plan: EntriesView, stage_secs: u64)
    requires
        engine_of(plan, stage_secs) is Ok,
    ensures
        engine_of(plan, stage_secs)->Ok_0.workload matches WorkloadView::Sse(s) ==> (item(
            plan,
            "sse"@,
        ) matches Some(PlanView::Dict(d)) && says_stream(d, s)),
{
}

/// The WebSocket of an accepted plan has the URL, message, mode and pause that
/// the dictionary under `ws` holds.
pub proof fn socket_is_as_written(plan: EntriesView, stage_secs: u64)
    requires
        engine_of(plan, stage_secs) is Ok,
    ensures
        engine_of(plan, stage_secs)->Ok_0.workload matches WorkloadView::Ws(w) ==> (item(
            plan,
            "ws"@,
        ) matches Some(PlanView::Dict(d)) && says_socket(d, w)),
{
    send_is_not_recv();
}

/// Whether a plan has stages: a list that is not empty.
pub open spec fn has_stages(plan: EntriesView) -> bool {
    item(plan, "stages"@) matches Some(PlanView::List(items)) && items.len() > 0
}

/// Whether a plan has a number of iterations above 0.
pub open spec fn has_iterations(plan: EntriesView) -> bool {
    item(plan, "iterations"@) matches Some(v) && is_whole(v, u64::MAX as int) && whole(v) > 0
}

/// The seconds of a plan, 0 where they are left out.
pub open spec fn seconds(plan: EntriesView) -> int {
    match item(plan, "duration"@) {
        Some(v) => whole(v),
        None => 0,
    }
}

/// An accepted plan runs as it says: against its base URL, with as many
/// virtual users for as many seconds, iterations or stages as it has, with its
/// ramp-up and rate, and with the two switches on only where they are true.
pub proof fn settings_are_as_written(plan: EntriesView, stage_secs: u64)
    requires
        engine_of(plan, stage_secs) is Ok,
    ensures
        ({
            let e = engine_of(plan, stage_secs)->Ok_0;
            &&& match item(plan, "base_url"@) {
                Some(PlanView::Text(t)) => e.base_url == t,
                _ => e.base_url.len() == 0,
            }
            &&& e.insecure <==> item(plan, "insecure"@) == Some(PlanView::Bool(true))
            &&& e.http2 <==> item(plan, "http2"@) == Some(PlanView::Bool(true))
            &&& match item(plan, "ramp_up"@) {
                Some(v) => if is_number(v) {
                    is_number_of(v, e.ramp_up)
                } else {
                    e.ramp_up.bits == 0
                },
                None => e.ramp_up.bits == 0,
            }
            &&& match item(plan, "rps"@) {
                Some(v) => if is_number(v) {
                    e.rps matches Some(r) && is_number_of(v, r)
                } else {
                    e.rps is None
                },
                None => e.rps is None,
            }
            &&& if has_iterations(plan) {
                e.iterations matches Some(n) && n == whole(item(plan, "iterations"@)->0)
            } else {
                e.iterations is None
            }
            &&& if has_stages(plan) {
                e.duration_secs == stage_secs
            } else {
                &&& item(plan, "vu"@) matches Some(v) && e.vu_count == whole(v)
                &&& e.duration_secs == seconds(plan)
                &&& e.stages is None
            }
        }),
{
    if let Some(PlanView::List(items)) = item(plan, "stages"@) {
        stage_values_are_as_written(items);
    }
}

/// The stages of an accepted plan have the durations and targets that its
/// dictionaries hold, in their order; and there are as many virtual users as
/// the largest target says, and at least one.
pub proof fn stages_are_as_written(plan: EntriesView, stage_secs: u64, items: Seq<PlanView>)
    requires
        engine_of(plan, stage_secs) is Ok,
        item(plan, "stages"@) == Some(PlanView::List(items)),
        items.len() > 0,
    ensures
        engine_of(plan, stage_secs)->Ok_0.stages matches Some(all) && {
            &&& all.len() == items.len()
            &&& forall|i: int| 0 <= i < items.len() ==> says_stage(#[trigger] items[i], all[i])
            &&& forall|i: int|
                0 <= i < all.len() ==> (#[trigger] all[i]).1 <= engine_of(
                    plan,
                    stage_secs,
                )->Ok_0.vu_count
            &&& engine_of(plan, stage_secs)->Ok_0.vu_count == 1 || exists|i: int|
                0 <= i < all.len() && (#[trigger] all[i]).1 == engine_of(
                    plan,
                    stage_secs,
                )->Ok_0.vu_count
        },
{
    stage_values_are_as_written(items);
    let all = stage_list(items)->Ok_0;
    assert forall|i: int| 0 <= i < all.len() implies (#[trigger] all[i]).1 <= engine_of(
        plan,
        stage_secs,
    )->Ok_0.vu_count by {
        largest_target_is_largest(all, i);
    }
    largest_target_is_largest(all, 0);
}

/// Whether a plan may run: nothing in it is of a wrong kind, it says how long
/// it runs and against what, and nothing in it contradicts something else.
pub open spec fn may_run(plan: EntriesView) -> bool {
    let streams = is_none(plan, "flow"@) && is_none(plan, "endpoints"@);
    let is_ws = streams && is_left_out(plan, "sse"@);
    &&& is_left_out(plan, "stages"@) || (item(plan, "stages"@) matches Some(PlanView::List(items))
        && !has_iterations(plan) && forall|i: int|
        0 <= i < items.len() ==> asks_for_a_stage(#[trigger] items[i]))
    &&& has_stages(plan) || {
        &&& item(plan, "vu"@) matches Some(v) && is_whole(v, 0xffff_ffff)
        &&& is_left_out(plan, "duration"@) || (item(plan, "duration"@) matches Some(v) && is_whole(
            v,
            u64::MAX as int,
        ))
        &&& seconds(plan) > 0 || has_iterations(plan)
    }
    &&& is_left_out(plan, "sse"@) || (item(plan, "sse"@) matches Some(PlanView::Dict(d))
        && asks_for_a_stream(d))
    &&& is_left_out(plan, "ws"@) || (item(plan, "ws"@) matches Some(PlanView::Dict(d))
        && asks_for_a_socket(d))
    &&& match item(plan, "flow"@) {
        Some(v) => is_sequence_of_steps(v),
        None => match item(plan, "endpoints"@) {
            Some(v) => is_sequence_of_requests(v),
            None => !(is_left_out(plan, "sse"@) && is_left_out(plan, "ws"@)),
        },
    }
    &&& streams ==> !has_stages(plan) && seconds(plan) > 0
    &&& is_ws || has_text(plan, "base_url"@)
}

/// Whether a key is missing.
pub open spec fn is_none(dict: EntriesView, key: Seq<char>) -> bool {
    item(dict, key) is None
}

/// Whether a value is a sequence of dictionaries that describe steps.
pub open spec fn is_sequence_of_steps(v: PlanView) -> bool {
    match v {
        PlanView::List(items) => forall|i: int|
            0 <= i < items.len() ==> ((#[trigger] items[i]) matches PlanView::Dict(d)
                && asks_for_a_step(d)),
        PlanView::Sequence(items) => forall|i: int|
            0 <= i < items.len() ==> ((#[trigger] items[i]) matches PlanView::Dict(d)
                && asks_for_a_step(d)),
        _ => false,
    }
}

/// Whether a value is a sequence of dictionaries that describe requests.
pub open spec fn is_sequence_of_requests(v: PlanView) -> bool {
    match v {
        PlanView::List(items) => forall|i: int|
            0 <= i < items.len() ==> ((#[trigger] items[i]) matches PlanView::Dict(d)
                && asks_for_a_request(d)),
        PlanView::Sequence(items) => forall|i: int|
            0 <= i < items.len() ==> ((#[trigger] items[i]) matches PlanView::Dict(d)
                && asks_for_a_request(d)),
        _ => false,
    }
}

proof fn steps_in_a_sequence(v: PlanView, items: Seq<PlanView>)
    requires
        is_sequence_of(v, items),
    ensures
        is_sequence_of_steps(v) <==> (dicts_of(v) matches Ok(dicts) && steps_of(dicts) is Ok),
        is_sequence_of_requests(v) <==> (dicts_of(v) matches Ok(dicts) && endpoints_of(
            dicts,
        ) is Ok),
{
    if dicts_of(v) is Ok {
        let dicts = dicts_of(v)->Ok_0;
        steps_are_as_written(dicts);
        endpoints_are_as_written(dicts);
        assert(forall|i: int|
            0 <= i < items.len() ==> (#[trigger] items[i]) is Dict && dicts[i]
                == items[i]->Dict_0);
        if steps_of(dicts) is Ok {
            assert forall|i: int| 0 <= i < items.len() implies ((
            #[trigger] items[i]) matches PlanView::Dict(d) && asks_for_a_step(d)) by {
                assert(asks_for_a_step(dicts[i]));
            }
        } else {
            let i = choose|i: int| 0 <= i < dicts.len() && !asks_for_a_step(#[trigger] dicts[i]);
            assert(items[i] is Dict);
        }
        if endpoints_of(dicts) is Ok {
            assert forall|i: int| 0 <= i < items.len() implies ((
            #[trigger] items[i]) matches PlanView::Dict(d) && asks_for_a_request(d)) by {
                assert(asks_for_a_request(dicts[i]));
            }
        } else {
            let i = choose|i: int|
                0 <= i < dicts.len() && !asks_for_a_request(#[trigger] dicts[i]);
            assert(items[i] is Dict);
        }
    } else {
        let i = choose|i: int| 0 <= i < items.len() && !((#[trigger] items[i]) is Dict);
    }
}

proof fn workload_is_accepted(plan: EntriesView)
    requires
        sse_of(plan) is Ok,
        ws_of(plan) is Ok,
    ensures
        workload_of(plan, sse_of(plan)->Ok_0, ws_of(plan)->Ok_0) is Ok <==> match item(
            plan,
            "flow"@,
        ) {
            Some(v) => is_sequence_of_steps(v),
            None => match item(plan, "endpoints"@) {
                Some(v) => is_sequence_of_requests(v),
                None => !(is_left_out(plan, "sse"@) && is_left_out(plan, "ws"@)),
            },
        },
{
    if let Some(v) = item(plan, "flow"@) {
        match v {
            PlanView::List(items) => steps_in_a_sequence(v, items),
            PlanView::Sequence(items) => steps_in_a_sequence(v, items),
            _ => {},
        }
    } else if let Some(v) = item(plan, "endpoints"@) {
        match v {
            PlanView::List(items) => steps_in_a_sequence(v, items),
            PlanView::Sequence(items) => steps_in_a_sequence(v, items),
            _ => {},
        }
    }
}

/// A plan is accepted exactly if it may run.
pub proof fn plans_that_may_run_are_accepted(plan: EntriesView, stage_secs: u64)
    ensures
        engine_of(plan, stage_secs) is Ok <==> may_run(plan),
{
    if let Some(PlanView::List(items)) = item(plan, "stages"@) {
        stage_values_are_as_written(items);
    }
    assert(sse_of(plan) is Ok <==> (is_left_out(plan, "sse"@) || (item(plan, "sse"@) matches Some(
        PlanView::Dict(d),
    ) && asks_for_a_stream(d))));
    assert(ws_of(plan) is Ok <==> (is_left_out(plan, "ws"@) || (item(plan, "ws"@) matches Some(
        PlanView::Dict(d),
    ) && asks_for_a_socket(d))));
    if sse_of(plan) is Ok && ws_of(plan) is Ok {
        workload_is_accepted(plan);
    }
}

/// Whether a plan without stages says how many virtual users it has and for
/// how many seconds or iterations.
pub open spec fn has_load(plan: EntriesView) -> bool {
    &&& is_left_out(plan, "stages"@)
    &&& item(plan, "vu"@) matches Some(v) && is_whole(v, 0xffff_ffff)
    &&& is_left_out(plan, "duration"@) || (item(plan, "duration"@) matches Some(v) && is_whole(
        v,
        u64::MAX as int,
    ))
    &&& seconds(plan) > 0 || has_iterations(plan)
}

/// A plan that is refused is refused with a reason.
pub proof fn refusals_say_why(plan: EntriesView, stage_secs: u64)
    ensures
        ({
            let refusal = engine_of(plan, stage_secs);
            let no_stages = is_left_out(plan, "stages"@);
            let no_sse = is_left_out(plan, "sse"@);
            let no_ws = is_left_out(plan, "ws"@);
            let no_requests = is_none(plan, "flow"@) && is_none(plan, "endpoints"@);
            &&& !no_stages && !(item(plan, "stages"@) matches Some(PlanView::List(_))) ==> refusal
                == Err::<EngineView, PlanErrorView>(
                PlanErrorView::Value("stages must be a list"@),
            )
            &&& no_stages && is_none(plan, "vu"@) ==> refusal == Err::<EngineView, PlanErrorView>(
                PlanErrorView::Value("missing vu"@),
            )
            &&& no_stages && (item(plan, "vu"@) matches Some(v) && is_whole(v, 0xffff_ffff))
                && is_left_out(plan, "duration"@) && !has_iterations(plan) ==> refusal == Err::<
                EngineView,
                PlanErrorView,
            >(PlanErrorView::Value("missing duration, iterations, or stages"@))
            &&& has_load(plan) && !no_sse && !(item(plan, "sse"@) matches Some(PlanView::Dict(_)))
                ==> refusal == Err::<EngineView, PlanErrorView>(
                PlanErrorView::Value("sse must be a dict"@),
            )
            &&& has_load(plan) && no_sse && !no_ws && !(item(plan, "ws"@) matches Some(
                PlanView::Dict(_),
            )) ==> refusal == Err::<EngineView, PlanErrorView>(
                PlanErrorView::Value("ws must be a dict"@),
            )
            &&& has_load(plan) && no_sse && no_ws && no_requests ==> refusal == Err::<
                EngineView,
                PlanErrorView,
            >(PlanErrorView::Value("missing endpoints, flow, sse, or ws"@))
            &&& has_load(plan) && no_ws && no_requests && seconds(plan) == 0 && (item(
                plan,
                "sse"@,
            ) matches Some(PlanView::Dict(d)) && asks_for_a_stream(d)) ==> refusal == Err::<
                EngineView,
                PlanErrorView,
            >(PlanErrorView::Value("sse/ws workloads require duration"@))
            &&& has_load(plan) && no_ws && no_requests && seconds(plan) > 0 && (item(
                plan,
                "sse"@,
            ) matches Some(PlanView::Dict(d)) && asks_for_a_stream(d)) && is_none(
                plan,
                "base_url"@,
            ) ==> refusal == Err::<EngineView, PlanErrorView>(
                PlanErrorView::Value("missing "@ + "base_url"@),
            )
        }),
{
}

/// Stages and a number of iterations do not go together.
pub proof fn stages_exclude_iterations(plan: EntriesView, stage_secs: u64, items: Seq<PlanView>)
    requires
        has_iterations(plan),
        item(plan, "stages"@) == Some(PlanView::List(items)),
        forall|i: int| 0 <= i < items.len() ==> asks_for_a_stage(#[trigger] items[i]),
    ensures
        engine_of(plan, stage_secs) == Err::<EngineView, PlanErrorView>(
            PlanErrorView::Value("stages and iterations are mutually exclusive"@),
        ),
{
    stage_values_are_as_written(items);
}

/// The value of a key is that of the first entry under it, and there is none
/// exactly if there is no such entry.
pub proof fn first_entry_counts(dict: EntriesView, key: Seq<char>)
    ensures
        item(dict, key) is None <==> forall|i: int|
            0 <= i < dict.len() ==> (#[trigger] dict[i]).0 != Some(key),
        item(dict, key) matches Some(v) ==> exists|i: int|
            0 <= i < dict.len() && (#[trigger] dict[i]) == (Some(key), v) && forall|j: int|
                0 <= j < i ==> (#[trigger] dict[j]).0 != Some(key),
    decreases dict.len(),
{
    if dict.len() > 0 && dict[0].0 != Some(key) {
        let rest = dict.drop_first();
        first_entry_counts(rest, key);
        if item(rest, key) is None {
            assert forall|i: int| 0 <= i < dict.len() implies (#[trigger] dict[i]).0 != Some(
                key,
            ) by {
                if i > 0 {
                    assert(rest[i - 1].0 != Some(key));
                }
            }
        } else {
            let v = item(rest, key)->0;
            let i = choose|i: int|
                0 <= i < rest.len() && (#[trigger] rest[i]) == (Some(key), v) && forall|j: int|
                    0 <= j < i ==> (#[trigger] rest[j]).0 != Some(key);
            assert(dict[i + 1] == (Some(key), v));
            assert forall|j: int| 0 <= j < i + 1 implies (#[trigger] dict[j]).0 != Some(key) by {
                if j > 0 {
                    assert(rest[j - 1].0 != Some(key));
                }
            }
        }
    } else if dict.len() > 0 {
        assert(dict[0] == (Some(key), dict[0].1));
    }
}

/// A value of a plan and the JSON that it stands for: truth values, texts,
/// integers of 64 bits and finite numbers as they are, lists item by item, and
/// nothing as null.
pub proof fn json_of_values(v: PlanView)
    ensures
        match v {
            PlanView::Nothing => as_json(v) == JsonView::Null,
            PlanView::Bool(b) => as_json(v) == JsonView::Bool(b),
            PlanView::Text(t) => as_json(v) == JsonView::Text(t),
            PlanView::Int { value, .. } => {
                &&& 0 <= value <= u64::MAX ==> as_json(v) == JsonView::Number(
                    Number::PosInt(value as u64),
                )
                &&& i64::MIN <= value < 0 ==> as_json(v) == JsonView::Number(
                    Number::NegInt(value as i64),
                )
            },
            PlanView::Float(r) => as_json(v) == if r.bits & 0x7ff0_0000_0000_0000
                != 0x7ff0_0000_0000_0000 {
                JsonView::Number(Number::Float(r.bits))
            } else {
                JsonView::Null
            },
            PlanView::List(items) => as_json(v) matches JsonView::Array(all) && {
                &&& all.len() == items.len()
                &&& forall|i: int| 0 <= i < items.len() ==> #[trigger] all[i] == as_json(items[i])
            },
            PlanView::Dict(_) => as_json(v) is Object,
            _ => true,
        },
{
    if let PlanView::Float(r) = v {
        let bits = r.bits;
        assert((bits & 0x7ff0_0000_0000_0000 != 0x7ff0_0000_0000_0000) == ((bits
            / 0x10_0000_0000_0000) % 0x800 != 0x7ff)) by (bit_vector);
    }
}

/// Under each text key the JSON of a dictionary has the JSON of the last entry
/// under that key, and it has no other members than its entries.
pub proof fn json_of_dictionaries(entries: EntriesView, key: Seq<char>)
    requires
        entries_fit(entries),
    ensures
        as_json(PlanView::Dict(entries)) matches JsonView::Object(members) && {
            match last_entry(entries, key) {
                Some(v) => member(members, key) == Some(as_json(v)),
                None => member(members, key) is None,
            }
        },
{
    members_are_the_last_entries(PlanView::Dict(entries), entries.len() as int, key);
    assert(entries.take(entries.len() as int) =~= entries);
}

/// The value of the last entry under a key. A key that is no text counts as an
/// empty one.
pub open spec fn last_entry(entries: EntriesView, key: Seq<char>) -> Option<PlanView>
    decreases entries.len(),
{
    if entries.len() == 0 {
        None
    } else if entries.last().0 == Some(key) || (entries.last().0 is None && key.len() == 0) {
        Some(entries.last().1)
    } else {
        last_entry(entries.drop_last(), key)
    }
}

proof fn members_are_the_last_entries(v: PlanView, n: int, key: Seq<char>)
    requires
        v matches PlanView::Dict(entries) && 0 <= n <= entries.len(),
        v.fits(),
    ensures
        match last_entry(v->Dict_0.take(n), key) {
            Some(x) => member(members_of(v, n), key) == Some(as_json(x)),
            None => member(members_of(v, n), key) is None,
        },
        keys_ascend(members_of(v, n)),
    decreases n,
{
    let entries = v->Dict_0;
    if n > 0 {
        members_are_the_last_entries(v, n - 1, key);
        assert(entries.take(n).drop_last() =~= entries.take(n - 1));
        assert(entries.take(n).last() == entries[n - 1]);
        let name = match entries[n - 1].0 {
            Some(k) => k,
            None => seq![],
        };
        put_is_update(members_of(v, n - 1), name, as_json(entries[n - 1].1), key);
        if entries[n - 1].0 is None && key.len() == 0 {
            assert(key =~= name);
        }
    }
}

}

//! Virtual users that send requests: what each of them does next, how fast,
//! and for how long.

use rand::Rng;
use vstd::prelude::*;
use vstd::slice::slice_to_vec;
use vstd::utf8::{
    decode_utf8, encode_utf8, encode_utf8_decode_utf8, encode_utf8_valid_utf8, valid_utf8,
};

use crate::client::{
    base_address, bytes_view, copy_bytes, copy_expect, copy_pairs, expect_view, pairs_view,
    ConnError, ExpectSpec, ExpectView, H2Pool, Request, RequestResult, RequestResultView,
    RequestView,
};
use crate::metrics::{
    after_all, after_checks, after_one, after_request, all_errors, count_in, counts_are_exact,
    every_error_is_counted, failures_have_the_status_0, fresh_metrics, has_some_error, has_status,
    how_many_is_same, Metrics, MetricsView, Recorded,
};
use crate::template::{
    extract_vars, extracted_from, extracts_view, plain_text_stays, segments_view, substitute,
    substituted, Segment, SegmentView, Vars,
};
use crate::text::from_utf8;

verus! {

broadcast use vstd::string::group_string_axioms;

/// A double, by its bits.
#[derive(Clone, Copy, Debug, PartialEq, Eq, Structural)]
pub struct Real {
    pub bits: u64,
}

// ----------------------------------------------------------------------
// Methods
// ----------------------------------------------------------------------

/// Whether a character may stand in the name of a method.
pub open spec fn is_method_char(c: char) -> bool {
    ||| '0' <= c <= '9'
    ||| 'A' <= c <= 'Z'
    ||| 'a' <= c <= 'z'
    ||| c == '!' || c == '#' || c == '$' || c == '%' || c == '&' || c == '\'' || c == '*'
    ||| c == '+' || c == '-' || c == '.' || c == '^' || c == '_' || c == '`' || c == '|'
    ||| c == '~'
}

/// Whether a text is the name of a method.
pub open spec fn is_method(name: Seq<char>) -> bool {
    name.len() > 0 && forall|i: int| 0 <= i < name.len() ==> is_method_char(#[trigger] name[i])
}

/// `http::Method::from_bytes`: a name is accepted where it has at least one
/// character and all of them may stand in a method, and is kept as it is.
#[verifier::external_body]
fn method_from_bytes(name: &str) -> (method: Option<String>)
    ensures
        method is Some <==> is_method(name@),
        method matches Some(m) ==> m@ == name@,
{
    http::Method::from_bytes(name.as_bytes()).ok().map(|m| m.as_str().to_owned())
}

/// The method of that name, `GET` where there is none.
pub open spec fn method_or_get(name: Seq<char>) -> Seq<char> {
    if is_method(name) {
        name
    } else {
        "GET"@
    }
}

/// The method of that name, `GET` where there is none.
pub fn parse_method(m: &str) -> (method: String)
    ensures
        method@ == method_or_get(m@),
{
    match method_from_bytes(m) {
        Some(method) => method,
        None => "GET".to_owned(),
    }
}

// ----------------------------------------------------------------------
// Endpoints
// ----------------------------------------------------------------------

/// A single weighted endpoint: one request in each iteration of a virtual
/// user.
#[derive(Debug)]
pub struct Endpoint {
    pub method: String,
    pub path: String,
    pub weight: u32,
    pub body: Option<Vec<u8>>,
    pub headers: Vec<(String, String)>,
    pub expect: Option<ExpectSpec>,
}

/// What an `Endpoint` holds.
pub struct EndpointView {
    pub method: Seq<char>,
    pub path: Seq<char>,
    pub weight: u32,
    pub body: Option<Seq<u8>>,
    pub headers: Seq<(Seq<char>, Seq<char>)>,
    pub expect: Option<ExpectView>,
}

impl View for Endpoint {
    type V = EndpointView;

    open spec fn view(&self) -> EndpointView {
        EndpointView {
            method: self.method@,
            path: self.path@,
            weight: self.weight,
            body: bytes_view(self.body),
            headers: pairs_view(self.headers@),
            expect: expect_view(self.expect),
        }
    }
}

/// What a list of endpoints holds.
pub open spec fn endpoints_view(endpoints: Seq<Endpoint>) -> Seq<EndpointView> {
    Seq::new(endpoints.len(), |i: int| endpoints[i]@)
}

/// The request of an endpoint.
pub open spec fn endpoint_request(e: EndpointView) -> RequestView {
    RequestView {
        method: method_or_get(e.method),
        path: e.path,
        headers: e.headers,
        body: e.body,
        capture_body: false,
        expect: e.expect,
    }
}

/// An endpoint whose method has been checked.
#[derive(Debug)]
pub struct PreparedEndpoint {
    pub method: String,
    pub path: String,
    pub body: Option<Vec<u8>>,
    pub headers: Vec<(String, String)>,
    pub expect: Option<ExpectSpec>,
}

impl View for PreparedEndpoint {
    type V = RequestView;

    /// The request that it sends.
    open spec fn view(&self) -> RequestView {
        RequestView {
            method: self.method@,
            path: self.path@,
            headers: pairs_view(self.headers@),
            body: bytes_view(self.body),
            capture_body: false,
            expect: expect_view(self.expect),
        }
    }
}

/// The requests of prepared endpoints.
pub open spec fn requests_view(endpoints: Seq<PreparedEndpoint>) -> Seq<RequestView> {
    Seq::new(endpoints.len(), |i: int| endpoints[i]@)
}

impl PreparedEndpoint {
    fn request(&self) -> (req: Request)
        ensures
            req@ == self@,
    {
        Request {
            method: self.method.clone(),
            path: self.path.clone(),
            headers: copy_pairs(&self.headers),
            body: copy_bytes(&self.body),
            capture_body: false,
            expect: copy_expect(&self.expect),
        }
    }
}

/// The sum of the weights.
pub open spec fn weight_sum(endpoints: Seq<EndpointView>) -> nat
    decreases endpoints.len(),
{
    if endpoints.len() == 0 {
        0
    } else {
        weight_sum(endpoints.drop_last()) + endpoints.last().weight as nat
    }
}

proof fn weight_sum_grows(endpoints: Seq<EndpointView>, n: int)
    requires
        0 <= n <= endpoints.len(),
    ensures
        weight_sum(endpoints.take(n)) <= weight_sum(endpoints),
        n < endpoints.len() ==> weight_sum(endpoints.take(n + 1)) == weight_sum(endpoints.take(n))
            + endpoints[n].weight,
    decreases endpoints.len(),
{
    if n < endpoints.len() {
        assert(endpoints.take(n + 1).drop_last() =~= endpoints.take(n));
        let rest = endpoints.drop_last();
        assert(rest.take(n) =~= endpoints.take(n));
        weight_sum_grows(rest, n);
    } else {
        assert(endpoints.take(n) =~= endpoints);
    }
}

/// A choice among endpoints by their weights.
#[derive(Debug)]
pub struct Selector {
    pub endpoints: Vec<PreparedEndpoint>,
    pub cumulative: Vec<u32>,
    pub total: u32,
}

/// Whether the first cumulative weight that is not below the roll is this
/// one.
pub open spec fn rolled(cumulative: Seq<u32>, roll: u32, i: int) -> bool {
    &&& 0 <= i < cumulative.len()
    &&& roll <= cumulative[i]
    &&& forall|j: int| 0 <= j < i ==> #[trigger] cumulative[j] < roll
}

/// The endpoint that a roll falls on; the first where it falls on none.
pub open spec fn chosen(cumulative: Seq<u32>, roll: u32) -> int {
    if exists|i: int| rolled(cumulative, roll, i) {
        choose|i: int| rolled(cumulative, roll, i)
    } else {
        0
    }
}

/// The cumulative weights of endpoints.
pub open spec fn cumulates(cumulative: Seq<u32>, endpoints: Seq<EndpointView>) -> bool {
    &&& cumulative.len() == endpoints.len()
    &&& forall|i: int|
        0 <= i < endpoints.len() ==> #[trigger] cumulative[i] == weight_sum(endpoints.take(i + 1))
}

/// `rand::Rng::gen_range`: some number from 1 to the given one. Nothing is
/// said of how the numbers are spread.
#[verifier::external_body]
fn random_up_to(total: u32) -> (roll: u32)
    requires
        1 <= total,
    ensures
        1 <= roll <= total,
{
    rand::thread_rng().gen_range(1..=total)
}

impl Selector {
    /// There is something to choose from, and its weights.
    pub open spec fn wf(&self) -> bool {
        &&& self.cumulative@.len() == self.endpoints@.len()
        &&& self.endpoints@.len() > 0
        &&& self.total >= 1
    }

    /// The choice among these endpoints.
    pub fn new(endpoints: &Vec<Endpoint>) -> (s: Selector)
        requires
            weight_sum(endpoints_view(endpoints@)) <= u32::MAX,
        ensures
            requests_view(s.endpoints@) == endpoints_view(endpoints@).map_values(
                |e: EndpointView| endpoint_request(e),
            ),
            cumulates(s.cumulative@, endpoints_view(endpoints@)),
            s.total == weight_sum(endpoints_view(endpoints@)),
            s.total >= 1 ==> s.wf(),
    {
        let ghost all = endpoints_view(endpoints@);
        let mut prepared: Vec<PreparedEndpoint> = Vec::new();
        let mut cumulative: Vec<u32> = Vec::new();
        let mut total: u32 = 0;
        assert(all.take(0) =~= seq![]);
        for i in 0..endpoints.len()
            invariant
                all == endpoints_view(endpoints@),
                weight_sum(all) <= u32::MAX,
                total == weight_sum(all.take(i as int)),
                prepared@.len() == i,
                cumulative@.len() == i,
                forall|j: int|
                    0 <= j < i ==> (#[trigger] prepared@[j])@ == endpoint_request(all[j]),
                forall|j: int|
                    0 <= j < i ==> #[trigger] cumulative@[j] == weight_sum(all.take(j + 1)),
        {
            let e: &Endpoint = &endpoints[i];
            proof {
                weight_sum_grows(all, i as int);
                weight_sum_grows(all, i as int + 1);
                assert(all[i as int] == e@);
            }
            total += e.weight;
            cumulative.push(total);
            prepared.push(
                PreparedEndpoint {
                    method: parse_method(e.method.as_str()),
                    path: e.path.clone(),
                    body: copy_bytes(&e.body),
                    headers: copy_pairs(&e.headers),
                    expect: copy_expect(&e.expect),
                },
            );
        }
        assert(all.take(all.len() as int) =~= all);
        assert(requests_view(prepared@) =~= all.map_values(|e: EndpointView| endpoint_request(e)));
        Selector { endpoints: prepared, cumulative, total }
    }

    /// The endpoint that a roll falls on.
    pub fn pick_at(&self, roll: u32) -> (endpoint: &PreparedEndpoint)
        requires
            self.wf(),
        ensures
            0 <= chosen(self.cumulative@, roll) < self.endpoints@.len(),
            endpoint@ == requests_view(self.endpoints@)[chosen(self.cumulative@, roll)],
    {
        for i in 0..self.cumulative.len()
            invariant
                self.wf(),
                forall|j: int| 0 <= j < i ==> #[trigger] self.cumulative@[j] < roll,
        {
            if roll <= self.cumulative[i] {
                proof {
                    let c = self.cumulative@;
                    assert(rolled(c, roll, i as int));
                    let k = chosen(c, roll);
                    assert(rolled(c, roll, k));
                    assert(k < i ==> c[k] < roll);
                    assert(i < k ==> c[i as int] < roll);
                }
                return &self.endpoints[i];
            }
        }
        assert(forall|i: int| !rolled(self.cumulative@, roll, i));
        &self.endpoints[0]
    }

    /// An endpoint by chance.
    pub fn pick(&self) -> (endpoint: &PreparedEndpoint)
        requires
            self.wf(),
        ensures
            exists|roll: u32|
                1 <= roll <= self.total && endpoint@ == requests_view(
                    self.endpoints@,
                )[#[trigger] chosen(self.cumulative@, roll)],
    {
        self.pick_at(random_up_to(self.total))
    }
}

/// Each endpoint is chosen by exactly as many of the possible rolls as its
/// weight says: by those above the weights before it, and up to its own.
pub proof fn weights_share_out_the_rolls(
    cumulative: Seq<u32>,
    endpoints: Seq<EndpointView>,
    roll: u32,
    i: int,
)
    requires
        cumulates(cumulative, endpoints),
        1 <= roll <= weight_sum(endpoints),
        0 <= i < endpoints.len(),
    ensures
        (chosen(cumulative, roll) == i) <==> (weight_sum(endpoints.take(i)) < roll <= weight_sum(
            endpoints.take(i),
        ) + endpoints[i].weight),
{
    let k = some_endpoint_is_rolled(cumulative, endpoints, roll);
    assert forall|a: int, b: int| 0 <= a <= b < endpoints.len() implies cumulative[a]
        <= cumulative[b] by {
        assert(endpoints.take(b + 1).take(a + 1) =~= endpoints.take(a + 1));
        weight_sum_grows(endpoints.take(b + 1), a + 1);
    }
    assert(rolled(cumulative, roll, k));
    let c = chosen(cumulative, roll);
    assert(rolled(cumulative, roll, c));
    assert(c < k ==> cumulative[c] < roll);
    assert(k < c ==> cumulative[k] < roll);
    weight_sum_grows(endpoints, i);
    if i > 0 {
        assert(cumulative[i - 1] == weight_sum(endpoints.take(i)));
    } else {
        assert(endpoints.take(0) =~= seq![]);
    }
    assert(cumulative[i] == weight_sum(endpoints.take(i + 1)));
    if weight_sum(endpoints.take(i)) < roll <= cumulative[i] {
        assert(forall|j: int| 0 <= j < i ==> #[trigger] cumulative[j] <= cumulative[i - 1]);
        assert(rolled(cumulative, roll, i));
        assert(c < i ==> cumulative[c] < roll);
        assert(i < c ==> cumulative[i] < roll);
    }
}

proof fn some_endpoint_is_rolled(
    cumulative: Seq<u32>,
    endpoints: Seq<EndpointView>,
    roll: u32,
) -> (i: int)
    requires
        cumulates(cumulative, endpoints),
        1 <= roll <= weight_sum(endpoints),
    ensures
        rolled(cumulative, roll, i),
    decreases endpoints.len(),
{
    let last = endpoints.len() - 1;
    let rest = endpoints.drop_last();
    if roll <= weight_sum(rest) {
        assert forall|i: int| 0 <= i < rest.len() implies #[trigger] cumulative.drop_last()[i]
            == weight_sum(rest.take(i + 1)) by {
            assert(rest.take(i + 1) =~= endpoints.take(i + 1));
            assert(cumulative[i] == weight_sum(endpoints.take(i + 1)));
        }
        let i = some_endpoint_is_rolled(cumulative.drop_last(), rest, roll);
        assert forall|j: int| 0 <= j < i implies #[trigger] cumulative[j] < roll by {
            assert(cumulative.drop_last()[j] < roll);
        }
        assert(cumulative[i] == cumulative.drop_last()[i]);
        i
    } else {
        assert(endpoints.take(last + 1) =~= endpoints);
        assert(cumulative[last] == weight_sum(endpoints.take(last + 1)));
        assert forall|j: int| 0 <= j < last implies #[trigger] cumulative[j] < roll by {
            assert(endpoints.take(j + 1) =~= rest.take(j + 1));
            weight_sum_grows(rest, j + 1);
        }
        last
    }
}

// ----------------------------------------------------------------------
// Flows
// ----------------------------------------------------------------------

/// One step in a business flow. An iteration of a virtual user runs all
/// steps in order.
#[derive(Debug)]
pub struct FlowStep {
    pub method: String,
    pub path: String,
    pub headers: Vec<(String, String)>,
    pub body: Option<Vec<u8>>,
    pub extracts: Vec<(String, Vec<Segment>)>,
    pub expect: Option<ExpectSpec>,
}

/// What a step holds.
pub struct StepView {
    pub method: Seq<char>,
    pub path: Seq<char>,
    pub headers: Seq<(Seq<char>, Seq<char>)>,
    pub body: Option<Seq<u8>>,
    pub extracts: Seq<(Seq<char>, Seq<SegmentView>)>,
    pub expect: Option<ExpectView>,
}

impl View for FlowStep {
    type V = StepView;

    open spec fn view(&self) -> StepView {
        StepView {
            method: self.method@,
            path: self.path@,
            headers: pairs_view(self.headers@),
            body: bytes_view(self.body),
            extracts: extracts_view(self.extracts@),
            expect: expect_view(self.expect),
        }
    }
}

/// What a flow holds.
pub open spec fn flow_view(steps: Seq<FlowStep>) -> Seq<StepView> {
    Seq::new(steps.len(), |i: int| steps[i]@)
}

/// A step whose method has been checked.
#[derive(Debug)]
pub struct PreparedStep {
    pub method: String,
    pub path: String,
    pub headers: Vec<(String, String)>,
    pub body: Option<Vec<u8>>,
    pub extracts: Vec<(String, Vec<Segment>)>,
    pub expect: Option<ExpectSpec>,
}

impl View for PreparedStep {
    type V = StepView;

    open spec fn view(&self) -> StepView {
        StepView {
            method: self.method@,
            path: self.path@,
            headers: pairs_view(self.headers@),
            body: bytes_view(self.body),
            extracts: extracts_view(self.extracts@),
            expect: expect_view(self.expect),
        }
    }
}

/// What prepared steps hold.
pub open spec fn steps_view(steps: Seq<PreparedStep>) -> Seq<StepView> {
    Seq::new(steps.len(), |i: int| steps[i]@)
}

/// A step with its method checked.
pub open spec fn prepared(step: StepView) -> StepView {
    StepView { method: method_or_get(step.method), ..step }
}

/// A body with the variables' values in it; empty where it is no text.
pub open spec fn rendered_body(
    body: Option<Seq<u8>>,
    vars: Map<Seq<char>, Seq<char>>,
) -> Option<Seq<u8>> {
    match body {
        Some(b) => Some(
            encode_utf8(
                substituted(
                    if valid_utf8(b) {
                        decode_utf8(b)
                    } else {
                        seq![]
                    },
                    vars,
                ),
            ),
        ),
        None => None,
    }
}

/// The request of a step: the variables' values stand in its path, the values
/// of its headers and its body. The reply's body is kept where something is
/// extracted from it.
pub open spec fn rendered(step: StepView, vars: Map<Seq<char>, Seq<char>>) -> RequestView {
    RequestView {
        method: step.method,
        path: substituted(step.path, vars),
        headers: step.headers.map_values(
            |h: (Seq<char>, Seq<char>)| (h.0, substituted(h.1, vars)),
        ),
        body: rendered_body(step.body, vars),
        capture_body: step.extracts.len() > 0,
        expect: step.expect,
    }
}

impl PreparedStep {
    /// The request with the variables' values in it.
    pub fn render(&self, vars: &Vars) -> (req: Request)
        ensures
            req@ == rendered(self@, vars@),
    {
        let path: String = substitute(self.path.as_str(), vars);
        let mut headers: Vec<(String, String)> = Vec::new();
        for i in 0..self.headers.len()
            invariant
                headers@.len() == i,
                forall|j: int|
                    0 <= j < i ==> (#[trigger] headers@[j]).0@ == self.headers@[j].0@
                        && headers@[j].1@ == substituted(self.headers@[j].1@, vars@),
        {
            headers.push(
                (self.headers[i].0.clone(), substitute(self.headers[i].1.as_str(), vars)),
            );
        }
        assert(pairs_view(headers@) =~= rendered(self@, vars@).headers);
        let body: Option<Vec<u8>> = match &self.body {
            Some(b) => {
                let template: String = match from_utf8(b.as_slice()) {
                    Some(text) => text,
                    None => {
                        let nothing: String = String::new();
                        assert(nothing@ =~= seq![]);
                        nothing
                    },
                };
                let text: String = substitute(template.as_str(), vars);
                Some(slice_to_vec(text.as_str().as_bytes()))
            },
            None => None,
        };
        Request {
            method: self.method.clone(),
            path,
            headers,
            body,
            capture_body: self.extracts.len() > 0,
            expect: copy_expect(&self.expect),
        }
    }
}

/// An equal path.
fn copy_segments(segments: &Vec<Segment>) -> (r: Vec<Segment>)
    ensures
        segments_view(r@) == segments_view(segments@),
{
    let mut r: Vec<Segment> = Vec::new();
    for i in 0..segments.len()
        invariant
            r@.len() == i,
            forall|j: int| 0 <= j < i ==> (#[trigger] r@[j])@ == segments@[j]@,
    {
        r.push(
            match &segments[i] {
                Segment::Key(k) => Segment::Key(k.clone()),
                Segment::Index(at) => Segment::Index(*at),
            },
        );
    }
    assert(segments_view(r@) =~= segments_view(segments@));
    r
}

/// Equal extractions.
fn copy_extracts(extracts: &Vec<(String, Vec<Segment>)>) -> (r: Vec<(String, Vec<Segment>)>)
    ensures
        extracts_view(r@) == extracts_view(extracts@),
{
    let mut r: Vec<(String, Vec<Segment>)> = Vec::new();
    for i in 0..extracts.len()
        invariant
            r@.len() == i,
            forall|j: int|
                0 <= j < i ==> (#[trigger] r@[j]).0@ == extracts@[j].0@ && segments_view(r@[j].1@)
                    == segments_view(extracts@[j].1@),
    {
        r.push((extracts[i].0.clone(), copy_segments(&extracts[i].1)));
    }
    assert(extracts_view(r@) =~= extracts_view(extracts@));
    r
}

/// The steps of a flow, with their methods checked.
fn prepare_flow(steps: &Vec<FlowStep>) -> (r: Vec<PreparedStep>)
    ensures
        steps_view(r@) == flow_view(steps@).map_values(|s: StepView| prepared(s)),
{
    let mut r: Vec<PreparedStep> = Vec::new();
    for i in 0..steps.len()
        invariant
            r@.len() == i,
            forall|j: int| 0 <= j < i ==> (#[trigger] r@[j])@ == prepared(steps@[j]@),
    {
        let step: &FlowStep = &steps[i];
        r.push(
            PreparedStep {
                method: parse_method(step.method.as_str()),
                path: step.path.clone(),
                headers: copy_pairs(&step.headers),
                body: copy_bytes(&step.body),
                extracts: copy_extracts(&step.extracts),
                expect: copy_expect(&step.expect),
            },
        );
    }
    assert(steps_view(r@) =~= flow_view(steps@).map_values(|s: StepView| prepared(s)));
    r
}

// ----------------------------------------------------------------------
// Rate, iterations and stages
// ----------------------------------------------------------------------

/// Spaces requests out: each gets a slot of its own.
#[derive(Clone, Copy, Debug)]
pub struct RateLimiter {
    pub next_ns: u64,
    pub interval_ns: u64,
}

/// The slot of a request that asks at this time.
pub open spec fn slot(limiter: RateLimiter, now_ns: u64) -> u64 {
    if now_ns >= limiter.next_ns {
        now_ns
    } else {
        limiter.next_ns
    }
}

/// The limiter after a request has asked at this time.
pub open spec fn after_slot(limiter: RateLimiter, now_ns: u64) -> RateLimiter {
    RateLimiter {
        next_ns: if slot(limiter, now_ns) + limiter.interval_ns > u64::MAX {
            (slot(limiter, now_ns) + limiter.interval_ns - 0x1_0000_0000_0000_0000) as u64
        } else {
            (slot(limiter, now_ns) + limiter.interval_ns) as u64
        },
        ..limiter
    }
}

impl RateLimiter {
    /// One request in each interval.
    pub fn new(interval_ns: u64) -> (limiter: RateLimiter)
        ensures
            limiter == (RateLimiter { next_ns: 0, interval_ns }),
    {
        RateLimiter { next_ns: 0, interval_ns }
    }

    /// How long a request that asks now, in nanoseconds since the start, has
    /// to wait.
    pub fn acquire(&mut self, now_ns: u64) -> (wait_ns: u64)
        ensures
            now_ns + wait_ns == slot(*old(self), now_ns),
            *final(self) == after_slot(*old(self), now_ns),
    {
        let slot_ns: u64 = if now_ns >= self.next_ns {
            now_ns
        } else {
            self.next_ns
        };
        self.next_ns = slot_ns.wrapping_add(self.interval_ns);
        slot_ns - now_ns
    }
}

/// The limiter after requests have asked at these times.
pub open spec fn after_slots(limiter: RateLimiter, times: Seq<u64>) -> RateLimiter
    decreases times.len(),
{
    if times.len() == 0 {
        limiter
    } else {
        after_slot(after_slots(limiter, times.drop_last()), times.last())
    }
}

/// The slot of the request number `i`, counted from 0.
pub open spec fn slot_of(limiter: RateLimiter, times: Seq<u64>, i: int) -> u64 {
    slot(after_slots(limiter, times.take(i)), times[i])
}

/// Of any two requests the later one's slot comes as many intervals after
/// the earlier one's as there are requests from the one to the other, no
/// matter when they ask, as long as the clock does not start over.
pub proof fn slots_keep_their_distance(limiter: RateLimiter, times: Seq<u64>, i: int, j: int)
    requires
        0 <= i <= j < times.len(),
        forall|k: int|
            0 <= k < times.len() ==> (#[trigger] slot_of(limiter, times, k)) + limiter.interval_ns
                <= u64::MAX,
    ensures
        slot_of(limiter, times, j) >= slot_of(limiter, times, i) + (j - i) * limiter.interval_ns,
    decreases j - i,
{
    interval_stays(limiter, times.take(j));
    if i < j {
        slots_keep_their_distance(limiter, times, i, j - 1);
        assert(times.take(j).drop_last() =~= times.take(j - 1));
        assert(times.take(j).last() == times[j - 1]);
        interval_stays(limiter, times.take(j - 1));
        let earlier = slot_of(limiter, times, j - 1);
        assert(after_slots(limiter, times.take(j)).next_ns == earlier + limiter.interval_ns);
        assert((j - i) * limiter.interval_ns == (j - 1 - i) * limiter.interval_ns
            + limiter.interval_ns) by (nonlinear_arith);
    } else {
        assert((j - i) * limiter.interval_ns == 0) by (nonlinear_arith)
            requires
                i == j,
        ;
    }
}

proof fn interval_stays(limiter: RateLimiter, times: Seq<u64>)
    ensures
        after_slots(limiter, times).interval_ns == limiter.interval_ns,
    decreases times.len(),
{
    if times.len() > 0 {
        interval_stays(limiter, times.drop_last());
    }
}

/// Take one of the iterations that remain, if there is one.
pub fn acquire_iteration(remaining: &mut u64) -> (taken: bool)
    ensures
        taken == (*old(remaining) > 0),
        *final(remaining) == after_attempt(*old(remaining)),
{
    if *remaining == 0 {
        return false;
    }
    *remaining -= 1;
    true
}

/// The iterations that remain after an attempt to take one.
pub open spec fn after_attempt(remaining: u64) -> u64 {
    if remaining > 0 {
        (remaining - 1) as u64
    } else {
        0
    }
}

/// The iterations that remain after so many attempts.
pub open spec fn after_attempts(remaining: u64, attempts: nat) -> u64
    decreases attempts,
{
    if attempts == 0 {
        remaining
    } else {
        after_attempt(after_attempts(remaining, (attempts - 1) as nat))
    }
}

/// However many attempts there are, as many succeed as there were iterations,
/// and those are the first ones.
pub proof fn iterations_are_taken_once(remaining: u64, attempt: nat)
    ensures
        (after_attempts(remaining, attempt) > 0) <==> attempt < remaining,
        attempt <= remaining ==> after_attempts(remaining, attempt) == remaining - attempt,
        attempt >= remaining ==> after_attempts(remaining, attempt) == 0,
    decreases attempt,
{
    if attempt > 0 {
        iterations_are_taken_once(remaining, (attempt - 1) as nat);
    }
}

/// A load curve: in each stage the number of active virtual users goes in a
/// straight line to the stage's target, from 0 at the start.
#[derive(Debug)]
pub struct Stages {
    /// The duration in seconds and the target of each stage.
    pub stages: Vec<(Real, u32)>,
    pub max_target: u32,
}

/// The largest target, 0 where there is none.
pub open spec fn largest_target(stages: Seq<(Real, u32)>) -> u32
    decreases stages.len(),
{
    if stages.len() == 0 {
        0
    } else {
        let before = largest_target(stages.drop_last());
        if stages.last().1 > before {
            stages.last().1
        } else {
            before
        }
    }
}

/// No target is above the largest, and one of them is the largest.
pub proof fn largest_target_is_largest(stages: Seq<(Real, u32)>, i: int)
    requires
        0 <= i < stages.len(),
    ensures
        stages[i].1 <= largest_target(stages),
        exists|j: int| 0 <= j < stages.len() && #[trigger] stages[j].1 == largest_target(stages),
    decreases stages.len(),
{
    let last = stages.len() - 1;
    let rest = stages.drop_last();
    if last > 0 {
        let k = if i < last {
            i
        } else {
            0
        };
        largest_target_is_largest(rest, k);
        assert(rest[k] == stages[k]);
        let j = choose|j: int| 0 <= j < rest.len() && #[trigger] rest[j].1 == largest_target(rest);
        assert(rest[j] == stages[j]);
        assert(stages[last].1 == largest_target(stages) || stages[j].1 == largest_target(stages));
    } else {
        assert(stages[0].1 == largest_target(stages)) by {
            assert(largest_target(rest) == 0);
        }
    }
}

impl Stages {
    /// The curve of these stages.
    pub fn new(stages: Vec<(Real, u32)>) -> (s: Stages)
        ensures
            s.stages@ == stages@,
            s.max_target == largest_target(stages@),
    {
        let mut max_target: u32 = 0;
        assert(stages@.take(0) =~= seq![]);
        for i in 0..stages.len()
            invariant
                max_target == largest_target(stages@.take(i as int)),
        {
            assert(stages@.take(i as int + 1).drop_last() =~= stages@.take(i as int));
            if stages[i].1 > max_target {
                max_target = stages[i].1;
            }
        }
        assert(stages@.take(stages@.len() as int) =~= stages@);
        Stages { stages, max_target }
    }
}

// ----------------------------------------------------------------------
// Virtual users
// ----------------------------------------------------------------------

/// The metrics after a request and the assertions on its reply.
pub open spec fn after_result(m: MetricsView, at_secs: u64, r: RequestResultView) -> MetricsView {
    after_checks(
        after_request(m, at_secs, r.latency_us, r.status, r.bytes, r.is_success, r.error),
        r.check_passed,
        r.check_failures,
    )
}

/// Record a request and the assertions on its reply.
pub fn record_result(metrics: &mut Metrics, at_secs: u64, result: &RequestResult)
    requires
        old(metrics)@.wf(),
    ensures
        final(metrics)@ == after_result(old(metrics)@, at_secs, result@),
        final(metrics)@.wf(),
{
    metrics.record(
        at_secs,
        result.latency_us,
        result.status,
        result.bytes,
        result.is_success,
        result.error,
    );
    metrics.record_checks(result.check_passed, &result.check_failures);
}

/// What virtual users do in each iteration.
#[derive(Debug)]
pub enum Work {
    /// One request to an endpoint by chance.
    Endpoints(Selector),
    /// All steps in order.
    Flow(Vec<PreparedStep>),
}

/// What a `Work` holds.
pub enum WorkView {
    Endpoints { requests: Seq<RequestView>, cumulative: Seq<u32> },
    Flow { steps: Seq<StepView> },
}

impl View for Work {
    type V = WorkView;

    open spec fn view(&self) -> WorkView {
        match self {
            Work::Endpoints(s) => WorkView::Endpoints {
                requests: requests_view(s.endpoints@),
                cumulative: s.cumulative@,
            },
            Work::Flow(steps) => WorkView::Flow { steps: steps_view(steps@) },
        }
    }
}

impl Work {
    /// There is an endpoint to choose.
    pub open spec fn wf(&self) -> bool {
        match self {
            Work::Endpoints(s) => s.wf(),
            Work::Flow(_) => true,
        }
    }
}

impl WorkView {
    /// The number of requests in an iteration.
    pub open spec fn len(self) -> nat {
        match self {
            WorkView::Endpoints { .. } => 1,
            WorkView::Flow { steps } => steps.len(),
        }
    }

    /// A request of an iteration.
    pub open spec fn request(
        self,
        i: int,
        vars: Map<Seq<char>, Seq<char>>,
        roll: u32,
    ) -> RequestView {
        match self {
            WorkView::Endpoints { requests, cumulative } => requests[chosen(cumulative, roll)],
            WorkView::Flow { steps } => rendered(steps[i], vars),
        }
    }

    /// The variables after the reply to a request of an iteration.
    pub open spec fn vars_after(
        self,
        i: int,
        vars: Map<Seq<char>, Seq<char>>,
        body: Option<Seq<u8>>,
    ) -> Map<Seq<char>, Seq<char>> {
        match (self, body) {
            (WorkView::Flow { steps }, Some(b)) => if steps[i].extracts.len() > 0 {
                extracted_from(vars, b, steps[i].extracts)
            } else {
                vars
            },
            _ => vars,
        }
    }
}

/// What decides whether another iteration begins.
#[derive(Clone, Copy, Debug, PartialEq, Eq, Structural)]
pub enum Pace {
    /// The load curve, until its end.
    Curve,
    /// A number of iterations that all virtual users share.
    Count,
    /// The time.
    Clock,
}

/// Where a virtual user is.
#[derive(Clone, Copy, Debug, PartialEq, Eq, Structural)]
pub enum Phase {
    /// Before its share of the ramp-up has passed.
    Ramping,
    /// Before it has a connection.
    Starting,
    /// Getting a connection of its own.
    Opening,
    /// Between iterations.
    Deciding,
    /// Inactive on the load curve.
    Resting,
    /// Before this request, waiting for a slot.
    Pacing(usize),
    /// After sending this request.
    Sending(usize),
    Done,
}

/// What a virtual user learns.
#[derive(Debug)]
pub enum VuEvent {
    /// What it asked for has been done.
    Resume,
    /// Whether the end is still ahead, and whether it is active on the load
    /// curve.
    Clock { before_deadline: bool, active: bool },
    /// Whether there was an iteration left.
    Iteration(bool),
    /// What came of its request.
    Responded(RequestResult),
}

/// What a `VuEvent` holds.
pub enum VuEventView {
    Resume,
    Clock { before_deadline: bool, active: bool },
    Iteration(bool),
    Responded(RequestResultView),
}

impl View for VuEvent {
    type V = VuEventView;

    open spec fn view(&self) -> VuEventView {
        match self {
            VuEvent::Resume => VuEventView::Resume,
            VuEvent::Clock { before_deadline, active } => VuEventView::Clock {
                before_deadline: *before_deadline,
                active: *active,
            },
            VuEvent::Iteration(taken) => VuEventView::Iteration(*taken),
            VuEvent::Responded(r) => VuEventView::Responded(r@),
        }
    }
}

/// What a virtual user asks for.
#[derive(Debug)]
pub enum VuAction {
    /// Wait for its share of the ramp-up.
    RampUp,
    /// Make a connection of its own.
    Open,
    /// Tell the time.
    AskClock,
    /// Take one of the iterations that remain.
    TakeIteration,
    /// Wait for 10 milliseconds.
    Rest,
    /// Wait for a slot.
    AskPermit,
    /// Send a request.
    Send(Request),
    /// Nothing more.
    Stop,
}

/// What a `VuAction` holds.
pub enum VuActionView {
    RampUp,
    Open,
    AskClock,
    TakeIteration,
    Rest,
    AskPermit,
    Send(RequestView),
    Stop,
}

impl View for VuAction {
    type V = VuActionView;

    open spec fn view(&self) -> VuActionView {
        match self {
            VuAction::RampUp => VuActionView::RampUp,
            VuAction::Open => VuActionView::Open,
            VuAction::AskClock => VuActionView::AskClock,
            VuAction::TakeIteration => VuActionView::TakeIteration,
            VuAction::Rest => VuActionView::Rest,
            VuAction::AskPermit => VuActionView::AskPermit,
            VuAction::Send(r) => VuActionView::Send(r@),
            VuAction::Stop => VuActionView::Stop,
        }
    }
}

/// A virtual user that sends requests.
pub struct HttpVu {
    pub index: u32,
    pub pace: Pace,
    /// Whether it shares a pool of connections with the others.
    pub pooled: bool,
    /// Whether requests are spaced out.
    pub limited: bool,
    pub phase: Phase,
    pub vars: Vars,
}

/// What a `HttpVu` holds.
pub struct VuView {
    pub index: u32,
    pub pace: Pace,
    pub pooled: bool,
    pub limited: bool,
    pub phase: Phase,
    pub vars: Map<Seq<char>, Seq<char>>,
}

impl View for HttpVu {
    type V = VuView;

    open spec fn view(&self) -> VuView {
        VuView {
            index: self.index,
            pace: self.pace,
            pooled: self.pooled,
            limited: self.limited,
            phase: self.phase,
            vars: self.vars@,
        }
    }
}

/// The question before an iteration.
pub open spec fn question(pace: Pace) -> VuActionView {
    if pace == Pace::Count {
        VuActionView::TakeIteration
    } else {
        VuActionView::AskClock
    }
}

impl VuView {
    /// In another phase.
    pub open spec fn at(self, phase: Phase) -> VuView {
        VuView { phase, ..self }
    }

    /// Between iterations.
    pub open spec fn decide(self) -> (VuView, VuActionView) {
        (self.at(Phase::Deciding), question(self.pace))
    }

    /// At the end.
    pub open spec fn stop(self) -> (VuView, VuActionView) {
        (self.at(Phase::Done), VuActionView::Stop)
    }

    /// With this request sent.
    pub open spec fn send(self, work: WorkView, i: int, roll: u32) -> (VuView, VuActionView) {
        (
            self.at(Phase::Sending(i as usize)),
            VuActionView::Send(work.request(i, self.vars, roll)),
        )
    }

    /// On the way to this request, or past the last one.
    pub open spec fn proceed(self, work: WorkView, i: int, roll: u32) -> (VuView, VuActionView) {
        if i >= work.len() {
            self.decide()
        } else if self.limited {
            (self.at(Phase::Pacing(i as usize)), VuActionView::AskPermit)
        } else {
            self.send(work, i, roll)
        }
    }

    /// What follows an event. A roll stands for chance. What is not expected
    /// ends it.
    pub open spec fn step(
        self,
        work: WorkView,
        event: VuEventView,
        roll: u32,
    ) -> (VuView, VuActionView) {
        match (self.phase, event) {
            (Phase::Ramping, VuEventView::Resume) => (
                self.at(Phase::Starting),
                VuActionView::RampUp,
            ),
            (Phase::Starting, VuEventView::Resume) => if self.pooled {
                self.decide()
            } else {
                (self.at(Phase::Opening), VuActionView::Open)
            },
            (Phase::Opening, VuEventView::Resume) => self.decide(),
            (Phase::Resting, VuEventView::Resume) => self.decide(),
            (Phase::Deciding, VuEventView::Clock { before_deadline, active }) => if self.pace
                == Pace::Count || !before_deadline {
                self.stop()
            } else if self.pace == Pace::Curve && !active {
                (self.at(Phase::Resting), VuActionView::Rest)
            } else {
                self.proceed(work, 0, roll)
            },
            (Phase::Deciding, VuEventView::Iteration(taken)) => if self.pace == Pace::Count
                && taken {
                self.proceed(work, 0, roll)
            } else {
                self.stop()
            },
            (Phase::Pacing(i), VuEventView::Resume) => if i < work.len() {
                self.send(work, i as int, roll)
            } else {
                self.stop()
            },
            (Phase::Sending(i), VuEventView::Responded(r)) => if i < work.len() {
                VuView { vars: work.vars_after(i as int, self.vars, r.body), ..self }.proceed(
                    work,
                    i + 1,
                    roll,
                )
            } else {
                self.stop()
            },
            _ => self.stop(),
        }
    }

    /// The metrics after an event: a reply that was waited for is recorded.
    pub open spec fn recorded(
        self,
        work: WorkView,
        event: VuEventView,
        m: MetricsView,
        at_secs: u64,
    ) -> MetricsView {
        match (self.phase, event) {
            (Phase::Sending(i), VuEventView::Responded(r)) => if i < work.len() {
                after_result(m, at_secs, r)
            } else {
                m
            },
            _ => m,
        }
    }
}

impl HttpVu {
    /// Between iterations.
    fn decide(&mut self) -> (action: VuAction)
        ensures
            (final(self)@, action@) == old(self)@.decide(),
    {
        self.phase = Phase::Deciding;
        match self.pace {
            Pace::Count => VuAction::TakeIteration,
            _ => VuAction::AskClock,
        }
    }

    /// At the end.
    fn stop(&mut self) -> (action: VuAction)
        ensures
            (final(self)@, action@) == old(self)@.stop(),
    {
        self.phase = Phase::Done;
        VuAction::Stop
    }

    /// With this request sent.
    fn send(&mut self, work: &Work, i: usize, roll: u32) -> (action: VuAction)
        requires
            work.wf(),
            i < work@.len(),
        ensures
            (final(self)@, action@) == old(self)@.send(work@, i as int, roll),
    {
        self.phase = Phase::Sending(i);
        match work {
            Work::Endpoints(selector) => VuAction::Send(selector.pick_at(roll).request()),
            Work::Flow(steps) => VuAction::Send(steps[i].render(&self.vars)),
        }
    }

    /// On the way to this request, or past the last one.
    fn proceed(&mut self, work: &Work, i: usize, roll: u32) -> (action: VuAction)
        requires
            work.wf(),
        ensures
            (final(self)@, action@) == old(self)@.proceed(work@, i as int, roll),
    {
        let len: usize = match work {
            Work::Endpoints(_) => 1,
            Work::Flow(steps) => steps.len(),
        };
        if i >= len {
            self.decide()
        } else if self.limited {
            self.phase = Phase::Pacing(i);
            VuAction::AskPermit
        } else {
            self.send(work, i, roll)
        }
    }

    /// What a virtual user does after an event. A roll from 1 to the sum of
    /// the weights stands for chance.
    pub fn step_at(
        &mut self,
        work: &Work,
        event: &VuEvent,
        roll: u32,
        metrics: &mut Metrics,
        at_secs: u64,
    ) -> (action: VuAction)
        requires
            work.wf(),
            old(metrics)@.wf(),
        ensures
            (final(self)@, action@) == old(self)@.step(work@, event@, roll),
            final(metrics)@ == old(self)@.recorded(work@, event@, old(metrics)@, at_secs),
            final(metrics)@.wf(),
    {
        let len: usize = match work {
            Work::Endpoints(_) => 1,
            Work::Flow(steps) => steps.len(),
        };
        match (self.phase, event) {
            (Phase::Ramping, VuEvent::Resume) => {
                self.phase = Phase::Starting;
                VuAction::RampUp
            },
            (Phase::Starting, VuEvent::Resume) => {
                if self.pooled {
                    self.decide()
                } else {
                    self.phase = Phase::Opening;
                    VuAction::Open
                }
            },
            (Phase::Opening, VuEvent::Resume) => self.decide(),
            (Phase::Resting, VuEvent::Resume) => self.decide(),
            (Phase::Deciding, VuEvent::Clock { before_deadline, active }) => {
                let counted: bool = match self.pace {
                    Pace::Count => true,
                    _ => false,
                };
                let curved: bool = match self.pace {
                    Pace::Curve => true,
                    _ => false,
                };
                if counted || !*before_deadline {
                    self.stop()
                } else if curved && !*active {
                    self.phase = Phase::Resting;
                    VuAction::Rest
                } else {
                    self.proceed(work, 0, roll)
                }
            },
            (Phase::Deciding, VuEvent::Iteration(taken)) => {
                let counted: bool = match self.pace {
                    Pace::Count => true,
                    _ => false,
                };
                if counted && *taken {
                    self.proceed(work, 0, roll)
                } else {
                    self.stop()
                }
            },
            (Phase::Pacing(i), VuEvent::Resume) => {
                if i < len {
                    self.send(work, i, roll)
                } else {
                    self.stop()
                }
            },
            (Phase::Sending(i), VuEvent::Responded(result)) => {
                if i < len {
                    record_result(metrics, at_secs, result);
                    if let Work::Flow(steps) = work {
                        if steps[i].extracts.len() > 0 {
                            if let Some(body) = &result.body {
                                extract_vars(body.as_slice(), &steps[i].extracts, &mut self.vars);
                            }
                        }
                    }
                    self.proceed(work, i + 1, roll)
                } else {
                    self.stop()
                }
            },
            _ => self.stop(),
        }
    }

    /// What a virtual user does after an event, by chance where it has a
    /// choice.
    pub fn step(
        &mut self,
        work: &Work,
        event: &VuEvent,
        metrics: &mut Metrics,
        at_secs: u64,
    ) -> (action: VuAction)
        requires
            work.wf(),
            old(metrics)@.wf(),
        ensures
            exists|roll: u32|
                (work matches Work::Endpoints(s) ==> 1 <= roll <= s.total) && (
                    final(self)@,
                    action@,
                ) == #[trigger] old(self)@.step(work@, event@, roll),
            final(metrics)@ == old(self)@.recorded(work@, event@, old(metrics)@, at_secs),
            final(metrics)@.wf(),
    {
        let roll: u32 = match work {
            Work::Endpoints(selector) => random_up_to(selector.total),
            Work::Flow(_) => 0,
        };
        self.step_at(work, event, roll, metrics, at_secs)
    }
}

// ----------------------------------------------------------------------
// Starting
// ----------------------------------------------------------------------

/// When a run ends.
#[derive(Clone, Copy, Debug, PartialEq, Eq, Structural)]
pub enum Deadline {
    /// At the end of the load curve.
    Stages,
    /// After so many seconds.
    Secs(u64),
}

/// A run of virtual users that send requests.
pub struct HttpRun {
    pub base_url: String,
    pub insecure: bool,
    /// The connections that all share, for HTTP/2.
    pub pool: Option<H2Pool>,
    pub work: Work,
    /// The iterations that all share.
    pub remaining: Option<u64>,
    pub deadline: Deadline,
    pub vus: Vec<HttpVu>,
}

/// What decides about iterations: a load curve before a number of iterations
/// before the time.
pub open spec fn pace_of(iterations: Option<u64>, staged: bool) -> Pace {
    if staged {
        Pace::Curve
    } else if iterations is Some {
        Pace::Count
    } else {
        Pace::Clock
    }
}

/// A virtual user at the start. Only where the time decides they start one
/// after the other.
pub open spec fn fresh_vu(
    index: u32,
    iterations: Option<u64>,
    staged: bool,
    http2: bool,
    limited: bool,
) -> VuView {
    VuView {
        index,
        pace: pace_of(iterations, staged),
        pooled: http2,
        limited,
        phase: if iterations is None && !staged {
            Phase::Ramping
        } else {
            Phase::Starting
        },
        vars: Map::empty(),
    }
}

/// Whether a run is one of so many virtual users on this work.
pub open spec fn is_run(
    run: HttpRun,
    vu_count: u32,
    base_url: Seq<char>,
    duration_secs: u64,
    iterations: Option<u64>,
    staged: bool,
    insecure: bool,
    http2: bool,
    limited: bool,
) -> bool {
    &&& run.base_url@ == base_url
    &&& run.insecure == insecure
    &&& run.pool is Some <==> http2
    &&& run.pool matches Some(pool) ==> pool.wf() && pool.is_new(base_url, insecure)
    &&& run.remaining == iterations
    &&& run.deadline == if staged {
        Deadline::Stages
    } else {
        Deadline::Secs(duration_secs)
    }
    &&& run.vus@.len() == vu_count
    &&& forall|i: int|
        0 <= i < vu_count ==> (#[trigger] run.vus@[i])@ == fresh_vu(
            i as u32,
            iterations,
            staged,
            http2,
            limited,
        )
}

/// The run of virtual users on this work.
fn spawn_vus(
    vu_count: u32,
    base_url: &str,
    work: Work,
    duration_secs: u64,
    iterations: Option<u64>,
    staged: bool,
    insecure: bool,
    http2: bool,
    limited: bool,
) -> (run: HttpRun)
    ensures
        run.work == work,
        is_run(
            run,
            vu_count,
            base_url@,
            duration_secs,
            iterations,
            staged,
            insecure,
            http2,
            limited,
        ),
{
    let pool: Option<H2Pool> = if http2 {
        Some(H2Pool::new(base_url, insecure))
    } else {
        None
    };
    let pace: Pace = if staged {
        Pace::Curve
    } else if iterations.is_some() {
        Pace::Count
    } else {
        Pace::Clock
    };
    let phase: Phase = if iterations.is_none() && !staged {
        Phase::Ramping
    } else {
        Phase::Starting
    };
    let mut vus: Vec<HttpVu> = Vec::new();
    for index in 0..vu_count
        invariant
            pace == pace_of(iterations, staged),
            phase == fresh_vu(0, iterations, staged, http2, limited).phase,
            vus@.len() == index,
            forall|i: int|
                0 <= i < index ==> (#[trigger] vus@[i])@ == fresh_vu(
                    i as u32,
                    iterations,
                    staged,
                    http2,
                    limited,
                ),
    {
        vus.push(HttpVu { index, pace, pooled: http2, limited, phase, vars: Vars::new() });
    }
    HttpRun {
        base_url: base_url.to_owned(),
        insecure,
        pool,
        work,
        remaining: iterations,
        deadline: if staged {
            Deadline::Stages
        } else {
            Deadline::Secs(duration_secs)
        },
        vus,
    }
}

/// The virtual users that send single requests.
pub fn spawn_endpoint_vus(
    vu_count: u32,
    base_url: &str,
    endpoints: &Vec<Endpoint>,
    duration_secs: u64,
    iterations: Option<u64>,
    staged: bool,
    insecure: bool,
    http2: bool,
    limited: bool,
) -> (run: HttpRun)
    requires
        weight_sum(endpoints_view(endpoints@)) <= u32::MAX,
    ensures
        is_run(
            run,
            vu_count,
            base_url@,
            duration_secs,
            iterations,
            staged,
            insecure,
            http2,
            limited,
        ),
        run.work matches Work::Endpoints(s) && {
            &&& requests_view(s.endpoints@) == endpoints_view(endpoints@).map_values(
                |e: EndpointView| endpoint_request(e),
            )
            &&& cumulates(s.cumulative@, endpoints_view(endpoints@))
            &&& s.total == weight_sum(endpoints_view(endpoints@))
        },
        weight_sum(endpoints_view(endpoints@)) >= 1 ==> run.work.wf(),
{
    spawn_vus(
        vu_count,
        base_url,
        Work::Endpoints(Selector::new(endpoints)),
        duration_secs,
        iterations,
        staged,
        insecure,
        http2,
        limited,
    )
}

/// The virtual users that run a flow.
pub fn spawn_flow_vus(
    vu_count: u32,
    base_url: &str,
    steps: &Vec<FlowStep>,
    duration_secs: u64,
    iterations: Option<u64>,
    staged: bool,
    insecure: bool,
    http2: bool,
    limited: bool,
) -> (run: HttpRun)
    ensures
        is_run(
            run,
            vu_count,
            base_url@,
            duration_secs,
            iterations,
            staged,
            insecure,
            http2,
            limited,
        ),
        run.work@ == (WorkView::Flow {
            steps: flow_view(steps@).map_values(|s: StepView| prepared(s)),
        }),
        run.work.wf(),
{
    spawn_vus(
        vu_count,
        base_url,
        Work::Flow(prepare_flow(steps)),
        duration_secs,
        iterations,
        staged,
        insecure,
        http2,
        limited,
    )
}

// ----------------------------------------------------------------------
// Laws
// ----------------------------------------------------------------------

/// The variables before a step of an iteration, given the replies to those
/// before it.
pub open spec fn vars_before(
    work: WorkView,
    vars: Map<Seq<char>, Seq<char>>,
    bodies: Seq<Option<Seq<u8>>>,
    i: int,
) -> Map<Seq<char>, Seq<char>>
    decreases i,
{
    if i <= 0 {
        vars
    } else {
        work.vars_after(i - 1, vars_before(work, vars, bodies, i - 1), bodies[i - 1])
    }
}

/// What follows an event, with the wait for a slot behind it where there is
/// one.
pub open spec fn past_the_slot(
    vu: VuView,
    work: WorkView,
    event: VuEventView,
    roll: u32,
) -> (VuView, VuActionView) {
    let (next, action) = vu.step(work, event, roll);
    if action is AskPermit {
        next.step(work, VuEventView::Resume, roll)
    } else {
        (next, action)
    }
}

/// The event that leads to a request of an iteration.
pub open spec fn event_before(
    first: VuEventView,
    replies: Seq<RequestResultView>,
    n: int,
) -> VuEventView {
    if n <= 0 {
        first
    } else {
        VuEventView::Responded(replies[n - 1])
    }
}

/// The state and the last action in an iteration after so many replies.
pub open spec fn after_replies(
    vu: VuView,
    work: WorkView,
    first: VuEventView,
    replies: Seq<RequestResultView>,
    rolls: Seq<u32>,
    n: int,
) -> (VuView, VuActionView)
    decreases n,
{
    let before = if n <= 0 {
        vu
    } else {
        after_replies(vu, work, first, replies, rolls, n - 1).0
    };
    past_the_slot(before, work, event_before(first, replies, n), rolls[n])
}

/// An iteration that is allowed to begin sends the requests of all steps in
/// order, each one rendered with the variables that the replies before it
/// have set, and asks for another iteration after the last reply. Where
/// requests are spaced out, one wait for a slot comes before each, and
/// otherwise none.
pub proof fn iteration_runs_all_steps_in_order(
    vu: VuView,
    work: WorkView,
    first: VuEventView,
    replies: Seq<RequestResultView>,
    rolls: Seq<u32>,
    n: int,
)
    requires
        vu.phase == Phase::Deciding,
        work.len() <= usize::MAX,
        first == VuEventView::Iteration(true) && vu.pace == Pace::Count || first
            == (VuEventView::Clock { before_deadline: true, active: true }) && vu.pace
            != Pace::Count,
        replies.len() == work.len(),
        0 <= n <= work.len(),
    ensures
        ({
            let bodies = replies.map_values(|r: RequestResultView| r.body);
            let vars = vars_before(work, vu.vars, bodies, n);
            let before = if n == 0 {
                vu
            } else {
                after_replies(vu, work, first, replies, rolls, n - 1).0
            };
            let asked = before.step(work, event_before(first, replies, n), rolls[n]);
            let (state, action) = after_replies(vu, work, first, replies, rolls, n);
            if n < work.len() {
                &&& state == (VuView { phase: Phase::Sending(n as usize), vars, ..vu })
                &&& action == VuActionView::Send(work.request(n, vars, rolls[n]))
                &&& vu.limited ==> asked == (
                    VuView { phase: Phase::Pacing(n as usize), vars, ..vu },
                    VuActionView::AskPermit,
                )
                &&& !vu.limited ==> asked == (state, action)
            } else {
                &&& state == (VuView { phase: Phase::Deciding, vars, ..vu })
                &&& action == question(vu.pace)
                &&& asked == (state, action)
            }
        }),
    decreases n,
{
    if n > 0 {
        iteration_runs_all_steps_in_order(vu, work, first, replies, rolls, n - 1);
    }
}

/// Where requests are spaced out, each one is sent only right after its
/// wait for a slot.
pub proof fn limited_requests_wait_for_their_slot(
    vu: VuView,
    work: WorkView,
    event: VuEventView,
    roll: u32,
)
    requires
        vu.limited,
        vu.step(work, event, roll).1 is Send,
    ensures
        vu.phase is Pacing,
        event == VuEventView::Resume,
{
}

/// Once the end has come, or no iteration is left, a virtual user sends
/// nothing more and stays at its end.
pub proof fn nothing_is_sent_after_the_end(
    vu: VuView,
    work: WorkView,
    event: VuEventView,
    roll: u32,
)
    ensures
        vu.phase == Phase::Deciding && (event == VuEventView::Iteration(false) || (event matches
            VuEventView::Clock { before_deadline, .. } && !before_deadline)) ==> vu.step(
            work,
            event,
            roll,
        ) == vu.stop(),
        vu.phase == Phase::Done ==> vu.step(work, event, roll) == (vu, VuActionView::Stop),
{
}

/// Where the number of iterations decides, each request belongs to an
/// iteration that was taken: a virtual user comes to the first request of an
/// iteration only once one has been taken, and to each later one only with
/// the reply to the one before it. With the wait for a slot it stays at the
/// same request.
pub proof fn requests_belong_to_iterations(
    vu: VuView,
    work: WorkView,
    event: VuEventView,
    roll: u32,
    i: usize,
)
    requires
        vu.pace == Pace::Count,
        work.len() <= usize::MAX,
        ({
            let next = vu.step(work, event, roll).0.phase;
            next == Phase::Sending(i) || next == Phase::Pacing(i)
        }),
    ensures
        vu.phase == Phase::Pacing(i) || if i == 0 {
            vu.phase == Phase::Deciding && event == VuEventView::Iteration(true)
        } else {
            vu.phase == Phase::Sending((i - 1) as usize) && event is Responded
        },
{
}

/// One virtual user of a run learns something.
pub struct Turn {
    pub vu: int,
    pub event: VuEventView,
    pub roll: u32,
    pub at_secs: u64,
}

/// A run of virtual users that share a number of iterations.
pub struct RunView {
    pub vus: Seq<VuView>,
    pub remaining: u64,
    pub metrics: MetricsView,
}

impl RunView {
    /// Whether a turn answers what its virtual user has asked for. To the
    /// question for an iteration the answer is whether one remains.
    pub open spec fn is_answer(self, turn: Turn) -> bool {
        &&& 0 <= turn.vu < self.vus.len()
        &&& match self.vus[turn.vu].phase {
            Phase::Deciding => turn.event == VuEventView::Iteration(self.remaining > 0),
            Phase::Sending(_) => turn.event is Responded,
            Phase::Done => false,
            _ => turn.event == VuEventView::Resume,
        }
    }

    /// The run after a turn.
    pub open spec fn after(self, work: WorkView, turn: Turn) -> RunView {
        let vu = self.vus[turn.vu];
        RunView {
            vus: self.vus.update(turn.vu, vu.step(work, turn.event, turn.roll).0),
            remaining: if vu.phase == Phase::Deciding {
                after_attempt(self.remaining)
            } else {
                self.remaining
            },
            metrics: vu.recorded(work, turn.event, self.metrics, turn.at_secs),
        }
    }

    /// Whether all virtual users have ended.
    pub open spec fn has_ended(self) -> bool {
        forall|i: int| 0 <= i < self.vus.len() ==> (#[trigger] self.vus[i]).phase == Phase::Done
    }
}

/// The run after these turns.
pub open spec fn after_turns(start: RunView, work: WorkView, turns: Seq<Turn>) -> RunView
    decreases turns.len(),
{
    if turns.len() == 0 {
        start
    } else {
        after_turns(start, work, turns.drop_last()).after(work, turns.last())
    }
}

/// Whether each of these turns answers what its virtual user has asked for.
pub open spec fn are_answers(start: RunView, work: WorkView, turns: Seq<Turn>) -> bool
    decreases turns.len(),
{
    turns.len() > 0 ==> {
        &&& are_answers(start, work, turns.drop_last())
        &&& after_turns(start, work, turns.drop_last()).is_answer(turns.last())
    }
}

/// A run at its start, with nothing recorded.
pub open spec fn at_start(run: HttpRun, duration_secs: u64) -> RunView {
    RunView {
        vus: Seq::new(run.vus@.len(), |i: int| run.vus@[i]@),
        remaining: match run.remaining {
            Some(n) => n,
            None => 0,
        },
        metrics: fresh_metrics(duration_secs),
    }
}

/// The requests of its iteration that a virtual user has yet to get a reply
/// to.
pub open spec fn owed(vu: VuView, work: WorkView) -> int {
    match vu.phase {
        Phase::Pacing(i) => work.len() - i,
        Phase::Sending(i) => work.len() - i,
        _ => 0,
    }
}

/// The requests that all virtual users have yet to get a reply to.
pub open spec fn owed_by_all(vus: Seq<VuView>, work: WorkView) -> int
    decreases vus.len(),
{
    if vus.len() == 0 {
        0
    } else {
        owed_by_all(vus.drop_last(), work) + owed(vus.last(), work)
    }
}

proof fn owed_after_update(vus: Seq<VuView>, work: WorkView, i: int, vu: VuView)
    requires
        0 <= i < vus.len(),
    ensures
        owed_by_all(vus.update(i, vu), work) == owed_by_all(vus, work) - owed(vus[i], work) + owed(
            vu,
            work,
        ),
    decreases vus.len(),
{
    let rest = vus.drop_last();
    if i == vus.len() - 1 {
        assert(vus.update(i, vu).drop_last() =~= rest);
    } else {
        assert(vus.update(i, vu).drop_last() =~= rest.update(i, vu));
        owed_after_update(rest, work, i, vu);
    }
}

proof fn nothing_is_owed(vus: Seq<VuView>, work: WorkView)
    requires
        forall|i: int| 0 <= i < vus.len() ==> owed(#[trigger] vus[i], work) == 0,
    ensures
        owed_by_all(vus, work) == 0,
    decreases vus.len(),
{
    if vus.len() > 0 {
        let rest = vus.drop_last();
        assert(owed(vus[vus.len() - 1], work) == 0);
        assert forall|i: int| 0 <= i < rest.len() implies owed(#[trigger] rest[i], work) == 0 by {
            assert(rest[i] == vus[i]);
        }
        nothing_is_owed(rest, work);
    }
}

/// At any moment of a run by a number of iterations the requests that were
/// recorded, those still owed in iterations that have begun and those of the
/// iterations that remain are all the requests of that number of iterations.
/// The count of requests starts over past the largest number. No virtual user
/// ends while an iteration remains.
pub proof fn iterations_are_accounted_for(start: RunView, work: WorkView, n: u64, turns: Seq<Turn>)
    requires
        work.len() <= usize::MAX,
        start.remaining == n,
        start.metrics.total == 0,
        forall|i: int| #![trigger start.vus[i]]
            0 <= i < start.vus.len() ==> start.vus[i].pace == Pace::Count && start.vus[i].phase
                == Phase::Starting,
        are_answers(start, work, turns),
    ensures
        ({
            let run = after_turns(start, work, turns);
            &&& run.vus.len() == start.vus.len()
            &&& run.metrics.total == (n * work.len() - owed_by_all(run.vus, work) - run.remaining
                * work.len()) % 0x1_0000_0000_0000_0000
            &&& forall|i: int| #![trigger run.vus[i]]
                0 <= i < run.vus.len() ==> {
                    &&& run.vus[i].pace == Pace::Count
                    &&& run.vus[i].phase matches Phase::Pacing(k) ==> k < work.len()
                    &&& run.vus[i].phase matches Phase::Sending(k) ==> k < work.len()
                    &&& run.vus[i].phase == Phase::Done ==> run.remaining == 0
                }
        }),
    decreases turns.len(),
{
    let len = work.len() as int;
    if turns.len() == 0 {
        assert forall|i: int| 0 <= i < start.vus.len() implies owed(#[trigger] start.vus[i], work)
            == 0 by {}
        nothing_is_owed(start.vus, work);
    } else {
        let before = after_turns(start, work, turns.drop_last());
        let run = after_turns(start, work, turns);
        let t = turns.last();
        iterations_are_accounted_for(start, work, n, turns.drop_last());
        let vu = before.vus[t.vu];
        let next = vu.step(work, t.event, t.roll).0;
        owed_after_update(before.vus, work, t.vu, next);
        if vu.phase == Phase::Deciding && before.remaining > 0 {
            let r = before.remaining as int;
            assert((r - 1) * len == r * len - len) by (nonlinear_arith);
            assert(owed(next, work) == len);
        } else if let Phase::Sending(k) = vu.phase {
            let left = n * work.len() - owed_by_all(before.vus, work) - before.remaining
                * work.len();
            assert(owed(next, work) == len - k - 1);
            assert(run.metrics.total == (left + 1) % 0x1_0000_0000_0000_0000);
        }
    }
}

/// A run by a number of iterations takes exactly so many, whoever runs them:
/// once all virtual users have ended, each request of each iteration has been
/// recorded once. The count starts over past the largest number.
pub proof fn run_takes_its_iterations(
    run: HttpRun,
    vu_count: u32,
    base_url: Seq<char>,
    duration_secs: u64,
    n: u64,
    insecure: bool,
    http2: bool,
    limited: bool,
    turns: Seq<Turn>,
)
    requires
        vu_count >= 1,
        is_run(run, vu_count, base_url, duration_secs, Some(n), false, insecure, http2, limited),
        are_answers(at_start(run, duration_secs), run.work@, turns),
        after_turns(at_start(run, duration_secs), run.work@, turns).has_ended(),
    ensures
        ({
            let end = after_turns(at_start(run, duration_secs), run.work@, turns);
            &&& end.remaining == 0
            &&& end.metrics.total == (n * run.work@.len()) % 0x1_0000_0000_0000_0000
            &&& n * run.work@.len() <= u64::MAX ==> end.metrics.total == n * run.work@.len()
        }),
{
    let start = at_start(run, duration_secs);
    let work = run.work@;
    let end = after_turns(start, work, turns);
    if let Work::Flow(steps) = run.work {
        assert(steps@.len() == steps.len());
    }
    assert forall|i: int| #![trigger start.vus[i]]
        0 <= i < start.vus.len() implies start.vus[i].pace == Pace::Count && start.vus[i].phase
        == Phase::Starting by {
        assert(run.vus@[i]@ == fresh_vu(i as u32, Some(n), false, http2, limited));
    }
    iterations_are_accounted_for(start, work, n, turns);
    assert(end.vus[0].phase == Phase::Done);
    assert forall|i: int| 0 <= i < end.vus.len() implies owed(#[trigger] end.vus[i], work) == 0 by {
        assert(end.vus[i].phase == Phase::Done);
    }
    nothing_is_owed(end.vus, work);
    assert(0 * work.len() == 0);
    assert(n * work.len() >= 0) by (nonlinear_arith);
}

/// The failures of a run are those counted under the status 0, as long as a
/// request fails exactly if it has that status in the end.
pub proof fn run_failures_have_the_status_0(start: RunView, work: WorkView, turns: Seq<Turn>)
    requires
        start.metrics.failed == count_in(start.metrics.status_codes, 0, 0),
        forall|i: int| #![trigger turns[i]]
            0 <= i < turns.len() ==> (turns[i].event matches VuEventView::Responded(r)
                ==> r.is_success == (r.status != 0)),
    ensures
        ({
            let m = after_turns(start, work, turns).metrics;
            m.failed == count_in(m.status_codes, 0, 0)
        }),
    decreases turns.len(),
{
    if turns.len() > 0 {
        let rest = turns.drop_last();
        assert forall|i: int| #![trigger rest[i]]
            0 <= i < rest.len() implies (rest[i].event matches VuEventView::Responded(r)
            ==> r.is_success == (r.status != 0)) by {
            assert(rest[i] == turns[i]);
        }
        run_failures_have_the_status_0(start, work, rest);
        assert(turns.last() == turns[turns.len() - 1]);
    }
}

/// What these turns record, in order: a request and the assertions on its
/// reply.
pub open spec fn requests_recorded(start: RunView, work: WorkView, turns: Seq<Turn>) -> Seq<
    Recorded,
>
    decreases turns.len(),
{
    if turns.len() == 0 {
        seq![]
    } else {
        let before = requests_recorded(start, work, turns.drop_last());
        let t = turns.last();
        match (after_turns(start, work, turns.drop_last()).vus[t.vu].phase, t.event) {
            (Phase::Sending(i), VuEventView::Responded(r)) => if i < work.len() {
                before.push(
                    Recorded::Request {
                        at_secs: t.at_secs,
                        latency_us: r.latency_us,
                        status: r.status,
                        bytes: r.bytes,
                        is_success: r.is_success,
                        error: r.error,
                    },
                ).push(Recorded::Checks { passed: r.check_passed, failures: r.check_failures })
            } else {
                before
            },
            _ => before,
        }
    }
}

/// The metrics of a run are those of what its turns record.
pub proof fn requests_are_recorded(
    start: RunView,
    duration_secs: u64,
    work: WorkView,
    turns: Seq<Turn>,
)
    requires
        start.metrics == fresh_metrics(duration_secs),
    ensures
        after_turns(start, work, turns).metrics == after_all(
            duration_secs,
            requests_recorded(start, work, turns),
        ),
        requests_recorded(start, work, turns).len() <= 2 * turns.len(),
    decreases turns.len(),
{
    if turns.len() > 0 {
        requests_are_recorded(start, duration_secs, work, turns.drop_last());
        let before = requests_recorded(start, work, turns.drop_last());
        let t = turns.last();
        match (after_turns(start, work, turns.drop_last()).vus[t.vu].phase, t.event) {
            (Phase::Sending(i), VuEventView::Responded(r)) => {
                if i < work.len() {
                    let all = requests_recorded(start, work, turns);
                    let one = before.push(all[all.len() - 2]);
                    assert(all.drop_last() =~= one);
                    assert(one.drop_last() =~= before);
                    assert(after_all(duration_secs, one) == after_one(
                        after_all(duration_secs, before),
                        one.last(),
                    ));
                }
            },
            _ => {},
        }
    }
}

/// Where a request fails exactly if it has an error, and exactly if it has
/// the status 0 in the end, so it is with what a run records.
proof fn recorded_errors_have_the_status_0(start: RunView, work: WorkView, turns: Seq<Turn>)
    requires
        forall|i: int| #![trigger turns[i]]
            0 <= i < turns.len() ==> (turns[i].event matches VuEventView::Responded(r) ==> {
                &&& r.is_success == (r.status != 0)
                &&& r.is_success == (r.error is None)
            }),
    ensures
        ({
            let all = requests_recorded(start, work, turns);
            forall|i: int| #![trigger all[i]]
                0 <= i < all.len() ==> match all[i] {
                    Recorded::Request { status, is_success, error, .. } => is_success == (status
                        != 0) && is_success == (error is None),
                    Recorded::Checks { .. } => true,
                    _ => false,
                }
        }),
    decreases turns.len(),
{
    if turns.len() > 0 {
        let rest = turns.drop_last();
        assert forall|i: int| #![trigger rest[i]]
            0 <= i < rest.len() implies (rest[i].event matches VuEventView::Responded(r) ==> {
            &&& r.is_success == (r.status != 0)
            &&& r.is_success == (r.error is None)
        }) by {
            assert(rest[i] == turns[i]);
        }
        recorded_errors_have_the_status_0(start, work, rest);
        assert(turns.last() == turns[turns.len() - 1]);
    }
}

/// The counts of the error categories of a run add up to its failures, which
/// are those counted under the status 0, as long as a request fails exactly if
/// it has an error and exactly if it has that status in the end.
pub proof fn run_errors_add_up(
    start: RunView,
    duration_secs: u64,
    work: WorkView,
    turns: Seq<Turn>,
)
    requires
        start.metrics == fresh_metrics(duration_secs),
        2 * turns.len() <= u64::MAX,
        forall|i: int| #![trigger turns[i]]
            0 <= i < turns.len() ==> (turns[i].event matches VuEventView::Responded(r) ==> {
                &&& r.is_success == (r.status != 0)
                &&& r.is_success == (r.error is None)
            }),
    ensures
        ({
            let m = after_turns(start, work, turns).metrics;
            &&& all_errors(m.errors) == count_in(m.status_codes, 0, 0)
            &&& all_errors(m.errors) == m.failed
        }),
{
    let all = requests_recorded(start, work, turns);
    requests_are_recorded(start, duration_secs, work, turns);
    recorded_errors_have_the_status_0(start, work, turns);
    every_error_is_counted(duration_secs, all);
    counts_are_exact(duration_secs, all, 0, 0, ConnError::Other);
    failures_have_the_status_0(duration_secs, all);
    assert forall|i: int| 0 <= i < all.len() implies has_some_error()(#[trigger] all[i])
        == has_status(0)(all[i]) by {}
    how_many_is_same(all, has_some_error(), has_status(0));
}

/// The turns of one virtual user.
pub open spec fn own_turns(turns: Seq<Turn>, vu: int) -> Seq<Turn>
    decreases turns.len(),
{
    if turns.len() == 0 {
        seq![]
    } else {
        let before = own_turns(turns.drop_last(), vu);
        if turns.last().vu == vu {
            before.push(turns.last())
        } else {
            before
        }
    }
}

/// The requests that one virtual user sends in these turns, in order.
pub open spec fn requests_sent(start: RunView, work: WorkView, turns: Seq<Turn>, vu: int) -> Seq<
    RequestView,
>
    decreases turns.len(),
{
    if turns.len() == 0 {
        seq![]
    } else {
        let before = requests_sent(start, work, turns.drop_last(), vu);
        let t = turns.last();
        if t.vu == vu {
            match after_turns(start, work, turns.drop_last()).vus[vu].step(
                work,
                t.event,
                t.roll,
            ).1 {
                VuActionView::Send(request) => before.push(request),
                _ => before,
            }
        } else {
            before
        }
    }
}

/// Whether two virtual users learn the same, as far as their requests go: of
/// a reply the body alone matters.
pub open spec fn learn_alike(a: VuEventView, b: VuEventView) -> bool {
    match (a, b) {
        (VuEventView::Responded(r), VuEventView::Responded(s)) => r.body == s.body,
        _ => a == b,
    }
}

/// A virtual user comes to the same state alone as it does among others.
proof fn others_do_not_matter(start: RunView, work: WorkView, turns: Seq<Turn>, vu: int)
    requires
        0 <= vu < start.vus.len(),
        forall|i: int| 0 <= i < turns.len() ==> 0 <= (#[trigger] turns[i]).vu < start.vus.len(),
    ensures
        ({
            let own = own_turns(turns, vu);
            &&& after_turns(start, work, turns).vus.len() == start.vus.len()
            &&& after_turns(start, work, own).vus.len() == start.vus.len()
            &&& after_turns(start, work, turns).vus[vu] == after_turns(start, work, own).vus[vu]
            &&& requests_sent(start, work, turns, vu) == requests_sent(start, work, own, vu)
        }),
    decreases turns.len(),
{
    if turns.len() > 0 {
        let rest = turns.drop_last();
        assert forall|i: int| 0 <= i < rest.len() implies 0 <= (#[trigger] rest[i]).vu
            < start.vus.len() by {
            assert(rest[i] == turns[i]);
        }
        assert(turns.last() == turns[turns.len() - 1]);
        others_do_not_matter(start, work, rest, vu);
        if turns.last().vu == vu {
            let own = own_turns(rest, vu).push(turns.last());
            assert(own.drop_last() =~= own_turns(rest, vu));
            assert(own.last() == turns.last());
        }
    }
}

/// A virtual user that learns the same in two runs sends the same, if it has
/// all turns of both to itself.
proof fn same_replies_same_requests(
    a: RunView,
    b: RunView,
    work: WorkView,
    x: Seq<Turn>,
    y: Seq<Turn>,
    vu: int,
)
    requires
        work is Flow,
        0 <= vu < a.vus.len(),
        0 <= vu < b.vus.len(),
        a.vus[vu] == b.vus[vu],
        x.len() == y.len(),
        forall|i: int| #![trigger x[i]]
            0 <= i < x.len() ==> x[i].vu == vu && y[i].vu == vu && learn_alike(
                x[i].event,
                y[i].event,
            ),
    ensures
        after_turns(a, work, x).vus.len() == a.vus.len(),
        after_turns(b, work, y).vus.len() == b.vus.len(),
        after_turns(a, work, x).vus[vu] == after_turns(b, work, y).vus[vu],
        requests_sent(a, work, x, vu) == requests_sent(b, work, y, vu),
    decreases x.len(),
{
    if x.len() > 0 {
        let n = x.len() - 1;
        assert(x[n].vu == vu);
        assert forall|i: int| #![trigger x.drop_last()[i]] 0 <= i < n implies x.drop_last()[i].vu
            == vu && y.drop_last()[i].vu == vu && learn_alike(
            x.drop_last()[i].event,
            y.drop_last()[i].event,
        ) by {
            assert(x.drop_last()[i] == x[i]);
        }
        same_replies_same_requests(a, b, work, x.drop_last(), y.drop_last(), vu);
    }
}

/// Variables are local to a virtual user: in two runs of one flow a virtual
/// user that starts out the same and learns the same sends the same requests
/// and ends up in the same state, whatever the others do in between. Of a
/// reply its body alone matters.
pub proof fn variables_are_local(
    a: RunView,
    b: RunView,
    work: WorkView,
    x: Seq<Turn>,
    y: Seq<Turn>,
    vu: int,
)
    requires
        work is Flow,
        0 <= vu < a.vus.len(),
        0 <= vu < b.vus.len(),
        a.vus[vu] == b.vus[vu],
        forall|i: int| 0 <= i < x.len() ==> 0 <= (#[trigger] x[i]).vu < a.vus.len(),
        forall|i: int| 0 <= i < y.len() ==> 0 <= (#[trigger] y[i]).vu < b.vus.len(),
        own_turns(x, vu).len() == own_turns(y, vu).len(),
        forall|i: int|
            0 <= i < own_turns(x, vu).len() ==> learn_alike(
                (#[trigger] own_turns(x, vu)[i]).event,
                own_turns(y, vu)[i].event,
            ),
    ensures
        requests_sent(a, work, x, vu) == requests_sent(b, work, y, vu),
        after_turns(a, work, x).vus[vu] == after_turns(b, work, y).vus[vu],
{
    others_do_not_matter(a, work, x, vu);
    others_do_not_matter(b, work, y, vu);
    own_turns_are_own(x, vu);
    own_turns_are_own(y, vu);
    let (p, q) = (own_turns(x, vu), own_turns(y, vu));
    assert forall|i: int| #![trigger p[i]] 0 <= i < p.len() implies p[i].vu == vu && q[i].vu == vu
        && learn_alike(p[i].event, q[i].event) by {
        assert(q[i].vu == vu);
    }
    same_replies_same_requests(a, b, work, p, q, vu);
}

proof fn own_turns_are_own(turns: Seq<Turn>, vu: int)
    ensures
        forall|i: int|
            0 <= i < own_turns(turns, vu).len() ==> (#[trigger] own_turns(turns, vu)[i]).vu == vu,
    decreases turns.len(),
{
    if turns.len() > 0 {
        own_turns_are_own(turns.drop_last(), vu);
    }
}

/// The request of an endpoint is what the endpoint holds. Its method stays as
/// it is where it is a token: at least one visible ASCII character and none of
/// the delimiters. Any other gives way to GET.
pub proof fn endpoint_is_sent_as_it_is(e: EndpointView)
    ensures
        ({
            let r = endpoint_request(e);
            &&& r.path == e.path
            &&& r.headers == e.headers
            &&& r.body == e.body
            &&& r.expect == e.expect
            &&& !r.capture_body
            &&& e.method.len() > 0 && (forall|i: int|
                0 <= i < e.method.len() ==> is_visible(#[trigger] e.method[i]) && !is_delimiter(
                    e.method[i],
                )) ==> r.method == e.method
            &&& e.method.len() == 0 || (exists|i: int|
                0 <= i < e.method.len() && (!is_visible(#[trigger] e.method[i]) || is_delimiter(
                    e.method[i],
                ))) ==> r.method == seq!['G', 'E', 'T']
        }),
{
    reveal_strlit("GET");
    assert("GET"@ =~= seq!['G', 'E', 'T']);
    assert forall|i: int| 0 <= i < e.method.len() implies (is_method_char(#[trigger] e.method[i])
        <==> is_visible(e.method[i]) && !is_delimiter(e.method[i])) by {
        token_characters(e.method[i]);
    }
}

proof fn token_characters(c: char)
    ensures
        is_method_char(c) <==> is_visible(c) && !is_delimiter(c),
{
    let n = c as u32;
    assert(is_visible(c) <==> 33 <= n <= 126);
    assert(is_delimiter(c) <==> n == 34 || n == 40 || n == 41 || n == 44 || n == 47 || n == 58 || n
        == 59 || n == 60 || n == 61 || n == 62 || n == 63 || n == 64 || n == 91 || n == 92 || n
        == 93 || n == 123 || n == 125);
    assert(is_method_char(c) <==> 48 <= n <= 57 || 65 <= n <= 90 || 97 <= n <= 122 || n == 33 || 35
        <= n <= 39 || n == 42 || n == 43 || n == 45 || n == 46 || n == 94 || n == 95 || n == 96 || n
        == 124 || n == 126);
}

/// Whether a character is one of ASCII that can be seen.
pub open spec fn is_visible(c: char) -> bool {
    33 <= c as u32 <= 126
}

/// Whether a character parts tokens.
pub open spec fn is_delimiter(c: char) -> bool {
    ||| c == '"' || c == '(' || c == ')' || c == ',' || c == '/' || c == ':' || c == ';'
    ||| c == '<' || c == '=' || c == '>' || c == '?' || c == '@' || c == '[' || c == '\\'
    ||| c == ']' || c == '{' || c == '}'
}

/// Each iteration of a flow makes the requests of its steps: with the step's
/// method and expectation, the names of its headers, and its path, the values
/// of its headers and its body with the variables' values in them; a body that
/// is no text is sent as an empty one. A reply's body is kept exactly where
/// something is to be taken out of it.
pub proof fn steps_are_sent_with_their_variables(
    step: StepView,
    vars: Map<Seq<char>, Seq<char>>,
    steps: Seq<StepView>,
    i: int,
    roll: u32,
    text: Seq<char>,
)
    requires
        0 <= i < steps.len(),
        steps[i] == prepared(step),
    ensures
        ({
            let r = WorkView::Flow { steps }.request(i, vars, roll);
            &&& r.method == endpoint_request(
                EndpointView {
                    method: step.method,
                    path: step.path,
                    weight: 1,
                    body: step.body,
                    headers: step.headers,
                    expect: step.expect,
                },
            ).method
            &&& r.path == substituted(step.path, vars)
            &&& r.headers.len() == step.headers.len()
            &&& forall|k: int|
                0 <= k < r.headers.len() ==> (#[trigger] r.headers[k]).0 == step.headers[k].0
                    && r.headers[k].1 == substituted(step.headers[k].1, vars)
            &&& step.body is None ==> r.body is None
            &&& step.body == Some(encode_utf8(text)) ==> r.body == Some(
                encode_utf8(substituted(text, vars)),
            )
            &&& step.body matches Some(b) ==> (!valid_utf8(b) ==> (r.body matches Some(sent)
                && sent.len() == 0))
            &&& r.expect == step.expect
            &&& r.capture_body <==> step.extracts.len() > 0
        }),
{
    encode_utf8_decode_utf8(text);
    encode_utf8_valid_utf8(text);
    plain_text_stays(seq![], vars);
}

/// A flow has a request for each of its steps, and the reply to one changes
/// the variables by what that step takes out of it. An iteration over endpoints
/// has one request, to the endpoint that was rolled, and changes no variables.
pub proof fn iterations_have_their_requests(
    steps: Seq<StepView>,
    requests: Seq<RequestView>,
    cumulative: Seq<u32>,
    i: int,
    vars: Map<Seq<char>, Seq<char>>,
    body: Seq<u8>,
    roll: u32,
)
    requires
        0 <= i < steps.len(),
    ensures
        ({
            let flow = WorkView::Flow { steps };
            let endpoints = WorkView::Endpoints { requests, cumulative };
            &&& flow.len() == steps.len()
            &&& flow.vars_after(i, vars, Some(body)) == if steps[i].extracts.len() > 0 {
                extracted_from(vars, body, steps[i].extracts)
            } else {
                vars
            }
            &&& flow.vars_after(i, vars, None) == vars
            &&& endpoints.len() == 1
            &&& endpoints.request(0, vars, roll) == requests[chosen(cumulative, roll)]
            &&& endpoints.vars_after(0, vars, Some(body)) == vars
        }),
{
}

/// A request gets the earliest slot that is neither before it asks nor less
/// than an interval after the slot of the request before it.
pub proof fn slots_come_as_soon_as_they_may(limiter: RateLimiter, first: u64, second: u64)
    requires
        slot(limiter, first) + limiter.interval_ns <= u64::MAX,
    ensures
        ({
            let a = slot(limiter, first);
            let b = slot(after_slot(limiter, first), second);
            &&& a >= first
            &&& a >= limiter.next_ns
            &&& a == first || a == limiter.next_ns
            &&& b >= second
            &&& b >= a + limiter.interval_ns
            &&& b == second || b == a + limiter.interval_ns
            &&& after_slot(limiter, first).interval_ns == limiter.interval_ns
        }),
{
}

/// Virtual users start one after the other only where the time alone decides:
/// there each waits for its share of the ramp-up first. Then each gets a
/// connection of its own, unless all share a pool, and asks whether it may
/// begin: for one of the iterations where their number decides, and for the
/// time otherwise.
pub proof fn users_start_in_order(
    index: u32,
    iterations: Option<u64>,
    staged: bool,
    http2: bool,
    limited: bool,
    work: WorkView,
    roll: u32,
)
    ensures
        ({
            let vu = fresh_vu(index, iterations, staged, http2, limited);
            let (a, first) = vu.step(work, VuEventView::Resume, roll);
            let (b, second) = a.step(work, VuEventView::Resume, roll);
            let (_, third) = b.step(work, VuEventView::Resume, roll);
            let asks = if iterations is Some && !staged {
                VuActionView::TakeIteration
            } else {
                VuActionView::AskClock
            };
            &&& vu.index == index
            &&& vu.limited == limited
            &&& if iterations is None && !staged {
                &&& first == VuActionView::RampUp
                &&& http2 ==> second == asks
                &&& !http2 ==> second == VuActionView::Open && third == asks
            } else {
                &&& http2 ==> first == asks
                &&& !http2 ==> first == VuActionView::Open && second == asks
            }
        }),
{
}

/// Between iterations a virtual user goes on exactly if it may. By the time: as
/// long as the end is ahead. By the load curve: as long as the end is ahead and
/// it is active; while it is not, it rests and asks again. By a number of
/// iterations: if it got one. Otherwise it stops.
pub proof fn users_go_on_while_they_may(
    vu: VuView,
    work: WorkView,
    ahead: bool,
    active: bool,
    roll: u32,
)
    requires
        vu.phase == Phase::Deciding,
        !vu.limited,
        0 < work.len() <= usize::MAX,
    ensures
        ({
            let (next, action) = vu.step(
                work,
                VuEventView::Clock { before_deadline: ahead, active },
                roll,
            );
            let (_, taken) = vu.step(work, VuEventView::Iteration(true), roll);
            let (_, refused) = vu.step(work, VuEventView::Iteration(false), roll);
            let sends = VuActionView::Send(work.request(0, vu.vars, roll));
            &&& vu.pace == Pace::Clock && ahead ==> action == sends
            &&& vu.pace == Pace::Curve && ahead && active ==> action == sends
            &&& vu.pace == Pace::Curve && ahead && !active ==> action == VuActionView::Rest
                && next.step(work, VuEventView::Resume, roll) == (vu, VuActionView::AskClock)
            &&& !ahead ==> action == VuActionView::Stop && next.phase == Phase::Done
            &&& vu.pace == Pace::Count ==> taken == sends
            &&& refused == VuActionView::Stop
        }),
{
}

/// A reply is recorded once, when it comes, with all that it says; nothing else
/// is recorded.
pub proof fn replies_are_recorded_once(
    vu: VuView,
    work: WorkView,
    r: RequestResultView,
    i: usize,
    m: MetricsView,
    at_secs: u64,
)
    requires
        i < work.len(),
    ensures
        ({
            let waiting = VuView { phase: Phase::Sending(i), ..vu };
            let one = Recorded::Request {
                at_secs,
                latency_us: r.latency_us,
                status: r.status,
                bytes: r.bytes,
                is_success: r.is_success,
                error: r.error,
            };
            let two = Recorded::Checks { passed: r.check_passed, failures: r.check_failures };
            &&& waiting.recorded(work, VuEventView::Responded(r), m, at_secs) == after_one(
                after_one(m, one),
                two,
            )
            &&& vu.recorded(work, VuEventView::Resume, m, at_secs) == m
            &&& !(vu.phase is Sending) ==> vu.recorded(
                work,
                VuEventView::Responded(r),
                m,
                at_secs,
            ) == m
        }),
{
}

/// A run has the virtual users, the target, the connections and the end that
/// it was asked for.
pub proof fn runs_are_as_asked(
    run: HttpRun,
    vu_count: u32,
    base_url: Seq<char>,
    duration_secs: u64,
    iterations: Option<u64>,
    staged: bool,
    insecure: bool,
    http2: bool,
    limited: bool,
    i: int,
)
    requires
        is_run(
            run,
            vu_count,
            base_url,
            duration_secs,
            iterations,
            staged,
            insecure,
            http2,
            limited,
        ),
        0 <= i < vu_count,
    ensures
        run.vus@.len() == vu_count,
        run.base_url@ == base_url,
        run.insecure == insecure,
        run.remaining == iterations,
        run.deadline == if staged {
            Deadline::Stages
        } else {
            Deadline::Secs(duration_secs)
        },
        http2 <==> run.pool is Some,
        run.pool matches Some(pool) ==> pool.slots@.len() == 8 && (forall|k: int|
            0 <= k < 8 ==> !#[trigger] pool.slots@[k]) && pool.target() == base_address(
            base_url,
            insecure,
            true,
        ),
        run.vus@[i]@.index == i,
        run.vus@[i]@.limited == limited,
        run.vus@[i]@.pooled == http2,
        run.vus@[i]@.pace == Pace::Curve <==> staged,
        run.vus@[i]@.pace == Pace::Count <==> iterations is Some && !staged,
        forall|name: Seq<char>| !#[trigger] run.vus@[i]@.vars.contains_key(name),
{
}

}

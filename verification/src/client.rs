//! Requests and replies: what is sent to which address, what a reply is
//! checked against, how failures are sorted, and when connections are opened.

use bytes::Bytes;
use http::Request as HttpRequest;
use http_body_util::Full;
use vstd::prelude::*;
use vstd::slice::slice_subrange;

use crate::json::{
    json_parse, json_text, keys_ascend, member, members_view, parse, Json, JsonView,
};
use crate::text::{
    chars_of, contains_text, decimal, decimal_is_digits, decimal_reads_back, decimal_text,
    find_char, find_first, find_from_is_first, find_last, find_last_before, find_last_char,
    from_utf8_lossy, parse_unsigned, push_chars, push_decimal, read_unsigned, stands_at,
    starts_with, str_contains, string_of, text_less, text_order_is_total, trim_end_char,
    utf8_lossy, without_trailing,
};

verus! {

broadcast use vstd::string::group_string_axioms;

/// Number of HTTP/2 connections in the shared pool.
pub const H2_POOL_SIZE: usize = 8;

// ----------------------------------------------------------------------
// Plain data
// ----------------------------------------------------------------------

/// What an optional string holds.
pub open spec fn text_view(text: Option<String>) -> Option<Seq<char>> {
    match text {
        Some(t) => Some(t@),
        None => None,
    }
}

/// What an optional byte string holds.
pub open spec fn bytes_view(bytes: Option<Vec<u8>>) -> Option<Seq<u8>> {
    match bytes {
        Some(b) => Some(b@),
        None => None,
    }
}

/// What a list of pairs of strings holds.
pub open spec fn pairs_view(pairs: Seq<(String, String)>) -> Seq<(Seq<char>, Seq<char>)> {
    Seq::new(pairs.len(), |i: int| (pairs[i].0@, pairs[i].1@))
}

/// An equal optional byte string.
pub fn copy_bytes(bytes: &Option<Vec<u8>>) -> (r: Option<Vec<u8>>)
    ensures
        bytes_view(r) == bytes_view(*bytes),
{
    match bytes {
        Some(b) => {
            let copy: Vec<u8> = vstd::slice::slice_to_vec(b.as_slice());
            Some(copy)
        },
        None => None,
    }
}

/// Equal pairs of strings.
pub fn copy_pairs(pairs: &Vec<(String, String)>) -> (r: Vec<(String, String)>)
    ensures
        pairs_view(r@) == pairs_view(pairs@),
{
    let mut r: Vec<(String, String)> = Vec::new();
    for i in 0..pairs.len()
        invariant
            r@.len() == i,
            forall|j: int|
                0 <= j < i ==> (#[trigger] r@[j]).0@ == pairs@[j].0@ && r@[j].1@ == pairs@[j].1@,
    {
        r.push((pairs[i].0.clone(), pairs[i].1.clone()));
    }
    assert(pairs_view(r@) =~= pairs_view(pairs@));
    r
}

/// What a reply is expected to be.
#[derive(Debug)]
pub struct ExpectSpec {
    pub status: Option<u16>,
    pub body_contains: Option<String>,
    pub json: Option<Json>,
}

/// What an `ExpectSpec` holds.
pub struct ExpectView {
    pub status: Option<u16>,
    pub body_contains: Option<Seq<char>>,
    pub json: Option<JsonView>,
}

impl ExpectView {
    /// Whether the expected JSON is a JSON value.
    pub open spec fn wf(self) -> bool {
        self.json matches Some(j) ==> j.wf()
    }

    /// Whether nothing is expected.
    pub open spec fn nothing(self) -> bool {
        self.status is None && self.body_contains is None && self.json is None
    }
}

impl View for ExpectSpec {
    type V = ExpectView;

    open spec fn view(&self) -> ExpectView {
        ExpectView {
            status: self.status,
            body_contains: text_view(self.body_contains),
            json: match self.json {
                Some(j) => Some(j@),
                None => None,
            },
        }
    }
}

/// What an optional expectation holds.
pub open spec fn expect_view(expect: Option<ExpectSpec>) -> Option<ExpectView> {
    match expect {
        Some(e) => Some(e@),
        None => None,
    }
}

/// Whether an optional expectation is one.
pub open spec fn expect_wf(expect: Option<ExpectView>) -> bool {
    expect matches Some(e) ==> e.wf()
}

impl ExpectSpec {
    /// Whether nothing is expected.
    pub fn is_empty(&self) -> (empty: bool)
        ensures
            empty == self@.nothing(),
    {
        self.status.is_none() && self.body_contains.is_none() && self.json.is_none()
    }

    /// An equal expectation.
    pub fn copy(&self) -> (r: ExpectSpec)
        ensures
            r@ == self@,
    {
        ExpectSpec {
            status: self.status,
            body_contains: match &self.body_contains {
                Some(t) => Some(t.clone()),
                None => None,
            },
            json: match &self.json {
                Some(j) => Some(j.copy()),
                None => None,
            },
        }
    }
}

/// An equal optional expectation.
pub fn copy_expect(expect: &Option<ExpectSpec>) -> (r: Option<ExpectSpec>)
    ensures
        expect_view(r) == expect_view(*expect),
{
    match expect {
        Some(e) => Some(e.copy()),
        None => None,
    }
}

/// A single failed assertion, kept for troubleshooting.
#[derive(Debug)]
pub struct CheckFailure {
    pub method: String,
    pub path: String,
    pub check: String,
    pub expected: String,
    pub actual: String,
}

/// What a `CheckFailure` holds.
pub struct CheckFailureView {
    pub method: Seq<char>,
    pub path: Seq<char>,
    pub check: Seq<char>,
    pub expected: Seq<char>,
    pub actual: Seq<char>,
}

impl View for CheckFailure {
    type V = CheckFailureView;

    open spec fn view(&self) -> CheckFailureView {
        CheckFailureView {
            method: self.method@,
            path: self.path@,
            check: self.check@,
            expected: self.expected@,
            actual: self.actual@,
        }
    }
}

impl Clone for CheckFailure {
    fn clone(&self) -> (r: CheckFailure)
        ensures
            r@ == self@,
    {
        CheckFailure {
            method: self.method.clone(),
            path: self.path.clone(),
            check: self.check.clone(),
            expected: self.expected.clone(),
            actual: self.actual.clone(),
        }
    }
}

/// What a list of failed assertions holds.
pub open spec fn failures_view(failures: Seq<CheckFailure>) -> Seq<CheckFailureView> {
    Seq::new(failures.len(), |i: int| failures[i]@)
}

/// A concrete request.
#[derive(Debug)]
pub struct Request {
    pub method: String,
    pub path: String,
    pub headers: Vec<(String, String)>,
    pub body: Option<Vec<u8>>,
    pub capture_body: bool,
    pub expect: Option<ExpectSpec>,
}

/// What a `Request` holds.
pub struct RequestView {
    pub method: Seq<char>,
    pub path: Seq<char>,
    pub headers: Seq<(Seq<char>, Seq<char>)>,
    pub body: Option<Seq<u8>>,
    pub capture_body: bool,
    pub expect: Option<ExpectView>,
}

impl View for Request {
    type V = RequestView;

    open spec fn view(&self) -> RequestView {
        RequestView {
            method: self.method@,
            path: self.path@,
            headers: pairs_view(self.headers@),
            body: bytes_view(self.body),
            capture_body: self.capture_body,
            expect: expect_view(self.expect),
        }
    }
}

/// What came of a request.
#[derive(Debug)]
pub struct RequestResult {
    pub status: u16,
    pub latency_us: u64,
    pub bytes: u64,
    pub is_success: bool,
    pub body: Option<Vec<u8>>,
    pub check_passed: usize,
    pub check_failures: Vec<CheckFailure>,
    pub error: Option<ConnError>,
}

/// What a `RequestResult` holds.
pub struct RequestResultView {
    pub status: u16,
    pub latency_us: u64,
    pub bytes: u64,
    pub is_success: bool,
    pub body: Option<Seq<u8>>,
    pub check_passed: nat,
    pub check_failures: Seq<CheckFailureView>,
    pub error: Option<ConnError>,
}

impl View for RequestResult {
    type V = RequestResultView;

    open spec fn view(&self) -> RequestResultView {
        RequestResultView {
            status: self.status,
            latency_us: self.latency_us,
            bytes: self.bytes,
            is_success: self.is_success,
            body: bytes_view(self.body),
            check_passed: self.check_passed as nat,
            check_failures: failures_view(self.check_failures@),
            error: self.error,
        }
    }
}

/// A reply that has been read to its end: its status, and its body or, where
/// reading that failed, the error with its causes.
#[derive(Debug)]
pub struct Reply {
    pub status: u16,
    pub body: Result<Vec<u8>, Vec<ErrorLink>>,
}

// ----------------------------------------------------------------------
// Failures
// ----------------------------------------------------------------------

/// Category of a connection-level failure (status 0 in the result).
#[derive(Clone, Copy, Debug, PartialEq, Eq, Hash, Structural)]
pub enum ConnError {
    Timeout,
    Refused,
    Reset,
    Tls,
    Dns,
    Protocol,
    Other,
}

/// The name under which failures of a category are counted.
pub open spec fn error_label(error: ConnError) -> Seq<char> {
    match error {
        ConnError::Timeout => "timeout"@,
        ConnError::Refused => "refused"@,
        ConnError::Reset => "reset"@,
        ConnError::Tls => "tls"@,
        ConnError::Dns => "dns"@,
        ConnError::Protocol => "protocol"@,
        ConnError::Other => "other"@,
    }
}

/// Failures of different categories are counted under different names.
pub proof fn error_labels_differ(a: ConnError, b: ConnError)
    requires
        a != b,
    ensures
        error_label(a) != error_label(b),
{
    reveal_strlit("timeout");
    reveal_strlit("refused");
    reveal_strlit("reset");
    reveal_strlit("tls");
    reveal_strlit("dns");
    reveal_strlit("protocol");
    reveal_strlit("other");
    assert("timeout"@[0] == 't' && "tls"@[0] == 't' && "refused"@[0] == 'r' && "reset"@[0] == 'r'
        && "dns"@[0] == 'd' && "protocol"@[0] == 'p' && "other"@[0] == 'o');
    assert("timeout"@.len() == 7 && "tls"@.len() == 3 && "refused"@.len() == 7 && "reset"@.len()
        == 5);
}

impl ConnError {
    /// The name under which failures of this category are counted.
    pub fn as_str(&self) -> (label: &'static str)
        ensures
            label@ == error_label(*self),
    {
        match self {
            ConnError::Timeout => "timeout",
            ConnError::Refused => "refused",
            ConnError::Reset => "reset",
            ConnError::Tls => "tls",
            ConnError::Dns => "dns",
            ConnError::Protocol => "protocol",
            ConnError::Other => "other",
        }
    }
}

/// The kinds of I/O error that are told apart.
#[derive(Clone, Copy, Debug, PartialEq, Eq, Structural)]
pub enum IoKind {
    TimedOut,
    ConnectionRefused,
    ConnectionReset,
    ConnectionAborted,
    BrokenPipe,
    UnexpectedEof,
    AddrNotAvailable,
    NotFound,
    Other,
}

/// One error in a chain of causes.
#[derive(Clone, Copy, Debug, PartialEq, Eq, Structural)]
pub enum ErrorLink {
    Io(IoKind),
    Tls,
    Other,
}

/// The category of an I/O error.
pub open spec fn io_category(kind: IoKind) -> ConnError {
    match kind {
        IoKind::TimedOut => ConnError::Timeout,
        IoKind::ConnectionRefused => ConnError::Refused,
        IoKind::ConnectionReset => ConnError::Reset,
        IoKind::ConnectionAborted => ConnError::Reset,
        IoKind::BrokenPipe => ConnError::Reset,
        IoKind::UnexpectedEof => ConnError::Reset,
        IoKind::AddrNotAvailable => ConnError::Dns,
        IoKind::NotFound => ConnError::Dns,
        IoKind::Other => ConnError::Other,
    }
}

/// The category of an error with its chain of causes, outermost first: that
/// of the first I/O or TLS error in it.
pub open spec fn category(chain: Seq<ErrorLink>) -> ConnError
    decreases chain.len(),
{
    if chain.len() == 0 {
        ConnError::Other
    } else {
        match chain[0] {
            ErrorLink::Io(kind) => io_category(kind),
            ErrorLink::Tls => ConnError::Tls,
            ErrorLink::Other => category(chain.drop_first()),
        }
    }
}

/// The category of an I/O error.
fn classify_kind(kind: IoKind) -> (error: ConnError)
    ensures
        error == io_category(kind),
{
    match kind {
        IoKind::TimedOut => ConnError::Timeout,
        IoKind::ConnectionRefused => ConnError::Refused,
        IoKind::ConnectionReset | IoKind::ConnectionAborted | IoKind::BrokenPipe
        | IoKind::UnexpectedEof => ConnError::Reset,
        IoKind::AddrNotAvailable | IoKind::NotFound => ConnError::Dns,
        IoKind::Other => ConnError::Other,
    }
}

/// The category of an error, from its chain of causes, outermost first.
pub fn classify_conn_error(chain: &[ErrorLink]) -> (error: ConnError)
    ensures
        error == category(chain@),
{
    assert(chain@.skip(0) =~= chain@);
    for i in 0..chain.len()
        invariant
            category(chain@) == category(chain@.skip(i as int)),
    {
        assert(chain@.skip(i as int).drop_first() =~= chain@.skip(i as int + 1));
        match chain[i] {
            ErrorLink::Io(kind) => return classify_kind(kind),
            ErrorLink::Tls => return ConnError::Tls,
            ErrorLink::Other => {},
        }
    }
    ConnError::Other
}

/// What came of a request that got no reply.
pub open spec fn failed_result(latency_us: u64, error: ConnError) -> RequestResultView {
    RequestResultView {
        status: 0,
        latency_us,
        bytes: 0,
        is_success: false,
        body: None,
        check_passed: 0,
        check_failures: seq![],
        error: Some(error),
    }
}

/// What came of a request that got no reply.
pub fn fail(latency_us: u64, error: ConnError) -> (result: RequestResult)
    ensures
        result@ == failed_result(latency_us, error),
{
    let result: RequestResult = RequestResult {
        status: 0,
        latency_us,
        bytes: 0,
        is_success: false,
        body: None,
        check_passed: 0,
        check_failures: Vec::new(),
        error: Some(error),
    };
    assert(result@.check_failures =~= seq![]);
    result
}

// ----------------------------------------------------------------------
// Building requests
// ----------------------------------------------------------------------

#[verifier::external_type_specification]
#[verifier::external_body]
#[verifier::reject_recursive_types(T)]
pub struct ExHttpRequest<T>(HttpRequest<T>);

#[verifier::external_type_specification]
#[verifier::external_body]
#[verifier::reject_recursive_types(D)]
pub struct ExFull<D>(Full<D>);

#[verifier::external_type_specification]
#[verifier::external_body]
pub struct ExBytes(Bytes);

/// The request that `http::request::Builder` puts together from a method, a
/// URI, header lines in this order and a body; nothing where it refuses one of
/// them.
pub uninterp spec fn http_request(
    method: Seq<char>,
    uri: Seq<char>,
    headers: Seq<(Seq<char>, Seq<char>)>,
    body: Seq<u8>,
) -> Option<HttpRequest<Full<Bytes>>>;

/// `http::Request::builder` with `method`, `uri`, `header` for each pair, and
/// `body`.
#[verifier::external_body]
fn builder_request(
    method: &str,
    uri: &str,
    headers: &Vec<(String, String)>,
    body: Vec<u8>,
) -> (request: Option<HttpRequest<Full<Bytes>>>)
    ensures
        request == http_request(method@, uri@, pairs_view(headers@), body@),
{
    let builder = HttpRequest::builder().method(method).uri(uri);
    let builder = headers.iter().fold(builder, |b, h| b.header(h.0.as_str(), h.1.as_str()));
    builder.body(Full::new(Bytes::from(body))).ok()
}

/// The request that goes to the connection at `addr`: its `Host` line first,
/// then the template's, and an empty body where the template has none.
pub open spec fn wire_request(addr: Seq<char>, req: RequestView) -> Option<
    HttpRequest<Full<Bytes>>,
> {
    http_request(
        req.method,
        req.path,
        seq![("Host"@, addr)] + req.headers,
        match req.body {
            Some(b) => b,
            None => seq![],
        },
    )
}

/// Build a concrete request from a template and the connection's address.
pub fn build_request(addr: &str, req: &Request) -> (request: Option<HttpRequest<Full<Bytes>>>)
    ensures
        request == wire_request(addr@, req@),
{
    let mut headers: Vec<(String, String)> = Vec::new();
    headers.push(("Host".to_owned(), addr.to_owned()));
    let mut rest: Vec<(String, String)> = copy_pairs(&req.headers);
    let ghost own = pairs_view(rest@);
    headers.append(&mut rest);
    assert(pairs_view(headers@) =~= seq![("Host"@, addr@)] + own);
    let body: Vec<u8> = match copy_bytes(&req.body) {
        Some(b) => b,
        None => Vec::new(),
    };
    proof {
        if req.body is None {
            assert(body@ =~= seq![]);
        }
    }
    builder_request(&req.method, &req.path, &headers, body)
}

// ----------------------------------------------------------------------
// Checking replies
// ----------------------------------------------------------------------

/// The outcome of some checks: how many passed, and the failures of the others.
pub struct Verdict {
    pub passed: nat,
    pub failures: Seq<CheckFailureView>,
}

impl Verdict {
    /// Both outcomes, this one first.
    pub open spec fn then_also(self, other: Verdict) -> Verdict {
        Verdict { passed: self.passed + other.passed, failures: self.failures + other.failures }
    }
}

/// No check at all.
pub open spec fn no_checks() -> Verdict {
    Verdict { passed: 0, failures: seq![] }
}

/// One check that passed.
pub open spec fn pass() -> Verdict {
    Verdict { passed: 1, failures: seq![] }
}

/// One check that failed.
pub open spec fn fails(failure: CheckFailureView) -> Verdict {
    Verdict { passed: 0, failures: seq![failure] }
}

/// A text cut down to 200 characters, with dots for the rest.
pub open spec fn truncated(text: Seq<char>) -> Seq<char> {
    if text.len() > 200 {
        text.take(200) + "..."@
    } else {
        text
    }
}

/// The text of a body; empty where there is none.
pub open spec fn body_text(body: Option<Seq<u8>>) -> Seq<char> {
    match body {
        Some(b) => utf8_lossy(b),
        None => seq![],
    }
}

/// The JSON value of a body, where it is one.
pub open spec fn body_json(body: Option<Seq<u8>>) -> Option<JsonView> {
    match body {
        Some(b) => json_parse(b),
        None => None,
    }
}

/// The outcome of the status check.
pub open spec fn status_verdict(
    expected: Option<u16>,
    method: Seq<char>,
    path: Seq<char>,
    status: u16,
) -> Verdict {
    match expected {
        None => no_checks(),
        Some(wanted) => if status == wanted {
            pass()
        } else {
            fails(
                CheckFailureView {
                    method,
                    path,
                    check: "status"@,
                    expected: decimal(wanted as nat),
                    actual: decimal(status as nat),
                },
            )
        },
    }
}

/// The outcome of the check for a text in the body.
pub open spec fn contains_verdict(
    expected: Option<Seq<char>>,
    method: Seq<char>,
    path: Seq<char>,
    body: Option<Seq<u8>>,
) -> Verdict {
    match expected {
        None => no_checks(),
        Some(needle) => if contains_text(body_text(body), needle) {
            pass()
        } else {
            fails(
                CheckFailureView {
                    method,
                    path,
                    check: "body_contains"@,
                    expected: needle,
                    actual: truncated(body_text(body)),
                },
            )
        },
    }
}

/// The outcome of the check for one member at the top of the body's JSON.
pub open spec fn member_verdict(
    key: Seq<char>,
    wanted: JsonView,
    method: Seq<char>,
    path: Seq<char>,
    parsed: Option<JsonView>,
) -> Verdict {
    let actual = match parsed {
        None => Err("<body not json>"@),
        Some(v) => match v.get_key(key) {
            None => Err("<missing>"@),
            Some(a) => Ok(a),
        },
    };
    match actual {
        Ok(a) if a.same(wanted) => pass(),
        _ => fails(
            CheckFailureView {
                method,
                path,
                check: "json."@ + key,
                expected: json_text(wanted),
                actual: match actual {
                    Ok(a) => json_text(a),
                    Err(note) => note,
                },
            },
        ),
    }
}

/// The outcome of the checks for some members, in their order.
pub open spec fn members_verdict(
    members: Seq<(Seq<char>, JsonView)>,
    method: Seq<char>,
    path: Seq<char>,
    parsed: Option<JsonView>,
) -> Verdict
    decreases members.len(),
{
    if members.len() == 0 {
        no_checks()
    } else {
        let (key, wanted) = members.last();
        members_verdict(members.drop_last(), method, path, parsed).then_also(
            member_verdict(key, wanted, method, path, parsed),
        )
    }
}

/// The outcome of the JSON checks on a parsed body: one for each member of an
/// expected object, none where something else is expected.
pub open spec fn object_verdict(
    expected: JsonView,
    method: Seq<char>,
    path: Seq<char>,
    parsed: Option<JsonView>,
) -> Verdict {
    match expected {
        JsonView::Object(members) => members_verdict(members, method, path, parsed),
        _ => no_checks(),
    }
}

/// The outcome of the JSON checks on a body.
pub open spec fn json_verdict(
    expected: Option<JsonView>,
    method: Seq<char>,
    path: Seq<char>,
    body: Option<Seq<u8>>,
) -> Verdict {
    match expected {
        Some(wanted) => object_verdict(wanted, method, path, body_json(body)),
        None => no_checks(),
    }
}

/// What a parsed body holds.
pub open spec fn parsed_view(parsed: Option<Json>) -> Option<JsonView> {
    match parsed {
        Some(j) => Some(j@),
        None => None,
    }
}

/// The outcome of all checks of an expectation, in the order status, text,
/// JSON.
pub open spec fn verdict(
    expect: ExpectView,
    method: Seq<char>,
    path: Seq<char>,
    status: u16,
    body: Option<Seq<u8>>,
) -> Verdict {
    status_verdict(expect.status, method, path, status).then_also(
        contains_verdict(expect.body_contains, method, path, body),
    ).then_also(json_verdict(expect.json, method, path, body))
}

/// How many checks an expectation makes.
pub open spec fn checks_of(expect: ExpectView) -> nat {
    (if expect.status is Some { 1nat } else { 0nat }) + (if expect.body_contains is Some {
        1nat
    } else {
        0nat
    }) + (match expect.json {
        Some(JsonView::Object(members)) => members.len(),
        _ => 0nat,
    })
}

/// Each member that is checked passes or fails.
proof fn members_are_counted(
    members: Seq<(Seq<char>, JsonView)>,
    method: Seq<char>,
    path: Seq<char>,
    parsed: Option<JsonView>,
)
    ensures
        members_verdict(members, method, path, parsed).passed + members_verdict(
            members,
            method,
            path,
            parsed,
        ).failures.len() == members.len(),
    decreases members.len(),
{
    if members.len() > 0 {
        members_are_counted(members.drop_last(), method, path, parsed);
    }
}

/// No more members pass than can be counted.
proof fn objects_are_counted(
    wanted: JsonView,
    method: Seq<char>,
    path: Seq<char>,
    parsed: Option<JsonView>,
)
    requires
        wanted.wf(),
    ensures
        object_verdict(wanted, method, path, parsed).passed <= isize::MAX,
{
    if let JsonView::Object(members) = wanted {
        members_are_counted(members, method, path, parsed);
    }
}

/// Every check of an expectation is counted once: as passed or as failed.
pub proof fn every_check_is_counted(
    expect: ExpectView,
    method: Seq<char>,
    path: Seq<char>,
    status: u16,
    body: Option<Seq<u8>>,
)
    ensures
        verdict(expect, method, path, status, body).passed + verdict(
            expect,
            method,
            path,
            status,
            body,
        ).failures.len() == checks_of(expect),
{
    match expect.json {
        Some(JsonView::Object(members)) => members_are_counted(
            members,
            method,
            path,
            body_json(body),
        ),
        _ => {},
    }
}

/// Only the members that are expected matter, and of a reply only those at
/// the top: two replies that agree on them get the same outcome.
pub proof fn only_expected_members_matter(
    members: Seq<(Seq<char>, JsonView)>,
    method: Seq<char>,
    path: Seq<char>,
    a: JsonView,
    b: JsonView,
)
    requires
        forall|i: int|
            0 <= i < members.len() ==> a.get_key((#[trigger] members[i]).0) == b.get_key(
                members[i].0,
            ),
    ensures
        members_verdict(members, method, path, Some(a)) == members_verdict(
            members,
            method,
            path,
            Some(b),
        ),
    decreases members.len(),
{
    if members.len() > 0 {
        let rest = members.drop_last();
        assert forall|i: int| 0 <= i < rest.len() implies a.get_key((#[trigger] rest[i]).0)
            == b.get_key(rest[i].0) by {
            assert(rest[i] == members[i]);
        }
        only_expected_members_matter(rest, method, path, a, b);
        assert(members.last() == members[members.len() - 1]);
    }
}

/// Cuts a text down to 200 characters.
pub fn truncate(text: &str) -> (short: String)
    ensures
        short@ == truncated(text@),
{
    let chars: Vec<char> = chars_of(text);
    if chars.len() > 200 {
        let mut short: String = string_of(slice_subrange(&chars, 0, 200));
        push_chars(&mut short, &chars_of("..."));
        assert(short@ =~= text@.take(200) + "..."@);
        short
    } else {
        string_of(&chars)
    }
}

/// A failed check.
fn failure(
    method: &str,
    path: &str,
    check: String,
    expected: String,
    actual: String,
) -> (f: CheckFailure)
    ensures
        f@ == (CheckFailureView {
            method: method@,
            path: path@,
            check: check@,
            expected: expected@,
            actual: actual@,
        }),
{
    CheckFailure { method: method.to_owned(), path: path.to_owned(), check, expected, actual }
}

/// The check for one member; its failure, unless it passes.
fn check_member(
    key: &str,
    wanted: &Json,
    method: &str,
    path: &str,
    parsed: &Option<Json>,
) -> (f: Option<CheckFailure>)
    requires
        wanted@.wf(),
        parsed matches Some(j) ==> j@.wf(),
    ensures
        ({
            let v = member_verdict(key@, wanted@, method@, path@, parsed_view(*parsed));
            match f {
                Some(x) => v == fails(x@),
                None => v == pass(),
            }
        }),
{
    let mut check: String = "json.".to_owned();
    push_chars(&mut check, &chars_of(key));
    let actual: String = match parsed {
        None => "<body not json>".to_owned(),
        Some(value) => match value.get_key(key) {
            None => "<missing>".to_owned(),
            Some(found) => {
                if found.same(wanted) {
                    return None;
                }
                found.to_text()
            },
        },
    };
    Some(failure(method, path, check, wanted.to_text(), actual))
}

/// Make the JSON checks on a parsed body, or on one that is no JSON. Returns
/// how many passed, and the failures of the others.
pub fn evaluate_json(
    wanted: &Json,
    method: &str,
    path: &str,
    parsed: &Option<Json>,
) -> (outcome: (usize, Vec<CheckFailure>))
    requires
        wanted@.wf(),
        parsed matches Some(j) ==> j@.wf(),
    ensures
        ({
            let v = object_verdict(wanted@, method@, path@, parsed_view(*parsed));
            outcome.0 == v.passed && failures_view(outcome.1@) == v.failures
        }),
{
    let mut passed: usize = 0;
    let mut failures: Vec<CheckFailure> = Vec::new();
    assert(failures_view(failures@) =~= seq![]);
    if let Json::Object(members) = wanted {
        let ghost body = parsed_view(*parsed);
        let ghost all = members_view(members@);
        proof {
            assert(wanted@->Object_0 =~= all);
            assert(all.take(0) =~= seq![]);
        }
        for i in 0..members.len()
            invariant
                all == members_view(members@),
                all.len() <= isize::MAX,
                wanted@ == JsonView::Object(all),
                wanted@.wf(),
                parsed matches Some(j) ==> j@.wf(),
                body == parsed_view(*parsed),
                passed <= i,
                ({
                    let v = members_verdict(all.take(i as int), method@, path@, body);
                    passed == v.passed && failures_view(failures@) == v.failures
                }),
        {
            let ghost before = failures_view(failures@);
            assert(all[i as int] == (members@[i as int].0@, members@[i as int].1@));
            assert(all[i as int].1.wf());
            let found: Option<CheckFailure> = check_member(
                &members[i].0,
                &members[i].1,
                method,
                path,
                parsed,
            );
            proof {
                assert(all.take(i as int + 1).drop_last() =~= all.take(i as int));
                assert(all.take(i as int + 1).last() == all[i as int]);
            }
            match found {
                None => {
                    passed += 1;
                    assert(before + seq![] =~= before);
                },
                Some(f) => {
                    failures.push(f);
                    assert(failures_view(failures@) =~= before.push(f@));
                    assert(before + seq![f@] =~= before.push(f@));
                },
            }
        }
        assert(all.take(all.len() as int) =~= all);
    }
    (passed, failures)
}

/// Evaluate an expectation against a reply. Returns how many checks passed,
/// and the failures of the others.
pub fn evaluate_expect(
    expect: &ExpectSpec,
    method: &str,
    path: &str,
    status: u16,
    body: &Option<Vec<u8>>,
) -> (outcome: (usize, Vec<CheckFailure>))
    requires
        expect@.wf(),
    ensures
        ({
            let v = verdict(expect@, method@, path@, status, bytes_view(*body));
            outcome.0 == v.passed && failures_view(outcome.1@) == v.failures
        }),
{
    let mut passed: usize = 0;
    let mut failures: Vec<CheckFailure> = Vec::new();
    let ghost view = bytes_view(*body);
    assert(failures_view(failures@) =~= seq![]);

    if let Some(wanted) = expect.status {
        if status == wanted {
            passed += 1;
        } else {
            failures.push(
                failure(
                    method,
                    path,
                    "status".to_owned(),
                    decimal_text(wanted as u64),
                    decimal_text(status as u64),
                ),
            );
        }
    }
    let ghost first = status_verdict(expect@.status, method@, path@, status);
    assert(failures_view(failures@) =~= first.failures);

    if let Some(needle) = &expect.body_contains {
        let text: String = match body {
            Some(b) => from_utf8_lossy(b),
            None => String::new(),
        };
        assert(text@ =~= body_text(view));
        if str_contains(&text, needle) {
            passed += 1;
        } else {
            failures.push(
                failure(method, path, "body_contains".to_owned(), needle.clone(), truncate(&text)),
            );
        }
    }
    let ghost second = first.then_also(
        contains_verdict(expect@.body_contains, method@, path@, view),
    );
    assert(failures_view(failures@) =~= second.failures);
    assert(passed == second.passed);

    if let Some(wanted) = &expect.json {
        let parsed: Option<Json> = match body {
            Some(b) => parse(b),
            None => None,
        };
        let (held, mut others): (usize, Vec<CheckFailure>) = evaluate_json(
            wanted,
            method,
            path,
            &parsed,
        );
        let ghost third = object_verdict(wanted@, method@, path@, body_json(view));
        let ghost before = failures@;
        let ghost more = others@;
        proof {
            assert(expect@.json == Some(wanted@));
            objects_are_counted(wanted@, method@, path@, body_json(view));
        }
        passed += held;
        failures.append(&mut others);
        assert(failures@ =~= before + more);
        assert(failures_view(failures@) =~= second.failures + third.failures);
    }
    proof {
        assert(second.then_also(no_checks()).failures =~= second.failures);
        if expect.json is Some {
            assert(expect@.json == Some(expect.json->0@));
        }
    }
    (passed, failures)
}

/// The body of a reply, or the category of what kept it from being read.
pub open spec fn body_of(reply: Reply) -> Result<Seq<u8>, ConnError> {
    match reply.body {
        Ok(bytes) => Ok(bytes@),
        Err(chain) => Err(category(chain@)),
    }
}

/// What came of a request that got a reply. A reply of any status is a
/// success once its body has been read. One whose body could not be read is a
/// failed connection, with the status 0; its assertions are still judged, by
/// the status that came and without a body.
pub open spec fn finished_result(
    status: u16,
    body: Result<Seq<u8>, ConnError>,
    latency_us: u64,
    req: RequestView,
) -> RequestResultView {
    let read = match body {
        Ok(b) => Some(b),
        Err(_) => None,
    };
    let v = match req.expect {
        Some(e) => verdict(e, req.method, req.path, status, read),
        None => no_checks(),
    };
    RequestResultView {
        status: if body is Ok {
            status
        } else {
            0
        },
        latency_us,
        bytes: match body {
            Ok(b) => b.len() as u64,
            Err(_) => 0,
        },
        is_success: body is Ok,
        body: if req.capture_body {
            read
        } else {
            None
        },
        check_passed: v.passed,
        check_failures: v.failures,
        error: match body {
            Ok(_) => None,
            Err(e) => Some(e),
        },
    }
}

/// An expectation of nothing makes no checks.
proof fn nothing_expected(
    expect: ExpectView,
    method: Seq<char>,
    path: Seq<char>,
    status: u16,
    body: Option<Seq<u8>>,
)
    requires
        expect.nothing(),
    ensures
        verdict(expect, method, path, status, body) == no_checks(),
{
    assert(verdict(expect, method, path, status, body).failures =~= seq![]);
}

/// Turn a reply into a `RequestResult`.
pub fn finish_response(reply: Reply, latency_us: u64, req: &Request) -> (result: RequestResult)
    requires
        expect_wf(req@.expect),
    ensures
        result@ == finished_result(reply.status, body_of(reply), latency_us, req@),
{
    let error: Option<ConnError> = match &reply.body {
        Ok(_) => None,
        Err(chain) => Some(classify_conn_error(chain.as_slice())),
    };
    let is_success: bool = error.is_none();
    let status: u16 = reply.status;
    let body: Option<Vec<u8>> = match reply.body {
        Ok(b) => Some(b),
        Err(_) => None,
    };
    let bytes: u64 = match &body {
        Some(b) => b.len() as u64,
        None => 0,
    };
    let ghost body_view = bytes_view(body);
    let outcome: (usize, Vec<CheckFailure>) = match &req.expect {
        Some(e) => {
            if e.is_empty() {
                proof {
                    nothing_expected(e@, req.method@, req.path@, status, body_view);
                }
                (0, Vec::new())
            } else {
                evaluate_expect(e, &req.method, &req.path, status, &body)
            }
        },
        None => (0, Vec::new()),
    };
    let ghost v = match req@.expect {
        Some(e) => verdict(e, req@.method, req@.path, status, body_view),
        None => no_checks(),
    };
    assert(failures_view(outcome.1@) =~= v.failures);
    RequestResult {
        status: if is_success {
            status
        } else {
            0
        },
        latency_us,
        bytes,
        is_success,
        body: if req.capture_body {
            body
        } else {
            None
        },
        check_passed: outcome.0,
        check_failures: outcome.1,
        error,
    }
}

// ----------------------------------------------------------------------
// Addresses
// ----------------------------------------------------------------------

/// The port that a URL without one means.
pub open spec fn default_port(is_tls: bool) -> u16 {
    if is_tls {
        443
    } else {
        80
    }
}

/// The port that a text writes, or the default.
pub open spec fn port_or(text: Seq<char>, default: u16) -> u16 {
    match parse_unsigned(text, u16::MAX as nat) {
        Some(n) => n as u16,
        None => default,
    }
}

/// The host and the port of an authority. A host in square brackets ends at
/// the closing one; otherwise what follows the last colon is the port, if it
/// is a number.
pub open spec fn host_and_port(authority: Seq<char>, is_tls: bool) -> (Seq<char>, u16) {
    let default = default_port(is_tls);
    let inner = authority.drop_first();
    let end = find_first(inner, ']');
    let colon = find_last(authority, ':');
    if authority.len() > 0 && authority[0] == '[' && end < inner.len() {
        let after = inner.skip(end + 1);
        if after.len() > 0 && after[0] == ':' {
            (inner.take(end), port_or(after.drop_first(), default))
        } else {
            (inner.take(end), default)
        }
    } else if colon >= 0 && parse_unsigned(authority.skip(colon + 1), u16::MAX as nat) is Some {
        (authority.take(colon), port_or(authority.skip(colon + 1), default))
    } else {
        (authority, default)
    }
}

/// Split an authority into host and port.
pub fn split_host_port(authority: &[char], is_tls: bool) -> (parts: (String, u16))
    ensures
        (parts.0@, parts.1) == host_and_port(authority@, is_tls),
{
    let default: u16 = if is_tls {
        443
    } else {
        80
    };
    if authority.len() > 0 && authority[0] == '[' {
        let inner: &[char] = slice_subrange(authority, 1, authority.len());
        assert(inner@ =~= authority@.drop_first());
        let end: usize = find_char(inner, ']', 0);
        if end < inner.len() {
            let host: String = string_of(slice_subrange(inner, 0, end));
            assert(host@ =~= inner@.take(end as int));
            let after: &[char] = slice_subrange(inner, end + 1, inner.len());
            assert(after@ =~= inner@.skip(end + 1));
            if after.len() > 0 && after[0] == ':' {
                let digits: &[char] = slice_subrange(after, 1, after.len());
                assert(digits@ =~= after@.drop_first());
                return match read_unsigned(digits, u16::MAX as u64) {
                    Some(port) => (host, port as u16),
                    None => (host, default),
                };
            }
            return (host, default);
        }
    }
    if let Some(colon) = find_last_char(authority, ':') {
        let digits: &[char] = slice_subrange(authority, colon + 1, authority.len());
        assert(digits@ =~= authority@.skip(colon + 1));
        if let Some(port) = read_unsigned(digits, u16::MAX as u64) {
            let host: String = string_of(slice_subrange(authority, 0, colon));
            assert(host@ =~= authority@.take(colon as int));
            return (host, port as u16);
        }
    }
    (string_of(authority), default)
}

/// `host:port`.
pub open spec fn address(host: Seq<char>, port: u16) -> Seq<char> {
    host + ":"@ + decimal(port as nat)
}

/// `host:port`.
pub fn address_text(host: &str, port: u16) -> (text: String)
    ensures
        text@ == address(host@, port),
{
    let mut text: String = host.to_owned();
    proof {
        reveal_strlit(":");
    }
    text.push(':');
    assert(text@ =~= host@ + ":"@);
    push_decimal(&mut text, port as u64);
    text
}

/// How a TLS connection is set up.
#[derive(Clone, Copy, Debug, PartialEq, Eq, Structural)]
pub struct TlsSettings {
    /// Whether the server's certificate goes unverified.
    pub insecure: bool,
    /// Whether HTTP/2 is the protocol that is offered, and not HTTP/1.1.
    pub offers_h2: bool,
}

/// Where a base URL leads.
pub struct ParsedAddr {
    pub addr: String,
    pub tls: Option<TlsSettings>,
    pub server_name: Option<String>,
}

/// What a `ParsedAddr` holds.
pub struct ParsedAddrView {
    pub addr: Seq<char>,
    pub tls: Option<TlsSettings>,
    pub server_name: Option<Seq<char>>,
}

impl View for ParsedAddr {
    type V = ParsedAddrView;

    open spec fn view(&self) -> ParsedAddrView {
        ParsedAddrView {
            addr: self.addr@,
            tls: self.tls,
            server_name: text_view(self.server_name),
        }
    }
}

/// Whether `rustls` takes a text for the name of a server.
pub uninterp spec fn is_server_name(host: Seq<char>) -> bool;

/// `rustls::pki_types::ServerName::try_from`: whether it succeeds.
#[verifier::external_body]
pub(crate) fn server_name_accepted(host: &str) -> (accepted: bool)
    ensures
        accepted == is_server_name(host@),
{
    rustls::pki_types::ServerName::try_from(host.to_string()).is_ok()
}

/// Whether a base URL asks for TLS, and what follows its scheme.
pub open spec fn scheme(base_url: Seq<char>) -> (bool, Seq<char>) {
    if "https://"@.is_prefix_of(base_url) {
        (true, base_url.skip("https://"@.len() as int))
    } else if "http://"@.is_prefix_of(base_url) {
        (false, base_url.skip("http://"@.len() as int))
    } else {
        (false, base_url)
    }
}

/// The authority of a URL without its scheme: up to the first slash, without
/// the colons at its end.
pub open spec fn authority(rest: Seq<char>) -> Seq<char> {
    trim_end_char(rest.take(find_first(rest, '/')), ':')
}

/// Where a base URL leads.
pub open spec fn base_address(base_url: Seq<char>, insecure: bool, http2: bool) -> ParsedAddrView {
    let (is_tls, rest) = scheme(base_url);
    let (host, port) = host_and_port(authority(rest), is_tls);
    ParsedAddrView {
        addr: address(host, port),
        tls: if is_tls {
            Some(TlsSettings { insecure, offers_h2: http2 })
        } else {
            None
        },
        server_name: if is_tls && is_server_name(host) {
            Some(host)
        } else {
            None
        },
    }
}

/// Find out where a base URL leads.
pub fn parse_base(base_url: &str, insecure: bool, http2: bool) -> (parsed: ParsedAddr)
    ensures
        parsed@ == base_address(base_url@, insecure, http2),
{
    let url: Vec<char> = chars_of(base_url);
    proof {
        reveal_strlit("https://");
        reveal_strlit("http://");
    }
    let secure: bool = starts_with(&url, "https://");
    let skip: usize = if secure {
        8
    } else if starts_with(&url, "http://") {
        7
    } else {
        0
    };
    let rest: &[char] = slice_subrange(&url, skip, url.len());
    assert(rest@ =~= url@.skip(skip as int));
    assert(scheme(base_url@) == (secure, rest@)) by {
        assert(url@.skip(0) =~= url@);
    }
    let slash: usize = find_char(rest, '/', 0);
    let host_port: &[char] = slice_subrange(rest, 0, slash);
    assert(host_port@ =~= rest@.take(slash as int));
    let authority: &[char] = without_trailing(host_port, ':');
    let (host, port): (String, u16) = split_host_port(authority, secure);
    let addr: String = address_text(&host, port);
    if secure {
        let name: Option<String> = if server_name_accepted(&host) {
            Some(host)
        } else {
            None
        };
        ParsedAddr {
            addr,
            tls: Some(TlsSettings { insecure, offers_h2: http2 }),
            server_name: name,
        }
    } else {
        ParsedAddr { addr, tls: None, server_name: None }
    }
}

/// The last colon before the digits of a port is the one that is found.
proof fn last_colon(host: Seq<char>, tail: Seq<char>, end: int)
    requires
        forall|i: int| 0 <= i < tail.len() ==> tail[i] != ':',
        host.len() < end <= host.len() + 1 + tail.len(),
    ensures
        find_last_before(host + seq![':'] + tail, ':', end) == host.len(),
    decreases end,
{
    let s = host + seq![':'] + tail;
    if end - 1 > host.len() {
        assert(s[end - 1] == tail[end - 1 - host.len() - 1]);
        last_colon(host, tail, end - 1);
    } else {
        assert(s[end - 1] == ':');
    }
}

/// A host that is no bracketed address, written with a port, is split into
/// that host and that port.
pub proof fn host_and_port_of_address(host: Seq<char>, port: u16, is_tls: bool)
    requires
        host.len() == 0 || host[0] != '[',
    ensures
        host_and_port(address(host, port), is_tls) == (host, port),
{
    let tail = decimal(port as nat);
    let whole = address(host, port);
    reveal_strlit(":");
    assert(":"@ =~= seq![':']);
    decimal_reads_back(port as nat, u16::MAX as nat);
    decimal_is_digits(port as nat);
    last_colon(host, tail, whole.len() as int);
    assert(whole.skip(host.len() as int + 1) =~= tail);
    assert(whole.take(host.len() as int) =~= host);
    if host.len() > 0 {
        assert(whole[0] == host[0]);
    } else {
        assert(whole[0] == ':');
    }
}

/// A host without a colon, written without a port, has the default port of
/// its scheme.
pub proof fn host_without_port(host: Seq<char>, is_tls: bool)
    requires
        host.len() == 0 || host[0] != '[',
        forall|i: int| 0 <= i < host.len() ==> host[i] != ':',
    ensures
        host_and_port(host, is_tls) == (host, default_port(is_tls)),
{
    no_last(host, ':', host.len() as int);
}

/// The bracket that ends a host is the first one.
proof fn bracket_ends(host: Seq<char>, rest: Seq<char>)
    requires
        forall|i: int| 0 <= i < host.len() ==> host[i] != ']',
    ensures
        find_first(host + seq![']'] + rest, ']') == host.len(),
{
    let s = host + seq![']'] + rest;
    let end = find_first(s, ']');
    find_from_is_first(s, ']', 0);
    assert(s[host.len() as int] == ']');
    if end < host.len() {
        assert(s[end] == host[end]);
    }
}

/// An address in brackets, written with a port, is split into what the
/// brackets hold and that port; without one it has the default port of its
/// scheme.
pub proof fn host_in_brackets(host: Seq<char>, port: u16, is_tls: bool)
    requires
        forall|i: int| 0 <= i < host.len() ==> host[i] != ']',
    ensures
        host_and_port(address(seq!['['] + host + seq![']'], port), is_tls) == (host, port),
        host_and_port(seq!['['] + host + seq![']'], is_tls) == (host, default_port(is_tls)),
{
    let tail = decimal(port as nat);
    let bare = seq!['['] + host + seq![']'];
    let whole = address(bare, port);
    reveal_strlit(":");
    assert(":"@ =~= seq![':']);
    decimal_reads_back(port as nat, u16::MAX as nat);
    bracket_ends(host, seq![]);
    bracket_ends(host, ":"@ + tail);
    assert(bare.drop_first() =~= host + seq![']'] + seq![]);
    assert(whole.drop_first() =~= host + seq![']'] + (":"@ + tail));
    assert(bare.drop_first().take(host.len() as int) =~= host);
    assert(whole.drop_first().take(host.len() as int) =~= host);
    assert(whole.drop_first().skip(host.len() as int + 1) =~= ":"@ + tail);
    assert((":"@ + tail).drop_first() =~= tail);
}

/// A character that does not occur has no last place.
proof fn no_last(s: Seq<char>, c: char, end: int)
    requires
        0 <= end <= s.len(),
        forall|i: int| 0 <= i < s.len() ==> s[i] != c,
    ensures
        find_last_before(s, c, end) == -1,
    decreases end,
{
    if end > 0 {
        no_last(s, c, end - 1);
    }
}

// ----------------------------------------------------------------------
// Connections
// ----------------------------------------------------------------------

/// The stages of opening a connection.
#[derive(Clone, Copy, Debug, PartialEq, Eq, Structural)]
pub enum LinkStage {
    Tcp,
    Tls,
    Handshake,
}

/// What came of a stage.
#[derive(Debug)]
pub enum LinkEvent {
    Done,
    Failed(Vec<ErrorLink>),
    TimedOut,
}

/// What is to be done next to open a connection.
#[derive(Clone, Copy, Debug, PartialEq, Eq, Structural)]
pub enum LinkStep {
    Go(LinkStage),
    Up,
    Down(ConnError),
}

/// The next step of opening a connection. TLS stands between TCP and the
/// handshake where it is used; a failed stage gives the connection up.
pub open spec fn link_step(uses_tls: bool, stage: LinkStage, event: LinkEvent) -> LinkStep {
    match event {
        LinkEvent::TimedOut => LinkStep::Down(ConnError::Timeout),
        LinkEvent::Failed(chain) => match stage {
            LinkStage::Tls => LinkStep::Down(ConnError::Tls),
            _ => LinkStep::Down(category(chain@)),
        },
        LinkEvent::Done => match stage {
            LinkStage::Tcp => LinkStep::Go(
                if uses_tls {
                    LinkStage::Tls
                } else {
                    LinkStage::Handshake
                },
            ),
            LinkStage::Tls => LinkStep::Go(LinkStage::Handshake),
            LinkStage::Handshake => LinkStep::Up,
        },
    }
}

/// The next step of opening a connection.
fn next_link(uses_tls: bool, stage: LinkStage, event: &LinkEvent) -> (step: LinkStep)
    ensures
        step == link_step(uses_tls, stage, *event),
{
    match event {
        LinkEvent::TimedOut => LinkStep::Down(ConnError::Timeout),
        LinkEvent::Failed(chain) => match stage {
            LinkStage::Tls => LinkStep::Down(ConnError::Tls),
            LinkStage::Tcp | LinkStage::Handshake => LinkStep::Down(classify_conn_error(chain)),
        },
        LinkEvent::Done => match stage {
            LinkStage::Tcp => if uses_tls {
                LinkStep::Go(LinkStage::Tls)
            } else {
                LinkStep::Go(LinkStage::Handshake)
            },
            LinkStage::Tls => LinkStep::Go(LinkStage::Handshake),
            LinkStage::Handshake => LinkStep::Up,
        },
    }
}

/// What happens while a request is being sent.
#[derive(Debug)]
pub enum SendEvent {
    /// The request is to be sent.
    Begin,
    /// The connection that was asked for is open.
    Connected,
    /// The connection that was asked for could not be opened.
    ConnectFailed(ConnError),
    /// Sending failed on an open connection.
    Broken(Vec<ErrorLink>),
}

/// What is to be done next to send a request.
#[derive(Debug)]
pub enum SendStep {
    /// Open a connection.
    Connect,
    /// Send this on the open connection.
    Transmit(HttpRequest<Full<Bytes>>),
    /// Give the request up.
    Fail(ConnError),
}

/// The step of sending on an open connection.
pub open spec fn transmit_step(addr: Seq<char>, req: RequestView) -> SendStep {
    match wire_request(addr, req) {
        Some(r) => SendStep::Transmit(r),
        None => SendStep::Fail(ConnError::Other),
    }
}

/// The next step of sending, and whether the connection is open after it. A
/// connection is opened when there is none, and dropped when sending fails.
pub open spec fn send_step(
    open: bool,
    addr: Seq<char>,
    req: RequestView,
    event: SendEvent,
) -> (bool, SendStep) {
    match event {
        SendEvent::Begin => if open {
            (true, transmit_step(addr, req))
        } else {
            (false, SendStep::Connect)
        },
        SendEvent::Connected => (true, transmit_step(addr, req)),
        SendEvent::ConnectFailed(e) => (open, SendStep::Fail(e)),
        SendEvent::Broken(chain) => (false, SendStep::Fail(category(chain@))),
    }
}

/// The step of sending on an open connection.
fn transmit(addr: &str, req: &Request) -> (step: SendStep)
    ensures
        step == transmit_step(addr@, req@),
{
    match build_request(addr, req) {
        Some(r) => SendStep::Transmit(r),
        None => SendStep::Fail(ConnError::Other),
    }
}

/// A connection of one virtual user: where it leads and whether it is open.
#[derive(Debug)]
pub struct Connection {
    pub addr: String,
    pub tls: Option<TlsSettings>,
    pub server_name: Option<String>,
    pub open: bool,
}

impl Connection {
    /// Where the connection leads.
    pub open spec fn target(&self) -> ParsedAddrView {
        ParsedAddrView {
            addr: self.addr@,
            tls: self.tls,
            server_name: text_view(self.server_name),
        }
    }

    /// A connection to the address of a base URL, not open yet.
    pub fn new(base_url: &str, insecure: bool) -> (c: Connection)
        ensures
            c.target() == base_address(base_url@, insecure, false),
            !c.open,
    {
        let parsed: ParsedAddr = parse_base(base_url, insecure, false);
        Connection {
            addr: parsed.addr,
            tls: parsed.tls,
            server_name: parsed.server_name,
            open: false,
        }
    }

    /// What came of opening the connection ahead of the first request. Where
    /// that failed, the first request tries again.
    pub fn opened(&mut self, up: bool)
        ensures
            final(self).target() == old(self).target(),
            final(self).open == up,
    {
        self.open = up;
    }

    /// The next step of opening the connection: TLS is used where the URL asks
    /// for it and names a server.
    pub fn connect(&self, stage: LinkStage, event: &LinkEvent) -> (step: LinkStep)
        ensures
            step == link_step(self.tls is Some && self.server_name is Some, stage, *event),
    {
        next_link(self.tls.is_some() && self.server_name.is_some(), stage, event)
    }

    /// The next step of sending a request.
    pub fn send(&mut self, req: &Request, event: SendEvent) -> (step: SendStep)
        ensures
            final(self).target() == old(self).target(),
            (final(self).open, step) == send_step(old(self).open, old(self).addr@, req@, event),
    {
        match event {
            SendEvent::Begin => if self.open {
                transmit(&self.addr, req)
            } else {
                SendStep::Connect
            },
            SendEvent::Connected => {
                self.open = true;
                transmit(&self.addr, req)
            },
            SendEvent::ConnectFailed(e) => SendStep::Fail(e),
            SendEvent::Broken(chain) => {
                self.open = false;
                SendStep::Fail(classify_conn_error(&chain))
            },
        }
    }
}

/// What came of a request, from its reply or its failure.
pub open spec fn result_of(
    reply: Result<Reply, ConnError>,
    latency_us: u64,
    req: RequestView,
) -> RequestResultView {
    match reply {
        Ok(r) => finished_result(r.status, body_of(r), latency_us, req),
        Err(e) => failed_result(latency_us, e),
    }
}

impl Connection {
    /// What came of a request, from its reply or its failure.
    pub fn request(
        req: &Request,
        reply: Result<Reply, ConnError>,
        latency_us: u64,
    ) -> (result: RequestResult)
        requires
            expect_wf(req@.expect),
        ensures
            result@ == result_of(reply, latency_us, req@),
    {
        match reply {
            Ok(r) => finish_response(r, latency_us, req),
            Err(e) => fail(latency_us, e),
        }
    }
}

/// A request fails exactly if it has the status 0 in the end, which is where
/// it has an error: no reply has that status.
pub proof fn failure_is_the_status_0(
    reply: Result<Reply, ConnError>,
    latency_us: u64,
    req: RequestView,
)
    requires
        reply matches Ok(r) ==> r.status != 0,
    ensures
        ({
            let result = result_of(reply, latency_us, req);
            &&& result.is_success == (result.status != 0)
            &&& result.is_success == (result.error is None)
        }),
{
}

/// The shared HTTP/2 connections: where they lead and which of them are open.
/// Requests take turns over them.
#[derive(Debug)]
pub struct H2Pool {
    pub addr: String,
    pub tls: Option<TlsSettings>,
    pub server_name: Option<String>,
    pub slots: Vec<bool>,
    pub next: u64,
}

impl H2Pool {
    /// Where the connections lead.
    pub open spec fn target(&self) -> ParsedAddrView {
        ParsedAddrView {
            addr: self.addr@,
            tls: self.tls,
            server_name: text_view(self.server_name),
        }
    }

    /// Whether the pool has its connections.
    pub open spec fn wf(&self) -> bool {
        self.slots@.len() == H2_POOL_SIZE
    }

    /// Whether this is a pool for the address of a base URL, with no
    /// connection open yet.
    pub open spec fn is_new(&self, base_url: Seq<char>, insecure: bool) -> bool {
        &&& self.target() == base_address(base_url, insecure, true)
        &&& self.slots@ == Seq::new(H2_POOL_SIZE as nat, |i: int| false)
        &&& self.next == 0
    }

    /// A pool for the address of a base URL, with no connection open yet.
    pub fn new(base_url: &str, insecure: bool) -> (p: H2Pool)
        ensures
            p.wf(),
            p.is_new(base_url@, insecure),
    {
        let parsed: ParsedAddr = parse_base(base_url, insecure, true);
        let mut slots: Vec<bool> = Vec::new();
        for i in 0..H2_POOL_SIZE
            invariant
                slots@ == Seq::new(i as nat, |j: int| false),
        {
            slots.push(false);
            assert(slots@ =~= Seq::new((i + 1) as nat, |j: int| false));
        }
        H2Pool {
            addr: parsed.addr,
            tls: parsed.tls,
            server_name: parsed.server_name,
            slots,
            next: 0,
        }
    }

    /// The connection whose turn it is.
    pub fn take_turn(&mut self) -> (slot: usize)
        requires
            old(self).wf(),
        ensures
            final(self).wf(),
            final(self).target() == old(self).target(),
            final(self).slots@ == old(self).slots@,
            slot == turn(old(self).next),
            final(self).next == next_turn(old(self).next),
            slot < final(self).slots@.len(),
    {
        let slot: usize = (self.next % H2_POOL_SIZE as u64) as usize;
        self.next = self.next.wrapping_add(1);
        slot
    }

    /// The next step of opening a connection.
    pub fn connect(&self, stage: LinkStage, event: &LinkEvent) -> (step: LinkStep)
        ensures
            step == link_step(self.tls is Some && self.server_name is Some, stage, *event),
    {
        next_link(self.tls.is_some() && self.server_name.is_some(), stage, event)
    }

    /// The next step of sending a request on a connection. A connection on
    /// which sending failed is dropped, unless another request holds it.
    pub fn request(
        &mut self,
        slot: usize,
        req: &Request,
        event: SendEvent,
        held_elsewhere: bool,
    ) -> (step: SendStep)
        requires
            old(self).wf(),
            slot < old(self).slots@.len(),
        ensures
            final(self).wf(),
            final(self).target() == old(self).target(),
            final(self).next == old(self).next,
            ({
                let was = old(self).slots@[slot as int];
                let (open, taken) = send_step(was, old(self).addr@, req@, event);
                let kept = event is Broken && held_elsewhere;
                &&& step == taken
                &&& final(self).slots@ == old(self).slots@.update(
                    slot as int,
                    if kept {
                        was
                    } else {
                        open
                    },
                )
            }),
    {
        assert(self.slots@.update(slot as int, self.slots@[slot as int]) =~= self.slots@);
        match event {
            SendEvent::Begin => if self.slots[slot] {
                transmit(&self.addr, req)
            } else {
                SendStep::Connect
            },
            SendEvent::Connected => {
                self.slots.set(slot, true);
                transmit(&self.addr, req)
            },
            SendEvent::ConnectFailed(e) => SendStep::Fail(e),
            SendEvent::Broken(chain) => {
                if !held_elsewhere {
                    self.slots.set(slot, false);
                }
                SendStep::Fail(classify_conn_error(&chain))
            },
        }
    }
}

/// The connection whose turn it is at a count of requests.
pub open spec fn turn(count: u64) -> int {
    count as int % H2_POOL_SIZE as int
}

/// The count of requests after one more.
pub open spec fn next_turn(count: u64) -> u64 {
    if count == u64::MAX {
        0
    } else {
        (count + 1) as u64
    }
}

/// The count of requests after some more.
pub open spec fn turns_later(count: u64, more: nat) -> u64
    decreases more,
{
    if more == 0 {
        count
    } else {
        next_turn(turns_later(count, (more - 1) as nat))
    }
}

/// The turn moves on by one connection with a request.
proof fn one_turn(count: u64, place: int)
    requires
        turn(count) == place % (H2_POOL_SIZE as int),
    ensures
        turn(next_turn(count)) == (place + 1) % (H2_POOL_SIZE as int),
{
}

/// The turn moves on by one connection with each request, also where the
/// count starts over.
proof fn turn_moves_on(count: u64, more: nat)
    ensures
        turn(turns_later(count, more)) == (turn(count) + more) % (H2_POOL_SIZE as int),
    decreases more,
{
    if more > 0 {
        turn_moves_on(count, (more - 1) as nat);
        one_turn(turns_later(count, (more - 1) as nat), turn(count) + more - 1);
    }
}

/// Requests go round: of as many consecutive requests as there are
/// connections, no two use the same one, and the next uses the first again.
pub proof fn requests_take_turns(count: u64, i: nat, j: nat)
    requires
        i < j <= H2_POOL_SIZE,
    ensures
        turn(turns_later(count, i)) == turn(turns_later(count, j)) <==> j - i == H2_POOL_SIZE,
{
    turn_moves_on(count, i);
    turn_moves_on(count, j);
}

/// A connection on which sending failed is opened anew for the next request,
/// and one that was opened is used without opening it again.
pub proof fn broken_connections_are_reopened(
    open: bool,
    addr: Seq<char>,
    req: RequestView,
    next: RequestView,
    chain: Vec<ErrorLink>,
)
    ensures
        send_step(
            send_step(open, addr, req, SendEvent::Broken(chain)).0,
            addr,
            next,
            SendEvent::Begin,
        ).1 == SendStep::Connect,
        send_step(
            send_step(open, addr, req, SendEvent::Connected).0,
            addr,
            next,
            SendEvent::Begin,
        ).1 == transmit_step(addr, next),
{
}

// ----------------------------------------------------------------------
// Laws of assertions
// ----------------------------------------------------------------------

/// The expectation of a status alone.
pub open spec fn only_status(wanted: u16) -> ExpectView {
    ExpectView { status: Some(wanted), body_contains: None, json: None }
}

/// The expectation of a text alone.
pub open spec fn only_text(needle: Seq<char>) -> ExpectView {
    ExpectView { status: None, body_contains: Some(needle), json: None }
}

/// The expectation of JSON alone.
pub open spec fn only_json(wanted: JsonView) -> ExpectView {
    ExpectView { status: None, body_contains: None, json: Some(wanted) }
}

/// A status that is expected has to be that of the reply, and nothing else of
/// the reply matters. The failure tells both numbers.
pub proof fn status_has_to_be_equal(
    wanted: u16,
    method: Seq<char>,
    path: Seq<char>,
    status: u16,
    body: Option<Seq<u8>>,
)
    ensures
        ({
            let v = verdict(only_status(wanted), method, path, status, body);
            if status == wanted {
                v.passed == 1 && v.failures.len() == 0
            } else {
                v.passed == 0 && v.failures =~= seq![
                    CheckFailureView {
                        method,
                        path,
                        check: "status"@,
                        expected: decimal(wanted as nat),
                        actual: decimal(status as nat),
                    },
                ]
            }
        }),
{
}

/// A text that is expected is found wherever it stands in the body, however
/// much comes before and after it.
pub proof fn text_is_found_anywhere(
    before: Seq<char>,
    needle: Seq<char>,
    after: Seq<char>,
    method: Seq<char>,
    path: Seq<char>,
    status: u16,
    body: Seq<u8>,
)
    requires
        utf8_lossy(body) == before + needle + after,
    ensures
        ({
            let v = verdict(only_text(needle), method, path, status, Some(body));
            v.passed == 1 && v.failures.len() == 0
        }),
{
    let text = before + needle + after;
    let at = before.len() as int;
    assert(text.subrange(at, at + needle.len()) =~= needle);
    assert(stands_at(text, needle, at));
}

/// A text that stands nowhere in the body fails, and the failure shows the
/// whole body where that has at most 200 characters, and else the first 200 of
/// them and three dots. Without a body there is only the empty text.
pub proof fn text_that_is_nowhere_fails(
    needle: Seq<char>,
    method: Seq<char>,
    path: Seq<char>,
    status: u16,
    body: Option<Seq<u8>>,
    text: Seq<char>,
)
    requires
        match body {
            Some(b) => text == utf8_lossy(b),
            None => text.len() == 0,
        },
        forall|at: int|
            0 <= at <= text.len() - needle.len() ==> #[trigger] text.subrange(
                at,
                at + needle.len(),
            ) != needle,
    ensures
        ({
            let v = verdict(only_text(needle), method, path, status, body);
            &&& v.passed == 0
            &&& v.failures =~= seq![
                CheckFailureView {
                    method,
                    path,
                    check: "body_contains"@,
                    expected: needle,
                    actual: if text.len() <= 200 {
                        text
                    } else {
                        text.subrange(0, 200) + seq!['.', '.', '.']
                    },
                },
            ]
        }),
{
    reveal_strlit("...");
    assert("..."@ =~= seq!['.', '.', '.']);
    if body is None {
        assert(text =~= seq![]);
    }
    if contains_text(text, needle) {
        let at = choose|at: int| stands_at(text, needle, at);
        assert(text.subrange(at, at + needle.len()) == needle);
    }
    if text.len() > 200 {
        assert(text.take(200) =~= text.subrange(0, 200));
    }
}

/// Whether a body is an object with this member.
pub open spec fn has_member(body: Option<Seq<u8>>, key: Seq<char>, wanted: JsonView) -> bool {
    body matches Some(b) && (json_parse(b) matches Some(JsonView::Object(all)) && exists|i: int|
        0 <= i < all.len() && (#[trigger] all[i]).0 == key && all[i].1.same(wanted))
}

/// How many of the members a body has.
pub open spec fn members_held(
    members: Seq<(Seq<char>, JsonView)>,
    body: Option<Seq<u8>>,
) -> nat
    decreases members.len(),
{
    if members.len() == 0 {
        0
    } else {
        members_held(members.drop_last(), body) + (if has_member(
            body,
            members.last().0,
            members.last().1,
        ) {
            1nat
        } else {
            0
        })
    }
}

proof fn member_is_listed(all: Seq<(Seq<char>, JsonView)>, key: Seq<char>)
    requires
        keys_ascend(all),
    ensures
        member(all, key) is None <==> forall|i: int|
            0 <= i < all.len() ==> (#[trigger] all[i]).0 != key,
        forall|i: int|
            0 <= i < all.len() && (#[trigger] all[i]).0 == key ==> member(all, key) == Some(
                all[i].1,
            ),
    decreases all.len(),
{
    if all.len() > 0 {
        let rest = all.drop_first();
        assert(forall|i: int| 0 <= i < rest.len() ==> #[trigger] rest[i] == all[i + 1]);
        assert(keys_ascend(rest)) by {
            assert forall|i: int, j: int| 0 <= i < j < rest.len() implies text_less(
                #[trigger] rest[i].0,
                #[trigger] rest[j].0,
            ) by {
                assert(text_less(all[i + 1].0, all[j + 1].0));
            }
        }
        member_is_listed(rest, key);
        assert forall|i: int| 0 <= i < all.len() && (#[trigger] all[i]).0 == key implies member(
            all,
            key,
        ) == Some(all[i].1) by {
            if i > 0 {
                assert(text_less(all[0].0, all[i].0));
                text_order_is_total(all[0].0, all[i].0);
                assert(rest[i - 1] == all[i]);
            }
        }
        if member(all, key) is None {
            assert forall|i: int| 0 <= i < all.len() implies (#[trigger] all[i]).0 != key by {
                if i > 0 {
                    assert(rest[i - 1].0 != key);
                }
            }
        } else if all[0].0 != key {
            let i = choose|i: int| 0 <= i < rest.len() && (#[trigger] rest[i]).0 == key;
            assert(all[i + 1].0 == key);
        }
    }
}

/// Of the members of an expected object as many checks pass as the body has
/// members with these keys and values, and the others fail. Another value than
/// an object expects nothing.
pub proof fn members_have_to_be_there(
    wanted: JsonView,
    method: Seq<char>,
    path: Seq<char>,
    status: u16,
    body: Option<Seq<u8>>,
)
    requires
        body matches Some(b) ==> (json_parse(b) matches Some(j) ==> j.wf()),
    ensures
        ({
            let v = verdict(only_json(wanted), method, path, status, body);
            match wanted {
                JsonView::Object(members) => v.passed == members_held(members, body)
                    && v.passed + v.failures.len() == members.len(),
                _ => v.passed == 0 && v.failures.len() == 0,
            }
        }),
{
    if let JsonView::Object(members) = wanted {
        members_are_counted(members, method, path, body_json(body));
        held_members_pass(members, method, path, body);
    }
}

proof fn held_members_pass(
    members: Seq<(Seq<char>, JsonView)>,
    method: Seq<char>,
    path: Seq<char>,
    body: Option<Seq<u8>>,
)
    requires
        body matches Some(b) ==> (json_parse(b) matches Some(j) ==> j.wf()),
    ensures
        members_verdict(members, method, path, body_json(body)).passed == members_held(
            members,
            body,
        ),
    decreases members.len(),
{
    if members.len() > 0 {
        held_members_pass(members.drop_last(), method, path, body);
        if let Some(JsonView::Object(all)) = body_json(body) {
            let (key, wanted) = members.last();
            member_is_listed(all, key);
            if has_member(body, key, wanted) {
                let i = choose|i: int|
                    0 <= i < all.len() && (#[trigger] all[i]).0 == key && all[i].1.same(wanted);
                assert(member(all, key) == Some(all[i].1));
            } else if member(all, key) is Some {
                let i = choose|i: int| 0 <= i < all.len() && (#[trigger] all[i]).0 == key;
                assert(member(all, key) == Some(all[i].1));
            }
        }
    }
}

/// A member that fails tells its key, what was expected, and what came
/// instead: its value, or that it is missing, or that the body is no JSON.
pub proof fn failed_member_is_told(
    key: Seq<char>,
    wanted: JsonView,
    method: Seq<char>,
    path: Seq<char>,
    status: u16,
    body: Option<Seq<u8>>,
)
    requires
        body matches Some(b) ==> (json_parse(b) matches Some(j) ==> j.wf()),
        !has_member(body, key, wanted),
    ensures
        verdict(
            only_json(JsonView::Object(seq![(key, wanted)])),
            method,
            path,
            status,
            body,
        ).failures =~= seq![
            CheckFailureView {
                method,
                path,
                check: "json."@ + key,
                expected: json_text(wanted),
                actual: match body {
                    None => "<body not json>"@,
                    Some(b) => match json_parse(b) {
                        None => "<body not json>"@,
                        Some(v) => match v.get_key(key) {
                            None => "<missing>"@,
                            Some(found) => json_text(found),
                        },
                    },
                },
            },
        ],
{
    let members = seq![(key, wanted)];
    assert(members.drop_last() =~= seq![]);
    assert(members_verdict(members.drop_last(), method, path, body_json(body)) == no_checks());
    held_members_pass(members, method, path, body);
    assert(members_held(members.drop_last(), body) == 0);
    assert(members_held(members, body) == 0);
    let v = member_verdict(key, wanted, method, path, body_json(body));
    assert(members_verdict(members, method, path, body_json(body)) == no_checks().then_also(v));
    assert(seq![] + v.failures =~= v.failures);
}

/// An expectation of several things is each of them alone: the status, then
/// the text, then the JSON, as far as they are expected.
pub proof fn expectations_are_independent(
    expect: ExpectView,
    method: Seq<char>,
    path: Seq<char>,
    status: u16,
    body: Option<Seq<u8>>,
)
    ensures
        ({
            let (n, first) = match expect.status {
                Some(wanted) => {
                    let v = verdict(only_status(wanted), method, path, status, body);
                    (v.passed, v.failures)
                },
                None => (0nat, Seq::<CheckFailureView>::empty()),
            };
            let (o, second) = match expect.body_contains {
                Some(needle) => {
                    let v = verdict(only_text(needle), method, path, status, body);
                    (v.passed, v.failures)
                },
                None => (0nat, Seq::<CheckFailureView>::empty()),
            };
            let (p, third) = match expect.json {
                Some(wanted) => {
                    let v = verdict(only_json(wanted), method, path, status, body);
                    (v.passed, v.failures)
                },
                None => (0nat, Seq::<CheckFailureView>::empty()),
            };
            let v = verdict(expect, method, path, status, body);
            &&& v.passed == n + o + p
            &&& v.failures =~= first + second + third
        }),
{
}

/// A reply that was read to its end keeps its status, and its body's length
/// are its bytes; the body itself is kept where that is asked for. What is
/// expected is judged by both. One whose body could not be read, and a request
/// without a reply, have no bytes and no body.
pub proof fn replies_are_kept(
    reply: Result<Reply, ConnError>,
    latency_us: u64,
    req: RequestView,
)
    ensures
        ({
            let result = result_of(reply, latency_us, req);
            &&& result.latency_us == latency_us
            &&& match reply {
                Ok(r) => match r.body {
                    Ok(b) => {
                        &&& result.status == r.status
                        &&& result.is_success
                        &&& result.error is None
                        &&& result.bytes == b@.len()
                        &&& result.body == if req.capture_body {
                            Some(b@)
                        } else {
                            None
                        }
                        &&& req.expect is None ==> result.check_passed == 0
                            && result.check_failures.len() == 0
                        &&& req.expect matches Some(e) ==> {
                            let v = verdict(e, req.method, req.path, r.status, Some(b@));
                            result.check_passed == v.passed && result.check_failures == v.failures
                        }
                    },
                    Err(_) => result.bytes == 0 && result.body is None && !result.is_success
                        && result.status == 0,
                },
                Err(e) => {
                    &&& result.bytes == 0 && result.body is None && !result.is_success
                    &&& result.status == 0
                    &&& result.error == Some(e)
                    &&& result.check_passed == 0 && result.check_failures.len() == 0
                },
            }
        }),
{
    if let Ok(r) = reply {
        if let Ok(b) = r.body {
            assert(b@.len() == b.len());
        }
    }
}

// ----------------------------------------------------------------------
// Laws of failures
// ----------------------------------------------------------------------

/// The category of an error is that of the first I/O or TLS error among its
/// causes, whatever stands before and after it: a timeout, a refusal, a
/// connection that broke off, a name that leads nowhere, or TLS. Without one
/// it is none of these.
pub proof fn first_known_cause_decides(before: Seq<ErrorLink>, after: Seq<ErrorLink>)
    requires
        forall|i: int| 0 <= i < before.len() ==> #[trigger] before[i] == ErrorLink::Other,
    ensures
        category(before) == ConnError::Other,
        category(before + seq![ErrorLink::Tls] + after) == ConnError::Tls,
        category(before + seq![ErrorLink::Io(IoKind::TimedOut)] + after) == ConnError::Timeout,
        category(before + seq![ErrorLink::Io(IoKind::ConnectionRefused)] + after)
            == ConnError::Refused,
        category(before + seq![ErrorLink::Io(IoKind::ConnectionReset)] + after) == ConnError::Reset,
        category(before + seq![ErrorLink::Io(IoKind::ConnectionAborted)] + after)
            == ConnError::Reset,
        category(before + seq![ErrorLink::Io(IoKind::BrokenPipe)] + after) == ConnError::Reset,
        category(before + seq![ErrorLink::Io(IoKind::UnexpectedEof)] + after) == ConnError::Reset,
        category(before + seq![ErrorLink::Io(IoKind::AddrNotAvailable)] + after) == ConnError::Dns,
        category(before + seq![ErrorLink::Io(IoKind::NotFound)] + after) == ConnError::Dns,
        category(before + seq![ErrorLink::Io(IoKind::Other)] + after) == ConnError::Other,
{
    only_others(before);
    known_cause(before, ErrorLink::Tls, after);
    known_cause(before, ErrorLink::Io(IoKind::TimedOut), after);
    known_cause(before, ErrorLink::Io(IoKind::ConnectionRefused), after);
    known_cause(before, ErrorLink::Io(IoKind::ConnectionReset), after);
    known_cause(before, ErrorLink::Io(IoKind::ConnectionAborted), after);
    known_cause(before, ErrorLink::Io(IoKind::BrokenPipe), after);
    known_cause(before, ErrorLink::Io(IoKind::UnexpectedEof), after);
    known_cause(before, ErrorLink::Io(IoKind::AddrNotAvailable), after);
    known_cause(before, ErrorLink::Io(IoKind::NotFound), after);
    known_cause(before, ErrorLink::Io(IoKind::Other), after);
}

proof fn only_others(chain: Seq<ErrorLink>)
    requires
        forall|i: int| 0 <= i < chain.len() ==> #[trigger] chain[i] == ErrorLink::Other,
    ensures
        category(chain) == ConnError::Other,
    decreases chain.len(),
{
    if chain.len() > 0 {
        assert(chain[0] == ErrorLink::Other);
        assert forall|i: int| 0 <= i < chain.len() - 1 implies #[trigger] chain.drop_first()[i]
            == ErrorLink::Other by {
            assert(chain[i + 1] == ErrorLink::Other);
        }
        only_others(chain.drop_first());
    }
}

proof fn known_cause(before: Seq<ErrorLink>, link: ErrorLink, after: Seq<ErrorLink>)
    requires
        forall|i: int| 0 <= i < before.len() ==> #[trigger] before[i] == ErrorLink::Other,
        link != ErrorLink::Other,
    ensures
        category(before + seq![link] + after) == match link {
            ErrorLink::Io(kind) => io_category(kind),
            _ => ConnError::Tls,
        },
    decreases before.len(),
{
    let chain = before + seq![link] + after;
    if before.len() > 0 {
        assert(chain[0] == before[0]);
        assert(chain.drop_first() =~= before.drop_first() + seq![link] + after);
        assert forall|i: int| 0 <= i < before.len() - 1 implies #[trigger] before.drop_first()[i]
            == ErrorLink::Other by {
            assert(before[i + 1] == ErrorLink::Other);
        }
        known_cause(before.drop_first(), link, after);
    } else {
        assert(chain[0] == link);
    }
}

// ----------------------------------------------------------------------
// Laws of addresses and connections
// ----------------------------------------------------------------------

/// A base URL leads to its host and port, through TLS exactly if it begins
/// with `https://`, whatever path follows. Where it has no port, that is 443
/// with TLS and 80 without.
pub proof fn base_url_leads_to_its_host(
    host: Seq<char>,
    port: u16,
    path: Seq<char>,
    insecure: bool,
    http2: bool,
)
    requires
        host.len() > 0,
        forall|i: int| 0 <= i < host.len() ==> host[i] != ':' && host[i] != '/' && host[i] != '[',
    ensures
        ({
            let digits = decimal(port as nat);
            let rest = host + seq![':'] + digits + seq!['/'] + path;
            let bare = host + seq!['/'] + path;
            let secure = base_address("https://"@ + rest, insecure, http2);
            let plain = base_address("http://"@ + rest, insecure, http2);
            let secure_default = base_address("https://"@ + bare, insecure, http2);
            let plain_default = base_address("http://"@ + bare, insecure, http2);
            let settings = Some(TlsSettings { insecure, offers_h2: http2 });
            let name = if is_server_name(host) {
                Some(host)
            } else {
                None
            };
            &&& secure.addr == host + seq![':'] + digits
            &&& secure.tls == settings
            &&& secure.server_name == name
            &&& plain.addr == host + seq![':'] + digits
            &&& plain.tls is None
            &&& plain.server_name is None
            &&& secure_default.addr == host + seq![':'] + seq!['4', '4', '3']
            &&& secure_default.tls == settings
            &&& secure_default.server_name == name
            &&& plain_default.addr == host + seq![':'] + seq!['8', '0']
            &&& plain_default.tls is None
        }),
{
    let digits = decimal(port as nat);
    reveal_strlit(":");
    reveal_strlit("https://");
    reveal_strlit("http://");
    assert(":"@ =~= seq![':']);
    decimal_is_digits(port as nat);
    decimal_of_ports();
    let whole = host + seq![':'] + digits;
    let rest = whole + seq!['/'] + path;
    let bare = host + seq!['/'] + path;
    authority_is_first(whole, path);
    authority_is_first(host, path);
    assert(rest =~= host + seq![':'] + digits + seq!['/'] + path);
    prefix_is_scheme(rest);
    prefix_is_scheme(bare);
    assert(address(host, port) =~= whole);
    host_and_port_of_address(host, port, true);
    host_and_port_of_address(host, port, false);
    host_without_port(host, true);
    host_without_port(host, false);
}

/// A base URL may leave out its scheme, which is then no TLS, its path, and
/// what follows the colon after its host.
#[verifier::spinoff_prover]
pub proof fn base_url_may_be_a_host(host: Seq<char>, insecure: bool, http2: bool)
    requires
        host.len() > 0,
        forall|i: int| 0 <= i < host.len() ==> host[i] != ':' && host[i] != '/' && host[i] != '[',
    ensures
        ({
            let plain = base_address(host, insecure, http2);
            let secure = base_address("https://"@ + host, insecure, http2);
            &&& plain.addr == host + seq![':', '8', '0']
            &&& plain.tls is None
            &&& plain.server_name is None
            &&& base_address("http://"@ + host, insecure, http2) == plain
            &&& base_address(host + seq![':'], insecure, http2) == plain
            &&& secure.addr == host + seq![':', '4', '4', '3']
            &&& secure.tls == Some(TlsSettings { insecure, offers_h2: http2 })
            &&& base_address("https://"@ + (host + seq![':']), insecure, http2) == secure
        }),
{
    let colon = host + seq![':'];
    prefix_is_scheme(host);
    prefix_is_scheme(colon);
    bare_authority(host);
    has_no_scheme(host);
    has_no_scheme(colon);
    leads_to(host, host, host, false, insecure, http2);
    leads_to("http://"@ + host, host, host, false, insecure, http2);
    leads_to(colon, colon, host, false, insecure, http2);
    leads_to("https://"@ + host, host, host, true, insecure, http2);
    leads_to("https://"@ + colon, colon, host, true, insecure, http2);
}

/// Where a base URL leads that has this scheme and this authority.
proof fn leads_to(
    url: Seq<char>,
    rest: Seq<char>,
    host: Seq<char>,
    is_tls: bool,
    insecure: bool,
    http2: bool,
)
    requires
        scheme(url) == (is_tls, rest),
        authority(rest) == host,
        host.len() > 0,
        forall|i: int| 0 <= i < host.len() ==> host[i] != ':' && host[i] != '[',
    ensures
        base_address(url, insecure, http2) == (ParsedAddrView {
            addr: host + if is_tls {
                seq![':', '4', '4', '3']
            } else {
                seq![':', '8', '0']
            },
            tls: if is_tls {
                Some(TlsSettings { insecure, offers_h2: http2 })
            } else {
                None
            },
            server_name: if is_tls && is_server_name(host) {
                Some(host)
            } else {
                None
            },
        }),
{
    host_without_port(host, is_tls);
    default_addresses(host);
}

proof fn default_addresses(host: Seq<char>)
    ensures
        address(host, 443) == host + seq![':', '4', '4', '3'],
        address(host, 80) == host + seq![':', '8', '0'],
{
    reveal_strlit(":");
    assert(":"@ =~= seq![':']);
    decimal_of_ports();
    assert(address(host, 443) =~= host + seq![':', '4', '4', '3']);
    assert(address(host, 80) =~= host + seq![':', '8', '0']);
}

proof fn bare_authority(host: Seq<char>)
    requires
        host.len() > 0,
        forall|i: int| 0 <= i < host.len() ==> host[i] != ':' && host[i] != '/',
    ensures
        authority(host) == host,
        authority(host + seq![':']) == host,
{
    let colon = host + seq![':'];
    find_from_is_first(host, '/', 0);
    find_from_is_first(colon, '/', 0);
    assert forall|i: int| 0 <= i < colon.len() implies colon[i] != '/' by {
        if i < host.len() {
            assert(colon[i] == host[i]);
        }
    }
    assert(find_first(host, '/') == host.len());
    assert(find_first(colon, '/') == colon.len());
    assert(host.take(host.len() as int) =~= host);
    assert(colon.take(colon.len() as int) =~= colon);
    assert(colon.last() == ':');
    assert(colon.drop_last() =~= host);
    assert(host[host.len() - 1] != ':');
    assert(trim_end_char(host, ':') == host);
    assert(trim_end_char(colon, ':') == trim_end_char(host, ':'));
}

proof fn has_no_scheme(rest: Seq<char>)
    requires
        forall|i: int| 0 <= i < rest.len() ==> rest[i] != '/',
    ensures
        scheme(rest) == (false, rest),
{
    reveal_strlit("https://");
    reveal_strlit("http://");
    if "https://"@.is_prefix_of(rest) {
        assert(rest[6] == "https://"@[6]);
    }
    if "http://"@.is_prefix_of(rest) {
        assert(rest[5] == "http://"@[5]);
    }
}

pub(crate) proof fn decimal_of_ports()
    ensures
        decimal(443) == seq!['4', '4', '3'],
        decimal(80) == seq!['8', '0'],
{
    reveal_with_fuel(decimal, 4);
    assert(decimal(443) =~= seq!['4', '4', '3']);
    assert(decimal(80) =~= seq!['8', '0']);
}

proof fn prefix_is_scheme(rest: Seq<char>)
    requires
        rest.len() > 0,
    ensures
        scheme("https://"@ + rest) == (true, rest),
        scheme("http://"@ + rest) == (false, rest),
{
    reveal_strlit("https://");
    reveal_strlit("http://");
    assert(("https://"@ + rest).skip(8) =~= rest);
    assert(("http://"@ + rest).skip(7) =~= rest);
    assert("https://"@.is_prefix_of("https://"@ + rest));
    assert("http://"@.is_prefix_of("http://"@ + rest));
    if "https://"@.is_prefix_of("http://"@ + rest) {
        assert(("http://"@ + rest)[4] == "https://"@[4]);
    }
}

pub(crate) proof fn authority_is_first(whole: Seq<char>, path: Seq<char>)
    requires
        whole.len() > 0,
        whole.last() != ':',
        forall|i: int| 0 <= i < whole.len() ==> whole[i] != '/',
    ensures
        authority(whole + seq!['/'] + path) == whole,
{
    let rest = whole + seq!['/'] + path;
    find_from_is_first(rest, '/', 0);
    let at = find_first(rest, '/');
    assert(rest[whole.len() as int] == '/');
    if at < whole.len() {
        assert(rest[at] == whole[at]);
    }
    assert(rest.take(at) =~= whole);
}

/// A connection goes up through TCP, TLS where it is used, and the handshake,
/// in this order. At any stage it gives up after a timeout; it gives up as a
/// failure of TLS where TLS fails, and otherwise for what is behind the
/// failure.
pub proof fn connections_go_up_in_order(uses_tls: bool, stage: LinkStage, chain: Vec<ErrorLink>)
    ensures
        link_step(true, LinkStage::Tcp, LinkEvent::Done) == LinkStep::Go(LinkStage::Tls),
        link_step(false, LinkStage::Tcp, LinkEvent::Done) == LinkStep::Go(LinkStage::Handshake),
        link_step(uses_tls, LinkStage::Tls, LinkEvent::Done) == LinkStep::Go(LinkStage::Handshake),
        link_step(uses_tls, LinkStage::Handshake, LinkEvent::Done) == LinkStep::Up,
        link_step(uses_tls, stage, LinkEvent::TimedOut) == LinkStep::Down(ConnError::Timeout),
        link_step(uses_tls, stage, LinkEvent::Failed(chain)) == LinkStep::Down(
            if stage == LinkStage::Tls {
                ConnError::Tls
            } else {
                category(chain@)
            },
        ),
{
}

/// What is sent on an open connection is the request with its method, path and
/// body, and with the address as its host before its own headers. A request
/// that cannot be built, a connection that does not open, and one on which
/// sending breaks off, fail each for its own reason; only the last one is
/// closed by it.
pub proof fn requests_go_out_whole(
    open: bool,
    addr: Seq<char>,
    req: RequestView,
    e: ConnError,
    chain: Vec<ErrorLink>,
)
    ensures
        ({
            let headers = seq![("Host"@, addr)] + req.headers;
            let body = match req.body {
                Some(b) => b,
                None => Seq::<u8>::empty(),
            };
            let sent = match http_request(req.method, req.path, headers, body) {
                Some(r) => SendStep::Transmit(r),
                None => SendStep::Fail(ConnError::Other),
            };
            &&& send_step(true, addr, req, SendEvent::Begin) == (true, sent)
            &&& send_step(open, addr, req, SendEvent::Connected) == (true, sent)
            &&& send_step(false, addr, req, SendEvent::Begin) == (false, SendStep::Connect)
            &&& send_step(open, addr, req, SendEvent::ConnectFailed(e)) == (open, SendStep::Fail(e))
            &&& send_step(open, addr, req, SendEvent::Broken(chain)) == (
                false,
                SendStep::Fail(category(chain@)),
            )
        }),
{
}

/// The pool has eight connections: eight requests in a row use eight different
/// ones, and the ninth uses the first again.
pub proof fn eight_connections_are_shared(count: u64, i: nat, j: nat)
    requires
        i < j <= 8,
    ensures
        0 <= turn(turns_later(count, i)) < 8,
        turn(turns_later(count, i)) == turn(turns_later(count, j)) <==> i == 0 && j == 8,
{
    requests_take_turns(count, i, j);
    turn_moves_on(count, i);
}

}

//! Server-sent events: taking a stream apart, and the virtual users that
//! listen to one.

use vstd::prelude::*;
use vstd::slice::{slice_subrange, slice_to_vec};
use vstd::utf8::encode_utf8;

use crate::client::{
    copy_expect, copy_pairs, error_label, evaluate_expect, expect_view, expect_wf, pairs_view,
    verdict, CheckFailure, ConnError, ExpectSpec, ExpectView, Request, RequestView,
};
use crate::metrics::{
    after_checks, after_conn_error, after_event, count_in, fresh_metrics, Metrics, MetricsView,
};
use crate::text::{
    chars_of, find_first, find_from_is_first, from_utf8_lossy, lines, next_line, push_chars,
    stands_at, starts_with, trim_end_char, utf8_lossy, without_trailing,
};

verus! {

broadcast use vstd::string::group_string_axioms;

// ----------------------------------------------------------------------
// Events
// ----------------------------------------------------------------------

/// The bytes of two ends of lines.
pub open spec fn two_newlines() -> Seq<u8> {
    seq![10u8, 10u8]
}

/// The bytes of two ends of lines with carriage returns.
pub open spec fn two_returns() -> Seq<u8> {
    seq![13u8, 10u8, 13u8, 10u8]
}

/// The first empty line that is not before `from`: where it begins, and how
/// many bytes end the event there.
pub open spec fn boundary(buf: Seq<u8>, from: int) -> Option<(int, int)>
    decreases buf.len() - from,
{
    if from < 0 || from + 1 >= buf.len() {
        None
    } else if stands_at(buf, two_newlines(), from) {
        Some((from, 2))
    } else if stands_at(buf, two_returns(), from) {
        Some((from, 4))
    } else {
        boundary(buf, from + 1)
    }
}

/// The data in a line of an event.
pub open spec fn data_field(line: Seq<char>) -> Option<Seq<char>> {
    let l = trim_end_char(line, '\r');
    if "data:"@.is_prefix_of(l) {
        let v = l.skip(5);
        Some(
            if v.len() > 0 && v[0] == ' ' {
                v.skip(1)
            } else {
                v
            },
        )
    } else {
        None
    }
}

/// The data in the lines of an event.
pub open spec fn data_fields(all: Seq<Seq<char>>) -> Seq<Seq<char>>
    decreases all.len(),
{
    if all.len() == 0 {
        seq![]
    } else {
        match data_field(all[0]) {
            Some(v) => seq![v] + data_fields(all.drop_first()),
            None => data_fields(all.drop_first()),
        }
    }
}

/// The parts with an end of line between each two.
pub open spec fn joined(parts: Seq<Seq<char>>) -> Seq<char>
    decreases parts.len(),
{
    if parts.len() == 0 {
        seq![]
    } else if parts.len() == 1 {
        parts[0]
    } else {
        joined(parts.drop_last()) + seq!['\n'] + parts.last()
    }
}

/// The data of an event.
pub open spec fn sse_data(block: Seq<u8>) -> Seq<char> {
    joined(data_fields(lines(utf8_lossy(block))))
}

/// The first event in a stream: how many bytes it takes, and its data.
pub open spec fn first_event(buf: Seq<u8>) -> Option<(int, Seq<char>)> {
    match boundary(buf, 0) {
        Some((at, len)) => Some((at + len, sse_data(buf.take(at)))),
        None => None,
    }
}

/// The data of an event: its `data` fields, with an end of line between each
/// two.
pub fn parse_sse_data(block: &[u8]) -> (data: String)
    ensures
        data@ == sse_data(block@),
{
    let text: String = from_utf8_lossy(block);
    let chars: Vec<char> = chars_of(text.as_str());
    let ghost whole = data_fields(lines(chars@));
    let ghost mut done: Seq<Seq<char>> = seq![];
    let mut data: String = String::new();
    let mut first: bool = true;
    let mut from: usize = 0;
    assert(chars@.skip(0) =~= chars@);
    assert(done + whole =~= whole);
    assert(data@ =~= joined(done));
    while from < chars.len()
        invariant
            from <= chars@.len(),
            done + data_fields(lines(chars@.skip(from as int))) == whole,
            data@ == joined(done),
            first == (done.len() == 0),
        decreases chars@.len() - from,
    {
        let (end, next): (usize, usize) = next_line(&chars, from);
        let ghost rest = lines(chars@.skip(from as int));
        let ghost before = done;
        let line: &[char] = without_trailing(slice_subrange(chars.as_slice(), from, end), '\r');
        proof {
            reveal_strlit("data:");
            assert(rest[0] == chars@.subrange(from as int, end as int));
            assert(rest.drop_first() =~= lines(chars@.skip(next as int)));
        }
        if starts_with(line, "data:") {
            let mut value: &[char] = slice_subrange(line, 5, line.len());
            assert(value@ =~= line@.skip(5));
            if value.len() > 0 && value[0] == ' ' {
                let tail: &[char] = slice_subrange(value, 1, value.len());
                assert(tail@ =~= value@.skip(1));
                value = tail;
            }
            if !first {
                data.push('\n');
            }
            push_chars(&mut data, value);
            first = false;
            proof {
                done = done.push(value@);
                assert(done.drop_last() =~= before);
                assert(data@ =~= joined(done));
                assert(done + data_fields(rest.drop_first()) =~= before + data_fields(rest));
            }
        }
        from = next;
    }
    assert(chars@.skip(from as int).len() == 0);
    assert(done =~= whole);
    data
}

/// The first event in a stream: how many bytes to consume, and its data.
pub fn next_event(buf: &[u8]) -> (event: Option<(usize, String)>)
    ensures
        match event {
            Some((consume, data)) => first_event(buf@) == Some((consume as int, data@)) && 2
                <= consume <= buf@.len(),
            None => first_event(buf@) is None,
        },
{
    let len: usize = buf.len();
    let mut i: usize = 0;
    while i < len && i + 1 < len
        invariant
            len == buf@.len(),
            i <= len,
            boundary(buf@, i as int) == boundary(buf@, 0),
        decreases len - i,
    {
        proof {
            if stands_at(buf@, two_newlines(), i as int) {
                let s = buf@.subrange(i as int, i + 2);
                assert(s[0] == 10 && s[1] == 10);
            }
            if stands_at(buf@, two_returns(), i as int) {
                let s = buf@.subrange(i as int, i + 4);
                assert(s[0] == 13 && s[1] == 10 && s[2] == 13 && s[3] == 10);
            }
        }
        if buf[i] == 10 && buf[i + 1] == 10 {
            assert(buf@.subrange(i as int, i + 2) =~= two_newlines());
            let block: &[u8] = slice_subrange(buf, 0, i);
            assert(block@ =~= buf@.take(i as int));
            return Some((i + 2, parse_sse_data(block)));
        }
        if len - i > 3 && buf[i] == 13 && buf[i + 1] == 10 && buf[i + 2] == 13 && buf[i + 3] == 10 {
            assert(buf@.subrange(i as int, i + 4) =~= two_returns());
            let block: &[u8] = slice_subrange(buf, 0, i);
            assert(block@ =~= buf@.take(i as int));
            return Some((i + 4, parse_sse_data(block)));
        }
        i += 1;
    }
    None
}

/// All events in a stream, and what follows the last of them.
pub open spec fn events(buf: Seq<u8>) -> (Seq<Seq<char>>, Seq<u8>)
    decreases buf.len(),
{
    match first_event(buf) {
        Some((n, data)) => if 0 < n <= buf.len() {
            let (more, rest) = events(buf.skip(n));
            (seq![data] + more, rest)
        } else {
            (seq![], buf)
        },
        None => (seq![], buf),
    }
}

/// The events of a stream that comes in chunks, and what follows the last of
/// them.
pub open spec fn events_of_chunks(chunks: Seq<Seq<u8>>) -> (Seq<Seq<char>>, Seq<u8>)
    decreases chunks.len(),
{
    if chunks.len() == 0 {
        (seq![], seq![])
    } else {
        let (before, rest) = events_of_chunks(chunks.drop_last());
        let (more, tail) = events(rest + chunks.last());
        (before + more, tail)
    }
}

/// All chunks, one after the other.
pub open spec fn concatenated(chunks: Seq<Seq<u8>>) -> Seq<u8>
    decreases chunks.len(),
{
    if chunks.len() == 0 {
        seq![]
    } else {
        concatenated(chunks.drop_last()) + chunks.last()
    }
}

proof fn boundary_is_inside(buf: Seq<u8>, from: int)
    requires
        0 <= from,
    ensures
        boundary(buf, from) matches Some((at, len)) ==> from <= at && at + len <= buf.len()
            && (len == 2 || len == 4),
    decreases buf.len() - from,
{
    if from + 1 < buf.len() && !stands_at(buf, two_newlines(), from) && !stands_at(
        buf,
        two_returns(),
        from,
    ) {
        boundary_is_inside(buf, from + 1);
    }
}

/// An empty line in a stream stays the first one when more comes.
proof fn boundary_stays(buf: Seq<u8>, more: Seq<u8>, from: int)
    requires
        0 <= from,
        boundary(buf, from) is Some,
    ensures
        boundary(buf + more, from) == boundary(buf, from),
    decreases buf.len() - from,
{
    let all = buf + more;
    assert(all.subrange(from, from + 2) =~= buf.subrange(from, from + 2));
    if from + 4 <= buf.len() {
        assert(all.subrange(from, from + 4) =~= buf.subrange(from, from + 4));
    }
    if !stands_at(buf, two_newlines(), from) && !stands_at(buf, two_returns(), from) {
        boundary_stays(buf, more, from + 1);
        if stands_at(all, two_returns(), from) {
            // Then the line that the boundary in `buf` ends would begin with
            // a carriage return that stands where its end of line is.
            let s = all.subrange(from, from + 4);
            assert(s[0] == 13 && s[1] == 10 && s[2] == 13 && s[3] == 10);
            let (at, len) = boundary(buf, from + 1)->0;
            boundary_is_inside(buf, from + 1);
            boundary_ends_a_line(buf, from + 1);
            assert(buf[at] == all[at] && buf[at + 1] == all[at + 1]);
            assert(false);
        }
    }
}

proof fn boundary_ends_a_line(buf: Seq<u8>, from: int)
    requires
        0 <= from,
        boundary(buf, from) is Some,
    ensures
        ({
            let (at, len) = boundary(buf, from)->0;
            &&& from <= at
            &&& at + len <= buf.len()
            &&& len == 2 ==> buf[at] == 10 && buf[at + 1] == 10
            &&& len == 4 ==> buf[at] == 13 && buf[at + 1] == 10 && buf[at + 2] == 13 && buf[at + 3]
                == 10
            &&& len == 2 || len == 4
        }),
    decreases buf.len() - from,
{
    if stands_at(buf, two_newlines(), from) {
        let s = buf.subrange(from, from + 2);
        assert(s[0] == 10 && s[1] == 10);
    } else if stands_at(buf, two_returns(), from) {
        let s = buf.subrange(from, from + 4);
        assert(s[0] == 13 && s[1] == 10 && s[2] == 13 && s[3] == 10);
    } else {
        boundary_ends_a_line(buf, from + 1);
    }
}

/// What has been taken out of the beginning of a stream does not change when
/// more comes.
pub proof fn events_come_as_they_are(buf: Seq<u8>, more: Seq<u8>)
    ensures
        events(buf + more).0 == events(buf).0 + events(events(buf).1 + more).0,
        events(buf + more).1 == events(events(buf).1 + more).1,
    decreases buf.len(),
{
    match first_event(buf) {
        Some((n, data)) => {
            let (at, len) = boundary(buf, 0)->0;
            boundary_is_inside(buf, 0);
            boundary_stays(buf, more, 0);
            assert((buf + more).take(at) =~= buf.take(at));
            assert((buf + more).skip(n) =~= buf.skip(n) + more);
            events_come_as_they_are(buf.skip(n), more);
            assert(events(buf + more).0 =~= events(buf).0 + events(events(buf).1 + more).0);
        },
        None => {
            assert(events(buf + more).0 =~= events(buf).0 + events(events(buf).1 + more).0);
        },
    }
}

/// The events of a stream do not depend on how it was cut into chunks.
pub proof fn chunks_do_not_matter(chunks: Seq<Seq<u8>>)
    ensures
        events_of_chunks(chunks) == events(concatenated(chunks)),
    decreases chunks.len(),
{
    if chunks.len() > 0 {
        chunks_do_not_matter(chunks.drop_last());
        events_come_as_they_are(concatenated(chunks.drop_last()), chunks.last());
    }
}

/// A line of data is read back, unless it ends with a carriage return.
pub proof fn data_line_reads_back(value: Seq<char>)
    requires
        value.len() > 0 ==> value.last() != '\r',
    ensures
        data_field("data: "@ + value) == Some(value),
{
    reveal_strlit("data: ");
    reveal_strlit("data:");
    let line = "data: "@ + value;
    assert(trim_end_char(line, '\r') == line);
    assert("data:"@.is_prefix_of(line));
    assert(line.skip(5)[0] == ' ');
    assert(line.skip(5).skip(1) =~= value);
}

/// The lines of data of an event are read back, one after the other.
pub proof fn data_lines_read_back(values: Seq<Seq<char>>)
    requires
        forall|i: int|
            0 <= i < values.len() && (#[trigger] values[i]).len() > 0 ==> values[i].last() != '\r',
    ensures
        data_fields(values.map_values(|v: Seq<char>| "data: "@ + v)) == values,
    decreases values.len(),
{
    let all = values.map_values(|v: Seq<char>| "data: "@ + v);
    if values.len() > 0 {
        let rest = values.drop_first();
        assert forall|i: int|
            0 <= i < rest.len() && (#[trigger] rest[i]).len() > 0 implies rest[i].last()
            != '\r' by {
            assert(rest[i] == values[i + 1]);
        }
        data_line_reads_back(values[0]);
        data_lines_read_back(rest);
        assert(all.drop_first() =~= rest.map_values(|v: Seq<char>| "data: "@ + v));
        assert(seq![values[0]] + rest =~= values);
    } else {
        assert(data_fields(all) =~= values);
    }
}

// ----------------------------------------------------------------------
// Virtual users
// ----------------------------------------------------------------------

/// A stream of events to listen to.
#[derive(Debug)]
pub struct SseConfig {
    pub path: String,
    pub headers: Vec<(String, String)>,
    pub expect: Option<ExpectSpec>,
}

/// What a `SseConfig` holds.
pub struct SseView {
    pub path: Seq<char>,
    pub headers: Seq<(Seq<char>, Seq<char>)>,
    pub expect: Option<ExpectView>,
}

impl View for SseConfig {
    type V = SseView;

    open spec fn view(&self) -> SseView {
        SseView {
            path: self.path@,
            headers: pairs_view(self.headers@),
            expect: expect_view(self.expect),
        }
    }
}

/// The request that opens a stream.
pub open spec fn stream_request(sse: SseView) -> RequestView {
    RequestView {
        method: "GET"@,
        path: sse.path,
        headers: sse.headers,
        body: None,
        capture_body: false,
        expect: None,
    }
}

/// A configuration that asks for a stream of events.
pub open spec fn accepting(sse: SseView) -> SseView {
    SseView { headers: sse.headers.push(("Accept"@, "text/event-stream"@)), ..sse }
}

/// The metrics after one event of a stream.
pub open spec fn after_sse_event(
    m: MetricsView,
    at_secs: u64,
    data: Seq<char>,
    sse: SseView,
) -> MetricsView {
    let bytes = encode_utf8(data);
    let counted = after_event(m, at_secs, bytes.len() as u64);
    match sse.expect {
        Some(e) => {
            let v = verdict(e, "GET"@, sse.path, 200, Some(bytes));
            after_checks(counted, v.passed, v.failures)
        },
        None => counted,
    }
}

/// The metrics after events of a stream.
pub open spec fn after_sse_events(
    m: MetricsView,
    at_secs: u64,
    all: Seq<Seq<char>>,
    sse: SseView,
) -> MetricsView
    decreases all.len(),
{
    if all.len() == 0 {
        m
    } else {
        after_sse_event(
            after_sse_events(m, at_secs, all.drop_last(), sse),
            at_secs,
            all.last(),
            sse,
        )
    }
}

/// Where a virtual user is.
#[derive(Clone, Copy, Debug, PartialEq, Eq, Structural)]
pub enum SsePhase {
    /// Before its share of the ramp-up has passed.
    Ramping,
    /// Before it has a connection.
    Starting,
    /// Getting a connection.
    Opening,
    /// Between streams.
    Deciding,
    /// After asking for a stream.
    Sending,
    /// After a connection that failed.
    Resting,
    /// Between the chunks of a stream.
    Streaming,
    /// Waiting for a chunk.
    Reading,
    Done,
}

/// What a virtual user learns.
#[derive(Debug)]
pub enum SseEvent {
    /// What it asked for has been done.
    Resume,
    /// Whether the end is still ahead.
    Clock(bool),
    /// The status of the reply, or why there is none.
    Sent(Result<u16, ConnError>),
    /// A chunk of the stream.
    Data(Vec<u8>),
    /// Something in the stream that holds no data.
    Other,
    /// The end of the stream, or its failure.
    Ended,
}

/// What a virtual user asks for.
#[derive(Debug)]
pub enum SseAction {
    /// Wait for its share of the ramp-up.
    RampUp,
    /// Make a connection.
    Open,
    /// Tell the time.
    AskClock,
    /// Send a request.
    Send(Request),
    /// Wait for 10 milliseconds.
    Rest,
    /// Read from the stream.
    Read,
    /// Nothing more.
    Stop,
}

/// What a `SseAction` holds.
pub enum SseActionView {
    RampUp,
    Open,
    AskClock,
    Send(RequestView),
    Rest,
    Read,
    Stop,
}

impl View for SseAction {
    type V = SseActionView;

    open spec fn view(&self) -> SseActionView {
        match self {
            SseAction::RampUp => SseActionView::RampUp,
            SseAction::Open => SseActionView::Open,
            SseAction::AskClock => SseActionView::AskClock,
            SseAction::Send(r) => SseActionView::Send(r@),
            SseAction::Rest => SseActionView::Rest,
            SseAction::Read => SseActionView::Read,
            SseAction::Stop => SseActionView::Stop,
        }
    }
}

/// A virtual user that listens to a stream.
#[derive(Debug)]
pub struct SseVu {
    pub index: u32,
    pub phase: SsePhase,
    /// What has come of an event that is not complete yet.
    pub buf: Vec<u8>,
}

/// What a `SseVu` holds.
pub struct SseVuView {
    pub index: u32,
    pub phase: SsePhase,
    pub buf: Seq<u8>,
}

impl View for SseVu {
    type V = SseVuView;

    open spec fn view(&self) -> SseVuView {
        SseVuView { index: self.index, phase: self.phase, buf: self.buf@ }
    }
}

/// Whether a status means that the stream is open.
pub open spec fn is_success_status(status: u16) -> bool {
    200 <= status < 300
}

impl SseVuView {
    /// In another phase.
    pub open spec fn at(self, phase: SsePhase) -> SseVuView {
        SseVuView { phase, ..self }
    }

    /// What follows an event. What is not expected ends it.
    pub open spec fn step(self, sse: SseView, event: SseEvent) -> (SseVuView, SseActionView) {
        match (self.phase, event) {
            (SsePhase::Ramping, SseEvent::Resume) => (
                self.at(SsePhase::Starting),
                SseActionView::RampUp,
            ),
            (SsePhase::Starting, SseEvent::Resume) => (
                self.at(SsePhase::Opening),
                SseActionView::Open,
            ),
            (SsePhase::Opening, SseEvent::Resume) => (
                self.at(SsePhase::Deciding),
                SseActionView::AskClock,
            ),
            (SsePhase::Resting, SseEvent::Resume) => (
                self.at(SsePhase::Deciding),
                SseActionView::AskClock,
            ),
            (SsePhase::Deciding, SseEvent::Clock(true)) => (
                self.at(SsePhase::Sending),
                SseActionView::Send(stream_request(sse)),
            ),
            (SsePhase::Sending, SseEvent::Sent(Err(_))) => (
                self.at(SsePhase::Resting),
                SseActionView::Rest,
            ),
            (SsePhase::Sending, SseEvent::Sent(Ok(status))) => if is_success_status(status) {
                (
                    SseVuView { phase: SsePhase::Streaming, buf: seq![], ..self },
                    SseActionView::AskClock,
                )
            } else {
                (self.at(SsePhase::Deciding), SseActionView::AskClock)
            },
            (SsePhase::Streaming, SseEvent::Clock(true)) => (
                self.at(SsePhase::Reading),
                SseActionView::Read,
            ),
            (SsePhase::Streaming, SseEvent::Clock(false)) => (
                self.at(SsePhase::Deciding),
                SseActionView::AskClock,
            ),
            (SsePhase::Reading, SseEvent::Data(chunk)) => (
                SseVuView {
                    phase: SsePhase::Streaming,
                    buf: events(self.buf + chunk@).1,
                    ..self
                },
                SseActionView::AskClock,
            ),
            (SsePhase::Reading, SseEvent::Other) => (
                self.at(SsePhase::Streaming),
                SseActionView::AskClock,
            ),
            (SsePhase::Reading, SseEvent::Ended) => (
                self.at(SsePhase::Deciding),
                SseActionView::AskClock,
            ),
            _ => (self.at(SsePhase::Done), SseActionView::Stop),
        }
    }

    /// The metrics after an event.
    pub open spec fn recorded(
        self,
        sse: SseView,
        event: SseEvent,
        m: MetricsView,
        at_secs: u64,
    ) -> MetricsView {
        match (self.phase, event) {
            (SsePhase::Sending, SseEvent::Sent(Err(e))) => after_conn_error(m, at_secs, e),
            (SsePhase::Sending, SseEvent::Sent(Ok(status))) => if is_success_status(status) {
                m
            } else {
                after_conn_error(m, at_secs, ConnError::Protocol)
            },
            (SsePhase::Reading, SseEvent::Data(chunk)) => after_sse_events(
                m,
                at_secs,
                events(self.buf + chunk@).0,
                sse,
            ),
            _ => m,
        }
    }
}

/// Record one event of a stream.
fn record_event(metrics: &mut Metrics, at_secs: u64, data: &str, sse: &SseConfig)
    requires
        old(metrics)@.wf(),
        expect_wf(sse@.expect),
    ensures
        final(metrics)@ == after_sse_event(old(metrics)@, at_secs, data@, sse@),
        final(metrics)@.wf(),
{
    let bytes: &[u8] = data.as_bytes();
    metrics.record_event(at_secs, bytes.len() as u64);
    if let Some(expect) = &sse.expect {
        let body: Option<Vec<u8>> = Some(slice_to_vec(bytes));
        let (passed, failures): (usize, Vec<CheckFailure>) = evaluate_expect(
            expect,
            "GET",
            sse.path.as_str(),
            200,
            &body,
        );
        metrics.record_checks(passed, &failures);
    }
}

/// Record all events in a stream. Returns what follows the last of them.
fn take_events(
    buf: &[u8],
    metrics: &mut Metrics,
    at_secs: u64,
    sse: &SseConfig,
) -> (rest: Vec<u8>)
    requires
        old(metrics)@.wf(),
        expect_wf(sse@.expect),
    ensures
        rest@ == events(buf@).1,
        final(metrics)@ == after_sse_events(old(metrics)@, at_secs, events(buf@).0, sse@),
        final(metrics)@.wf(),
{
    let ghost whole = events(buf@);
    let ghost mut done: Seq<Seq<char>> = seq![];
    let mut rest: &[u8] = buf;
    assert(done + events(rest@).0 =~= whole.0);
    loop
        invariant
            metrics@.wf(),
            expect_wf(sse@.expect),
            done + events(rest@).0 == whole.0,
            events(rest@).1 == whole.1,
            metrics@ == after_sse_events(old(metrics)@, at_secs, done, sse@),
        ensures
            first_event(rest@) is None,
        decreases rest@.len(),
    {
        match next_event(rest) {
            Some((consume, data)) => {
                record_event(metrics, at_secs, data.as_str(), sse);
                let tail: &[u8] = slice_subrange(rest, consume, rest.len());
                assert(tail@ =~= rest@.skip(consume as int));
                proof {
                    let before = done;
                    done = done.push(data@);
                    assert(done.drop_last() =~= before);
                    assert(done + events(tail@).0 =~= before + events(rest@).0);
                }
                rest = tail;
            },
            None => {
                break;
            },
        }
    }
    assert(done =~= whole.0);
    slice_to_vec(rest)
}

impl SseVu {
    /// What a virtual user does after an event.
    pub fn step(
        &mut self,
        sse: &SseConfig,
        event: &SseEvent,
        metrics: &mut Metrics,
        at_secs: u64,
    ) -> (action: SseAction)
        requires
            old(metrics)@.wf(),
            expect_wf(sse@.expect),
        ensures
            (final(self)@, action@) == old(self)@.step(sse@, *event),
            final(metrics)@ == old(self)@.recorded(sse@, *event, old(metrics)@, at_secs),
            final(metrics)@.wf(),
    {
        match (self.phase, event) {
            (SsePhase::Ramping, SseEvent::Resume) => {
                self.phase = SsePhase::Starting;
                SseAction::RampUp
            },
            (SsePhase::Starting, SseEvent::Resume) => {
                self.phase = SsePhase::Opening;
                SseAction::Open
            },
            (SsePhase::Opening, SseEvent::Resume) => {
                self.phase = SsePhase::Deciding;
                SseAction::AskClock
            },
            (SsePhase::Resting, SseEvent::Resume) => {
                self.phase = SsePhase::Deciding;
                SseAction::AskClock
            },
            (SsePhase::Deciding, SseEvent::Clock(true)) => {
                self.phase = SsePhase::Sending;
                SseAction::Send(
                    Request {
                        method: "GET".to_owned(),
                        path: sse.path.clone(),
                        headers: copy_pairs(&sse.headers),
                        body: None,
                        capture_body: false,
                        expect: None,
                    },
                )
            },
            (SsePhase::Sending, SseEvent::Sent(Err(e))) => {
                metrics.record_conn_error(at_secs, *e);
                self.phase = SsePhase::Resting;
                SseAction::Rest
            },
            (SsePhase::Sending, SseEvent::Sent(Ok(status))) => {
                if 200 <= *status && *status < 300 {
                    self.phase = SsePhase::Streaming;
                    self.buf = Vec::new();
                } else {
                    metrics.record_conn_error(at_secs, ConnError::Protocol);
                    self.phase = SsePhase::Deciding;
                }
                SseAction::AskClock
            },
            (SsePhase::Streaming, SseEvent::Clock(true)) => {
                self.phase = SsePhase::Reading;
                SseAction::Read
            },
            (SsePhase::Streaming, SseEvent::Clock(false)) => {
                self.phase = SsePhase::Deciding;
                SseAction::AskClock
            },
            (SsePhase::Reading, SseEvent::Data(chunk)) => {
                self.buf.extend_from_slice(chunk.as_slice());
                assert(self.buf@ =~= old(self).buf@ + chunk@);
                self.buf = take_events(self.buf.as_slice(), metrics, at_secs, sse);
                self.phase = SsePhase::Streaming;
                SseAction::AskClock
            },
            (SsePhase::Reading, SseEvent::Other) => {
                self.phase = SsePhase::Streaming;
                SseAction::AskClock
            },
            (SsePhase::Reading, SseEvent::Ended) => {
                self.phase = SsePhase::Deciding;
                SseAction::AskClock
            },
            _ => {
                self.phase = SsePhase::Done;
                SseAction::Stop
            },
        }
    }
}

/// A run of virtual users that listen to a stream.
#[derive(Debug)]
pub struct SseRun {
    pub base_url: String,
    pub insecure: bool,
    pub sse: SseConfig,
    pub duration_secs: u64,
    pub vus: Vec<SseVu>,
}

/// Whether a run is one of so many virtual users that listen to this stream.
pub open spec fn is_sse_run(
    run: SseRun,
    vu_count: u32,
    base_url: Seq<char>,
    sse: SseView,
    duration_secs: u64,
    insecure: bool,
) -> bool {
    &&& run.base_url@ == base_url
    &&& run.insecure == insecure
    &&& run.sse@ == accepting(sse)
    &&& run.duration_secs == duration_secs
    &&& run.vus@.len() == vu_count
    &&& forall|i: int|
        0 <= i < vu_count ==> (#[trigger] run.vus@[i])@ == (SseVuView {
            index: i as u32,
            phase: SsePhase::Ramping,
            buf: seq![],
        })
}

/// The virtual users that listen to a stream until the time is over.
pub fn spawn_sse_vus(
    vu_count: u32,
    base_url: &str,
    sse: &SseConfig,
    duration_secs: u64,
    insecure: bool,
) -> (run: SseRun)
    ensures
        is_sse_run(run, vu_count, base_url@, sse@, duration_secs, insecure),
{
    let mut headers: Vec<(String, String)> = copy_pairs(&sse.headers);
    headers.push(("Accept".to_owned(), "text/event-stream".to_owned()));
    assert(pairs_view(headers@) =~= accepting(sse@).headers);
    let mut vus: Vec<SseVu> = Vec::new();
    for index in 0..vu_count
        invariant
            vus@.len() == index,
            forall|i: int|
                0 <= i < index ==> (#[trigger] vus@[i])@ == (SseVuView {
                    index: i as u32,
                    phase: SsePhase::Ramping,
                    buf: seq![],
                }),
    {
        let vu: SseVu = SseVu { index, phase: SsePhase::Ramping, buf: Vec::new() };
        assert(vu.buf@ =~= seq![]);
        vus.push(vu);
    }
    SseRun {
        base_url: base_url.to_owned(),
        insecure,
        sse: SseConfig { path: sse.path.clone(), headers, expect: copy_expect(&sse.expect) },
        duration_secs,
        vus,
    }
}

// ----------------------------------------------------------------------
// Laws of runs
// ----------------------------------------------------------------------

/// One virtual user of a run learns something.
pub struct SseTurn {
    pub vu: int,
    pub event: SseEvent,
    pub at_secs: u64,
}

/// The virtual users after these turns.
pub open spec fn listeners_after(
    vus: Seq<SseVuView>,
    sse: SseView,
    turns: Seq<SseTurn>,
) -> Seq<SseVuView>
    decreases turns.len(),
{
    if turns.len() == 0 {
        vus
    } else {
        let before = listeners_after(vus, sse, turns.drop_last());
        let t = turns.last();
        before.update(t.vu, before[t.vu].step(sse, t.event).0)
    }
}

/// The metrics after these turns.
pub open spec fn stream_metrics(
    duration_secs: u64,
    vus: Seq<SseVuView>,
    sse: SseView,
    turns: Seq<SseTurn>,
) -> MetricsView
    decreases turns.len(),
{
    if turns.len() == 0 {
        fresh_metrics(duration_secs)
    } else {
        let t = turns.last();
        listeners_after(vus, sse, turns.drop_last())[t.vu].recorded(
            sse,
            t.event,
            stream_metrics(duration_secs, vus, sse, turns.drop_last()),
            t.at_secs,
        )
    }
}

/// The events that a virtual user reads when it learns something.
pub open spec fn events_of(vu: SseVuView, event: SseEvent) -> Seq<Seq<char>> {
    match (vu.phase, event) {
        (SsePhase::Reading, SseEvent::Data(chunk)) => events(vu.buf + chunk@).0,
        _ => seq![],
    }
}

/// The data of all events that these turns read, in order.
pub open spec fn events_read(
    vus: Seq<SseVuView>,
    sse: SseView,
    turns: Seq<SseTurn>,
) -> Seq<Seq<char>>
    decreases turns.len(),
{
    if turns.len() == 0 {
        seq![]
    } else {
        let t = turns.last();
        events_read(vus, sse, turns.drop_last()) + events_of(
            listeners_after(vus, sse, turns.drop_last())[t.vu],
            t.event,
        )
    }
}

/// The length of all data in bytes.
pub open spec fn data_bytes(all: Seq<Seq<char>>) -> nat
    decreases all.len(),
{
    if all.len() == 0 {
        0
    } else {
        data_bytes(all.drop_last()) + encode_utf8(all.last()).len()
    }
}

/// Whether a stream does not open: nothing came of asking for it, or a status
/// that is not from 200 to 299.
pub open spec fn is_refusal(vu: SseVuView, event: SseEvent) -> bool {
    &&& vu.phase == SsePhase::Sending
    &&& match event {
        SseEvent::Sent(Ok(status)) => !(200 <= status <= 299),
        SseEvent::Sent(Err(_)) => true,
        _ => false,
    }
}

/// In how many of these turns a stream does not open.
pub open spec fn refusals(vus: Seq<SseVuView>, sse: SseView, turns: Seq<SseTurn>) -> nat
    decreases turns.len(),
{
    if turns.len() == 0 {
        0
    } else {
        let t = turns.last();
        refusals(vus, sse, turns.drop_last()) + (if is_refusal(
            listeners_after(vus, sse, turns.drop_last())[t.vu],
            t.event,
        ) {
            1nat
        } else {
            0
        })
    }
}

proof fn data_bytes_add_up(a: Seq<Seq<char>>, b: Seq<Seq<char>>)
    ensures
        data_bytes(a + b) == data_bytes(a) + data_bytes(b),
    decreases b.len(),
{
    if b.len() == 0 {
        assert(a + b =~= a);
    } else {
        assert((a + b).drop_last() =~= a + b.drop_last());
        assert((a + b).last() == b.last());
        data_bytes_add_up(a, b.drop_last());
    }
}

/// Events count toward the total, the successes and the bytes.
proof fn events_are_counted(m: MetricsView, at_secs: u64, all: Seq<Seq<char>>, sse: SseView)
    requires
        m.total + all.len() <= u64::MAX,
        m.success + all.len() <= u64::MAX,
    ensures
        ({
            let after = after_sse_events(m, at_secs, all, sse);
            &&& after.total == m.total + all.len()
            &&& after.success == m.success + all.len()
            &&& after.failed == m.failed
            &&& after.status_codes == m.status_codes
            &&& after.errors == m.errors
            &&& after.latency_count == m.latency_count
            &&& after.latency_buckets == m.latency_buckets
            &&& m.bytes + data_bytes(all) <= u64::MAX ==> after.bytes == m.bytes + data_bytes(all)
        }),
    decreases all.len(),
{
    if all.len() > 0 {
        events_are_counted(m, at_secs, all.drop_last(), sse);
    }
}

/// In a run of streams the total and the successes are both the number of
/// events that were read. The failures are the streams that did not open: they
/// have the status 0, and no other status is counted. The bytes are those of
/// the events' data, as long as they can be held, and there are no latencies.
pub proof fn stream_run_counts(
    duration_secs: u64,
    vus: Seq<SseVuView>,
    sse: SseView,
    turns: Seq<SseTurn>,
)
    requires
        turns.len() <= u64::MAX,
        events_read(vus, sse, turns).len() <= u64::MAX,
    ensures
        ({
            let m = stream_metrics(duration_secs, vus, sse, turns);
            let all = events_read(vus, sse, turns);
            &&& m.total == all.len()
            &&& m.success == all.len()
            &&& m.failed == refusals(vus, sse, turns)
            &&& refusals(vus, sse, turns) <= turns.len()
            &&& count_in(m.status_codes, 0, 0) == m.failed
            &&& forall|code: u16| #[trigger] m.status_codes.contains_key(code) ==> code == 0
            &&& m.latency_count == 0
            &&& m.latency_buckets == Map::<u64, u64>::empty()
            &&& data_bytes(all) <= u64::MAX ==> m.bytes == data_bytes(all)
        }),
    decreases turns.len(),
{
    if turns.len() > 0 {
        let rest = turns.drop_last();
        let t = turns.last();
        let vu = listeners_after(vus, sse, rest)[t.vu];
        let more = events_of(vu, t.event);
        let before = events_read(vus, sse, rest);
        stream_run_counts(duration_secs, vus, sse, rest);
        data_bytes_add_up(before, more);
        let m = stream_metrics(duration_secs, vus, sse, rest);
        match (vu.phase, t.event) {
            (SsePhase::Reading, SseEvent::Data(_)) => {
                events_are_counted(m, t.at_secs, more, sse);
            },
            _ => {
                assert(before + more =~= before);
            },
        }
    }
}

// ----------------------------------------------------------------------
// Laws of virtual users
// ----------------------------------------------------------------------

/// A stream is open exactly if its reply has a status from 200 to 299: then its
/// chunks are read from the beginning and nothing is recorded. Any other status
/// is one failure of the category `protocol`, which is no request, and the
/// virtual user does not go on to the stream.
pub proof fn streams_open_with_a_success(
    vu: SseVuView,
    sse: SseView,
    status: u16,
    m: MetricsView,
    at_secs: u64,
)
    requires
        vu.phase == SsePhase::Sending,
        m.failed < u64::MAX,
        count_in(m.status_codes, 0, 0) < u64::MAX,
        count_in(m.errors, "protocol"@, 0) < u64::MAX,
    ensures
        ({
            let (next, action) = vu.step(sse, SseEvent::Sent(Ok(status)));
            let after = vu.recorded(sse, SseEvent::Sent(Ok(status)), m, at_secs);
            &&& next.phase == SsePhase::Streaming <==> 200 <= status <= 299
            &&& action == SseActionView::AskClock
            &&& next.index == vu.index
            &&& 200 <= status <= 299 ==> next.buf.len() == 0 && after == m
            &&& status < 200 || status > 299 ==> {
                &&& next.phase == SsePhase::Deciding
                &&& after.failed == m.failed + 1
                &&& count_in(after.status_codes, 0, 0) == count_in(m.status_codes, 0, 0) + 1
                &&& count_in(after.errors, "protocol"@, 0) == count_in(m.errors, "protocol"@, 0)
                    + 1
                &&& after.total == m.total
                &&& after.success == m.success
                &&& after.bytes == m.bytes
                &&& after.checks_passed == m.checks_passed
                &&& after.checks_failed == m.checks_failed
                &&& after.latency_count == m.latency_count
            }
        }),
{
}

/// A stream that nothing came of is one failure of its category, and the
/// virtual user rests before it asks again.
pub proof fn failed_streams_are_asked_for_again(
    vu: SseVuView,
    sse: SseView,
    error: ConnError,
    m: MetricsView,
    at_secs: u64,
)
    requires
        vu.phase == SsePhase::Sending,
        m.failed < u64::MAX,
        count_in(m.status_codes, 0, 0) < u64::MAX,
        count_in(m.errors, error_label(error), 0) < u64::MAX,
    ensures
        ({
            let (next, action) = vu.step(sse, SseEvent::Sent(Err(error)));
            let after = vu.recorded(sse, SseEvent::Sent(Err(error)), m, at_secs);
            let (then, what) = next.step(sse, SseEvent::Resume);
            &&& action == SseActionView::Rest
            &&& what == SseActionView::AskClock
            &&& then.step(sse, SseEvent::Clock(true)).1 is Send
            &&& after.failed == m.failed + 1
            &&& count_in(after.status_codes, 0, 0) == count_in(m.status_codes, 0, 0) + 1
            &&& count_in(after.errors, error_label(error), 0) == count_in(
                m.errors,
                error_label(error),
                0,
            ) + 1
            &&& after.total == m.total
            &&& after.success == m.success
            &&& next.recorded(sse, SseEvent::Resume, after, at_secs) == after
        }),
{
}

/// A virtual user waits for its share of the ramp-up, makes a connection and
/// asks for the stream, with `GET`, the path and the headers that it was given,
/// while the end is ahead, and stops where it is not. Nothing of this is
/// recorded.
pub proof fn listeners_ask_for_their_stream(
    vu: SseVuView,
    sse: SseView,
    m: MetricsView,
    at_secs: u64,
)
    requires
        vu.phase == SsePhase::Ramping,
    ensures
        ({
            let (first, ramp) = vu.step(sse, SseEvent::Resume);
            let (second, open) = first.step(sse, SseEvent::Resume);
            let (third, ask) = second.step(sse, SseEvent::Resume);
            &&& ramp == SseActionView::RampUp
            &&& open == SseActionView::Open
            &&& ask == SseActionView::AskClock
            &&& third.step(sse, SseEvent::Clock(true)).1 matches SseActionView::Send(r) && {
                &&& r.method == seq!['G', 'E', 'T']
                &&& r.path == sse.path
                &&& r.headers == sse.headers
                &&& r.body is None
                &&& r.expect is None
                &&& !r.capture_body
            }
            &&& third.step(sse, SseEvent::Clock(true)).0.phase == SsePhase::Sending
            &&& third.step(sse, SseEvent::Clock(false)).1 == SseActionView::Stop
            &&& vu.recorded(sse, SseEvent::Resume, m, at_secs) == m
            &&& first.recorded(sse, SseEvent::Resume, m, at_secs) == m
            &&& second.recorded(sse, SseEvent::Resume, m, at_secs) == m
            &&& third.recorded(sse, SseEvent::Clock(true), m, at_secs) == m
            &&& third.recorded(sse, SseEvent::Clock(false), m, at_secs) == m
        }),
{
    reveal_strlit("GET");
    assert("GET"@ =~= seq!['G', 'E', 'T']);
}

/// An open stream is read chunk by chunk while the end is ahead, and left where
/// it is not. What is no data changes nothing; a stream that ended is asked for
/// again while the end is ahead.
pub proof fn open_streams_are_read(
    vu: SseVuView,
    sse: SseView,
    event: SseEvent,
    m: MetricsView,
    at_secs: u64,
)
    requires
        vu.phase == SsePhase::Streaming,
        event is Data || event is Other || event is Ended,
    ensures
        ({
            let (reading, read) = vu.step(sse, SseEvent::Clock(true));
            let (left, why) = vu.step(sse, SseEvent::Clock(false));
            let (next, action) = reading.step(sse, event);
            &&& read == SseActionView::Read
            &&& reading.buf == vu.buf
            &&& why == SseActionView::AskClock
            &&& left.step(sse, SseEvent::Clock(false)).1 == SseActionView::Stop
            &&& action == SseActionView::AskClock
            &&& event is Ended ==> next.step(sse, SseEvent::Clock(true)).1 is Send
            &&& !(event is Ended) ==> next.step(sse, SseEvent::Clock(true)).1
                == SseActionView::Read
            &&& event is Other ==> next.buf == vu.buf
            &&& vu.recorded(sse, SseEvent::Clock(true), m, at_secs) == m
            &&& vu.recorded(sse, SseEvent::Clock(false), m, at_secs) == m
            &&& !(event is Data) ==> reading.recorded(sse, event, m, at_secs) == m
        }),
{
}

/// How many assertions hold of the data of these events, and how many do not.
pub open spec fn judged(all: Seq<Seq<char>>, expect: ExpectView, path: Seq<char>) -> (nat, nat)
    decreases all.len(),
{
    if all.len() == 0 {
        (0, 0)
    } else {
        let before = judged(all.drop_last(), expect, path);
        let v = verdict(expect, seq!['G', 'E', 'T'], path, 200, Some(encode_utf8(all.last())));
        (before.0 + v.passed, before.1 + v.failures.len())
    }
}

proof fn events_are_judged_in_order(
    m: MetricsView,
    at_secs: u64,
    all: Seq<Seq<char>>,
    sse: SseView,
    expect: ExpectView,
)
    requires
        sse.expect == Some(expect),
        m.checks_passed + judged(all, expect, sse.path).0 <= u64::MAX,
        m.checks_failed + judged(all, expect, sse.path).1 <= u64::MAX,
    ensures
        after_sse_events(m, at_secs, all, sse).checks_passed == m.checks_passed + judged(
            all,
            expect,
            sse.path,
        ).0,
        after_sse_events(m, at_secs, all, sse).checks_failed == m.checks_failed + judged(
            all,
            expect,
            sse.path,
        ).1,
    decreases all.len(),
{
    reveal_strlit("GET");
    assert("GET"@ =~= seq!['G', 'E', 'T']);
    if all.len() > 0 {
        events_are_judged_in_order(m, at_secs, all.drop_last(), sse, expect);
    }
}

proof fn events_are_not_judged(m: MetricsView, at_secs: u64, all: Seq<Seq<char>>, sse: SseView)
    requires
        sse.expect is None,
    ensures
        after_sse_events(m, at_secs, all, sse).checks_passed == m.checks_passed,
        after_sse_events(m, at_secs, all, sse).checks_failed == m.checks_failed,
    decreases all.len(),
{
    if all.len() > 0 {
        events_are_not_judged(m, at_secs, all.drop_last(), sse);
    }
}

/// Each event of a chunk is judged on its own, as the body of a reply to `GET`
/// with the status 200; where nothing is expected, nothing is judged. What is
/// left of the chunk is kept for the next one.
pub proof fn each_event_is_judged(
    vu: SseVuView,
    sse: SseView,
    chunk: Vec<u8>,
    m: MetricsView,
    at_secs: u64,
)
    requires
        vu.phase == SsePhase::Reading,
        sse.expect matches Some(e) ==> m.checks_passed + judged(
            events(vu.buf + chunk@).0,
            e,
            sse.path,
        ).0 <= u64::MAX && m.checks_failed + judged(events(vu.buf + chunk@).0, e, sse.path).1
            <= u64::MAX,
    ensures
        ({
            let after = vu.recorded(sse, SseEvent::Data(chunk), m, at_secs);
            let all = events(vu.buf + chunk@).0;
            &&& vu.step(sse, SseEvent::Data(chunk)).0.buf == events(vu.buf + chunk@).1
            &&& match sse.expect {
                Some(e) => {
                    &&& after.checks_passed == m.checks_passed + judged(all, e, sse.path).0
                    &&& after.checks_failed == m.checks_failed + judged(all, e, sse.path).1
                },
                None => {
                    &&& after.checks_passed == m.checks_passed
                    &&& after.checks_failed == m.checks_failed
                },
            }
        }),
{
    let all = events(vu.buf + chunk@).0;
    match sse.expect {
        Some(e) => {
            events_are_judged_in_order(m, at_secs, all, sse, e);
        },
        None => {
            events_are_not_judged(m, at_secs, all, sse);
        },
    }
}

/// A run has the listeners, the target, the stream and the end that it was
/// asked for. Its requests say that they accept a stream of events, after the
/// headers that were given.
pub proof fn listeners_are_as_asked(
    run: SseRun,
    vu_count: u32,
    base_url: Seq<char>,
    sse: SseView,
    duration_secs: u64,
    insecure: bool,
    i: int,
)
    requires
        is_sse_run(run, vu_count, base_url, sse, duration_secs, insecure),
        0 <= i < vu_count,
    ensures
        run.vus@.len() == vu_count,
        run.base_url@ == base_url,
        run.insecure == insecure,
        run.duration_secs == duration_secs,
        run.sse@.path == sse.path,
        run.sse@.expect == sse.expect,
        run.sse@.headers.len() == sse.headers.len() + 1,
        run.sse@.headers.drop_last() == sse.headers,
        run.sse@.headers.last() == ("Accept"@, "text/event-stream"@),
        run.vus@[i]@.index == i,
        run.vus@[i]@.phase == SsePhase::Ramping,
        run.vus@[i]@.buf.len() == 0,
{
    assert(run.sse@.headers.drop_last() =~= sse.headers);
}

// ----------------------------------------------------------------------
// Laws of events
// ----------------------------------------------------------------------

/// Whether an empty line, one that `\n\n` or `\r\n\r\n` makes, begins here.
pub open spec fn is_empty_line(buf: Seq<u8>, i: int) -> bool {
    ||| 0 <= i && i + 1 < buf.len() && buf[i] == 10 && buf[i + 1] == 10
    ||| 0 <= i && i + 3 < buf.len() && buf[i] == 13 && buf[i + 1] == 10 && buf[i + 2] == 13
        && buf[i + 3] == 10
}

proof fn empty_line_is_found(buf: Seq<u8>, i: int)
    requires
        0 <= i,
    ensures
        is_empty_line(buf, i) <==> stands_at(buf, two_newlines(), i) || stands_at(
            buf,
            two_returns(),
            i,
        ),
        stands_at(buf, two_newlines(), i) <==> i + 1 < buf.len() && buf[i] == 10 && buf[i + 1]
            == 10,
{
    if i + 2 <= buf.len() {
        let two = buf.subrange(i, i + 2);
        assert(two[0] == buf[i] && two[1] == buf[i + 1]);
        if buf[i] == 10 && buf[i + 1] == 10 {
            assert(two =~= two_newlines());
        }
        if two == two_newlines() {
            assert(two[0] == 10 && two[1] == 10);
        }
    }
    if i + 4 <= buf.len() {
        let four = buf.subrange(i, i + 4);
        assert(four[0] == buf[i] && four[1] == buf[i + 1] && four[2] == buf[i + 2] && four[3]
            == buf[i + 3]);
        if buf[i] == 13 && buf[i + 1] == 10 && buf[i + 2] == 13 && buf[i + 3] == 10 {
            assert(four =~= two_returns());
        }
        if four == two_returns() {
            assert(four[0] == 13 && four[1] == 10 && four[2] == 13 && four[3] == 10);
        }
    }
}

proof fn boundary_is_first(buf: Seq<u8>, from: int, at: int)
    requires
        0 <= from <= at <= buf.len(),
        forall|i: int| from <= i < at ==> !#[trigger] is_empty_line(buf, i),
        is_empty_line(buf, at),
    ensures
        boundary(buf, from) == Some((at, if buf[at] == 10 { 2int } else { 4int })),
    decreases at - from,
{
    empty_line_is_found(buf, from);
    if from < at {
        assert(!is_empty_line(buf, from));
        boundary_is_first(buf, from + 1, at);
    }
}

proof fn boundary_is_nowhere(buf: Seq<u8>, from: int)
    requires
        0 <= from,
        forall|i: int| from <= i < buf.len() ==> !#[trigger] is_empty_line(buf, i),
    ensures
        boundary(buf, from) is None,
    decreases buf.len() - from,
{
    if from + 1 < buf.len() {
        empty_line_is_found(buf, from);
        assert(!is_empty_line(buf, from));
        boundary_is_nowhere(buf, from + 1);
    }
}

/// What stands before the first empty line is an event, and the events after
/// that line follow it. The empty line belongs to no event.
pub proof fn events_end_at_empty_lines(block: Seq<u8>, end: Seq<u8>, rest: Seq<u8>)
    requires
        end == seq![10u8, 10u8] || end == seq![13u8, 10u8, 13u8, 10u8],
        forall|i: int|
            0 <= i < block.len() ==> !#[trigger] is_empty_line(block + end + rest, i),
    ensures
        events(block + end + rest).0 == seq![sse_data(block)] + events(rest).0,
        events(block + end + rest).1 == events(rest).1,
{
    let buf = block + end + rest;
    let at = block.len() as int;
    assert(buf[at] == end[0] && buf[at + 1] == end[1]);
    if end.len() == 4 {
        assert(buf[at + 2] == end[2] && buf[at + 3] == end[3]);
    }
    assert(is_empty_line(buf, at));
    boundary_is_first(buf, 0, at);
    assert(buf.take(at) =~= block);
    assert(buf.skip(at + end.len()) =~= rest);
}

/// Without an empty line there is no event yet, and all of it is kept.
pub proof fn events_wait_for_an_empty_line(buf: Seq<u8>)
    requires
        forall|i: int| 0 <= i < buf.len() ==> !#[trigger] is_empty_line(buf, i),
    ensures
        events(buf).0.len() == 0,
        events(buf).1 == buf,
{
    boundary_is_nowhere(buf, 0);
}

/// A line holds data exactly if it begins with `data:`. One space after that is
/// not part of the data, nor is a carriage return at the end.
pub proof fn lines_of_data_begin_with_data(line: Seq<char>, value: Seq<char>)
    ensures
        data_field(line) is Some <==> line.len() >= 5 && line.take(5) == seq![
            'd',
            'a',
            't',
            'a',
            ':',
        ],
        data_field(line + seq!['\r']) == data_field(line),
        value.len() > 0 && value[0] != ' ' && value.last() != '\r' ==> data_field(
            seq!['d', 'a', 't', 'a', ':'] + value,
        ) == Some(value),
        value.len() > 0 && value.last() != '\r' ==> data_field(
            seq!['d', 'a', 't', 'a', ':', ' '] + value,
        ) == Some(value),
        data_field(seq!['d', 'a', 't', 'a', ':']) == Some(Seq::<char>::empty()),
{
    reveal_strlit("data:");
    let word = seq!['d', 'a', 't', 'a', ':'];
    assert("data:"@ =~= word);
    trimmed_is_a_beginning(line, '\r', 5);
    assert((line + seq!['\r']).drop_last() =~= line);
    assert((line + seq!['\r']).last() == '\r');
    if word.is_prefix_of(line) {
        assert(line.take(5) =~= word);
    }
    let plain = word + value;
    if value.len() > 0 && value.last() != '\r' {
        assert(plain.last() != '\r');
        assert(plain.skip(5) =~= value);
        let spaced = seq!['d', 'a', 't', 'a', ':', ' '] + value;
        assert(spaced.last() != '\r');
        assert(word.is_prefix_of(spaced));
        assert(spaced.skip(5)[0] == ' ');
        assert(spaced.skip(5).skip(1) =~= value);
    }
    assert(word.last() == ':');
    assert(word.skip(5) =~= Seq::<char>::empty());
}

/// Taking a character off the end keeps the first `n` characters, where none of
/// them is that character.
proof fn trimmed_is_a_beginning(line: Seq<char>, c: char, n: int)
    requires
        0 <= n,
    ensures
        trim_end_char(line, c).is_prefix_of(line),
        n <= line.len() && (forall|i: int| 0 <= i < n ==> line[i] != c) ==> trim_end_char(
            line,
            c,
        ).len() >= n,
    decreases line.len(),
{
    if line.len() > 0 && line.last() == c {
        trimmed_is_a_beginning(line.drop_last(), c, n);
    }
}

/// The data of an event is that of its lines, with one end of line between each
/// two: an event of the lines `data: v`, with `\n` between each two, has the
/// values with `\n` between them.
pub proof fn data_is_joined(values: Seq<Seq<char>>, block: Seq<u8>)
    requires
        values.len() > 0,
        forall|i: int, k: int|
            0 <= i < values.len() && 0 <= k < values[i].len() ==> (#[trigger] values[i][k]) != '\n'
                && values[i][k] != '\r',
        utf8_lossy(block) + seq!['\n'] == written(values),
    ensures
        sse_data(block) + seq!['\n'] == ended(values),
{
    lines_of_written(values, utf8_lossy(block));
    assert forall|i: int|
        0 <= i < values.len() && (#[trigger] values[i]).len() > 0 implies values[i].last()
        != '\r' by {
        assert(values[i][values[i].len() - 1] != '\r');
    }
    data_lines_read_back(values);
    joined_is_ended(values);
}

/// The values as lines of data, each followed by an end of line.
pub open spec fn written(values: Seq<Seq<char>>) -> Seq<char>
    decreases values.len(),
{
    if values.len() == 0 {
        seq![]
    } else {
        seq!['d', 'a', 't', 'a', ':', ' '] + values[0] + seq!['\n'] + written(values.drop_first())
    }
}

/// The values, each followed by an end of line.
pub open spec fn ended(values: Seq<Seq<char>>) -> Seq<char>
    decreases values.len(),
{
    if values.len() == 0 {
        seq![]
    } else {
        ended(values.drop_last()) + values.last() + seq!['\n']
    }
}

proof fn joined_is_ended(values: Seq<Seq<char>>)
    requires
        values.len() > 0,
    ensures
        joined(values) + seq!['\n'] == ended(values),
    decreases values.len(),
{
    if values.len() == 1 {
        assert(ended(values.drop_last()) =~= Seq::<char>::empty());
        assert(ended(values) =~= values[0] + seq!['\n']);
    } else {
        joined_is_ended(values.drop_last());
        assert(joined(values) + seq!['\n'] =~= ended(values));
    }
}

proof fn lines_of_written(values: Seq<Seq<char>>, text: Seq<char>)
    requires
        values.len() > 0,
        forall|i: int, k: int|
            0 <= i < values.len() && 0 <= k < values[i].len() ==> (#[trigger] values[i][k]) != '\n'
                && values[i][k] != '\r',
        text + seq!['\n'] == written(values),
    ensures
        lines(text) == values.map_values(|v: Seq<char>| "data: "@ + v),
    decreases values.len(),
{
    reveal_strlit("data: ");
    let all = values.map_values(|v: Seq<char>| "data: "@ + v);
    let rest = values.drop_first();
    let word = seq!['d', 'a', 't', 'a', ':', ' '];
    assert("data: "@ =~= word);
    let first = word + values[0];
    let at = first.len() as int;
    let whole = written(values);
    assert(whole =~= first + seq!['\n'] + written(rest));
    assert(text =~= whole.drop_last());
    assert forall|i: int| 0 <= i < at implies first[i] != '\n' && first[i] != '\r' by {
        if i >= 6 {
            assert(values[0][i - 6] != '\n');
        }
    }
    assert forall|i: int| 0 <= i < at implies text[i] == first[i] by {
        assert(whole[i] == first[i]);
    }
    find_from_is_first(text, '\n', 0);
    if values.len() == 1 {
        assert(text =~= first);
        assert(find_first(text, '\n') == at) by {
            if find_first(text, '\n') < at {
                assert(first[find_first(text, '\n')] != '\n');
            }
        }
        assert(lines(text) =~= all);
    } else {
        assert forall|i: int, k: int|
            0 <= i < rest.len() && 0 <= k < rest[i].len() implies (#[trigger] rest[i][k]) != '\n'
            && rest[i][k] != '\r' by {
            assert(rest[i] == values[i + 1]);
            assert(values[i + 1][k] != '\n');
        }
        assert(written(rest).len() > 0);
        let tail = written(rest).drop_last();
        assert(whole.last() == '\n');
        assert(whole.last() == written(rest).last());
        assert(tail + seq!['\n'] =~= written(rest));
        lines_of_written(rest, tail);
        assert(text =~= first + seq!['\n'] + tail);
        assert(text[at] == '\n');
        let found = find_first(text, '\n');
        if found < at {
            assert(first[found] != '\n');
        }
        assert(found == at);
        assert(text.take(at) =~= first);
        assert(text.skip(at + 1) =~= tail);
        assert(first.last() != '\r');
        assert(all =~= seq![first] + rest.map_values(|v: Seq<char>| "data: "@ + v));
    }
}

}

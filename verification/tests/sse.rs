use loadforge::client::{ConnError, ExpectSpec};
use loadforge::metrics::{Elapsed, Metrics};
use loadforge::sse::{
    next_event, parse_sse_data, spawn_sse_vus, SseAction, SseConfig, SseEvent, SseRun,
};

fn config() -> SseConfig {
    SseConfig {
        path: "/events".to_string(),
        headers: vec![("X".to_string(), "1".to_string())],
        expect: Some(ExpectSpec {
            status: Some(200),
            body_contains: Some("ok".to_string()),
            json: None,
        }),
    }
}

fn streaming(metrics: &mut Metrics) -> SseRun {
    let mut run = spawn_sse_vus(2, "http://h:1", &config(), 5, false);
    let vu = &mut run.vus[0];
    assert!(matches!(vu.step(&run.sse, &SseEvent::Resume, metrics, 0), SseAction::RampUp));
    assert!(matches!(vu.step(&run.sse, &SseEvent::Resume, metrics, 0), SseAction::Open));
    assert!(matches!(vu.step(&run.sse, &SseEvent::Resume, metrics, 0), SseAction::AskClock));
    match vu.step(&run.sse, &SseEvent::Clock(true), metrics, 0) {
        SseAction::Send(r) => {
            assert_eq!((r.method.as_str(), r.path.as_str()), ("GET", "/events"));
            assert_eq!(r.headers[0].0, "X");
            let accept = ("Accept".to_string(), "text/event-stream".to_string());
            assert_eq!(r.headers[1], accept);
            assert!(r.body.is_none() && r.expect.is_none() && !r.capture_body);
        }
        other => panic!("{:?}", other),
    }
    run
}

#[test]
fn data_fields_are_joined() {
    assert_eq!(parse_sse_data(b"data: hello"), "hello");
    assert_eq!(parse_sse_data(b"data:hello\r\nid: 1\r\ndata:  two"), "hello\n two");
    assert_eq!(parse_sse_data(b"data:\ndata: x"), "\nx");
    assert_eq!(parse_sse_data(b"event: ping"), "");
    assert_eq!(parse_sse_data(b"data: a\xffb"), "a\u{fffd}b");
    assert_eq!(parse_sse_data(b""), "");
}

#[test]
fn events_end_at_empty_lines() {
    assert_eq!(next_event(b"data: a\n\ndata: b\n\n"), Some((9, "a".to_string())));
    assert_eq!(next_event(b"data: a\r\n\r\nrest"), Some((11, "a".to_string())));
    assert_eq!(next_event(b"\n\n"), Some((2, String::new())));
    assert_eq!(next_event(b"data: a\n"), None);
    assert_eq!(next_event(b"data: a\r\n\r"), None);
    assert_eq!(next_event(b""), None);
}

#[test]
fn chunks_make_no_difference() {
    let stream = b"data: ok 1\n\n: note\r\n\r\ndata: ok\ndata: 2\n\ndata: x\r\n\r\ndata: half";
    let mut expected = None;
    for size in 1..=stream.len() {
        let mut metrics = Metrics::new(5);
        let mut run = streaming(&mut metrics);
        let vu = &mut run.vus[0];
        vu.step(&run.sse, &SseEvent::Sent(Ok(200)), &mut metrics, 0);
        for chunk in stream.chunks(size) {
            let clock = vu.step(&run.sse, &SseEvent::Clock(true), &mut metrics, 0);
            assert!(matches!(clock, SseAction::Read));
            let data = SseEvent::Data(chunk.to_vec());
            assert!(matches!(vu.step(&run.sse, &data, &mut metrics, 0), SseAction::AskClock));
        }
        assert_eq!(vu.buf, b"data: half");
        let s = metrics.snapshot(Elapsed { secs: 1, nanos: 0 });
        let found = (s.total, s.success, s.bytes, s.checks_passed, s.checks_failed);
        assert_eq!(found, *expected.get_or_insert(found));
    }
    assert_eq!(expected, Some((4, 4, 4 + 0 + 4 + 1, 6, 2)));
}

#[test]
fn streams_that_fail_are_opened_again() {
    let mut metrics = Metrics::new(5);
    let mut run = streaming(&mut metrics);
    let vu = &mut run.vus[0];
    let mut tell = |event: SseEvent| vu.step(&run.sse, &event, &mut metrics, 0);
    assert!(matches!(tell(SseEvent::Sent(Err(ConnError::Refused))), SseAction::Rest));
    assert!(matches!(tell(SseEvent::Resume), SseAction::AskClock));
    assert!(matches!(tell(SseEvent::Clock(true)), SseAction::Send(_)));
    assert!(matches!(tell(SseEvent::Sent(Ok(503))), SseAction::AskClock));
    assert!(matches!(tell(SseEvent::Clock(true)), SseAction::Send(_)));
    assert!(matches!(tell(SseEvent::Sent(Ok(200))), SseAction::AskClock));
    assert!(matches!(tell(SseEvent::Clock(true)), SseAction::Read));
    assert!(matches!(tell(SseEvent::Other), SseAction::AskClock));
    assert!(matches!(tell(SseEvent::Clock(true)), SseAction::Read));
    assert!(matches!(tell(SseEvent::Ended), SseAction::AskClock));
    assert!(matches!(tell(SseEvent::Clock(true)), SseAction::Send(_)));
    assert!(matches!(tell(SseEvent::Sent(Ok(200))), SseAction::AskClock));
    assert!(matches!(tell(SseEvent::Clock(false)), SseAction::AskClock));
    assert!(matches!(tell(SseEvent::Clock(false)), SseAction::Stop));
    let s = metrics.snapshot(Elapsed { secs: 1, nanos: 0 });
    assert_eq!((s.total, s.failed), (0, 2));
    assert_eq!(s.status_codes.into_iter().collect::<Vec<(u16, u64)>>(), [(0, 2)]);
    let errors: Vec<&str> = s.errors.iter().map(|e| e.0.as_str()).collect();
    assert_eq!(errors, ["protocol", "refused"]);
}

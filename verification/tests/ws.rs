use loadforge::client::{ConnError, ErrorLink, IoKind};
use loadforge::metrics::{Elapsed, Metrics, Millis};
use loadforge::scheduler::Real;
use loadforge::ws::{
    base64_encode, check_accept, connect_ws, encode_frame, find_seq, parse_ws_url, read_frame,
    send_frame, spawn_ws_vus, FrameRead, Inbox, Received, WsAction, WsConfig, WsEvent, WsLink,
    WsLinkEvent, WsLinkStep, WsMode, WsStage, WsVu, MAX_FRAME,
};

const MASK: [u8; 4] = [1, 2, 3, 255];

fn config(mode: WsMode, message: &str) -> WsConfig {
    WsConfig {
        url: "ws://h".to_string(),
        message: message.as_bytes().to_vec(),
        mode,
        send_interval: Real { bits: 0 },
    }
}

fn link(url: &str) -> WsLink {
    let mut link = connect_ws(url, false).unwrap();
    link.nonce = *b"the sample nonce";
    link
}

fn asked(step: WsLinkStep) -> String {
    match step {
        WsLinkStep::Write(bytes) => String::from_utf8(bytes).unwrap(),
        other => panic!("{:?}", other),
    }
}

fn reply(accept: &str) -> WsLinkEvent {
    WsLinkEvent::Read(
        format!("HTTP/1.1 101 Switching\r\nUpgrade: websocket\r\n{}\r\n\r\nrest", accept)
            .into_bytes(),
    )
}

fn connected(mode: WsMode, message: &str, metrics: &mut Metrics) -> (WsConfig, WsVu, WsAction) {
    let run = spawn_ws_vus(1, &config(mode, message), 5, false);
    let mut vu = run.vus[0];
    assert!(matches!(vu.step(&run.ws, WsEvent::Resume, metrics, 0), WsAction::RampUp));
    assert!(matches!(vu.step(&run.ws, WsEvent::Resume, metrics, 0), WsAction::AskClock));
    assert!(matches!(vu.step(&run.ws, WsEvent::Clock(true), metrics, 0), WsAction::Connect));
    let action = vu.step(&run.ws, WsEvent::Connected(None), metrics, 0);
    (run.ws, vu, action)
}

#[test]
fn base64_of_known_texts() {
    let cases = [
        ("", ""),
        ("f", "Zg=="),
        ("fo", "Zm8="),
        ("foo", "Zm9v"),
        ("foob", "Zm9vYg=="),
        ("fooba", "Zm9vYmE="),
        ("foobar", "Zm9vYmFy"),
        ("the sample nonce", "dGhlIHNhbXBsZSBub25jZQ=="),
    ];
    for (data, text) in cases {
        assert_eq!(base64_encode(data.as_bytes()), text);
    }
    assert_eq!(base64_encode(&[0xfb, 0xef, 0xff]), "++//");
}

#[test]
fn sequences_are_found() {
    assert_eq!(find_seq(b"ab\r\n\r\ncd", b"\r\n\r\n"), Some(2));
    assert_eq!(find_seq(b"aaab", b"ab"), Some(2));
    assert_eq!(find_seq(b"abc", b"abc"), Some(0));
    assert_eq!(find_seq(b"abc", b""), None);
    assert_eq!(find_seq(b"ab", b"abc"), None);
    assert_eq!(find_seq(b"abc", b"x"), None);
}

#[test]
fn urls_lead_somewhere() {
    let t = parse_ws_url("ws://127.0.0.1:8080/ws?a=b").unwrap();
    assert_eq!((t.is_tls, t.host.as_str()), (false, "127.0.0.1"));
    assert_eq!(t.addr, "127.0.0.1:8080");
    assert_eq!((t.host_port.as_str(), t.path.as_str()), ("127.0.0.1:8080", "/ws?a=b"));
    let t = parse_ws_url("wss://example.com").unwrap();
    assert_eq!((t.is_tls, t.addr.as_str(), t.path.as_str()), (true, "example.com:443", "/"));
    assert!(parse_ws_url("http://example.com").is_none());
    assert!(matches!(connect_ws("example.com", false), Err(ConnError::Other)));
}

#[test]
fn handshakes_are_accepted() {
    let mut l = link("ws://server.example.com:80/chat");
    let request = asked(l.step(&WsLinkEvent::Opened));
    assert_eq!(
        request,
        "GET /chat HTTP/1.1\r\nHost: server.example.com:80\r\nUpgrade: websocket\r\n\
         Connection: Upgrade\r\nSec-WebSocket-Key: dGhlIHNhbXBsZSBub25jZQ==\r\n\
         Sec-WebSocket-Version: 13\r\n\r\n"
    );
    assert!(matches!(l.step(&WsLinkEvent::Written), WsLinkStep::Read));
    let part = WsLinkEvent::Read(b"HTTP/1.1 101 x\r\n".to_vec());
    assert!(matches!(l.step(&part), WsLinkStep::Read));
    let rest = b"SEC-websocket-accept :  s3pPLMBiTxaQ9kYGzzhZRbK+xOo= \r\n\r\n".to_vec();
    assert!(matches!(l.step(&WsLinkEvent::Read(rest)), WsLinkStep::Ready));
    assert_eq!(l.stage, WsStage::Open);
}

#[test]
fn handshakes_are_refused() {
    let after = |event: WsLinkEvent| {
        let mut l = link("ws://h");
        l.step(&WsLinkEvent::Opened);
        l.step(&WsLinkEvent::Written);
        l.step(&event)
    };
    let good = "Sec-WebSocket-Accept: s3pPLMBiTxaQ9kYGzzhZRbK+xOo=";
    assert!(matches!(after(reply(good)), WsLinkStep::Ready));
    assert!(matches!(
        after(reply("Sec-WebSocket-Accept: wrong")),
        WsLinkStep::Fail(ConnError::Protocol)
    ));
    assert!(matches!(after(reply("X: y")), WsLinkStep::Fail(ConnError::Protocol)));
    let status = WsLinkEvent::Read(format!("HTTP/1.1 200 OK\r\n{}\r\n\r\n", good).into_bytes());
    assert!(matches!(after(status), WsLinkStep::Fail(ConnError::Protocol)));
    assert!(matches!(
        after(WsLinkEvent::Read(vec![])),
        WsLinkStep::Fail(ConnError::Protocol)
    ));
    assert!(matches!(after(WsLinkEvent::Broken), WsLinkStep::Fail(ConnError::Protocol)));
}

#[test]
fn connections_fail_by_stage() {
    let refused = || WsLinkEvent::Refused(vec![ErrorLink::Io(IoKind::ConnectionRefused)]);
    assert!(matches!(link("ws://h").step(&refused()), WsLinkStep::Fail(ConnError::Refused)));
    assert!(matches!(
        link("ws://h").step(&WsLinkEvent::TimedOut),
        WsLinkStep::Fail(ConnError::Timeout)
    ));
    let mut l = link("wss://example.com");
    assert!(matches!(l.step(&WsLinkEvent::Opened), WsLinkStep::StartTls));
    assert!(matches!(l.step(&refused()), WsLinkStep::Fail(ConnError::Tls)));
    let mut l = link("wss://example.com");
    l.step(&WsLinkEvent::Opened);
    assert!(matches!(l.step(&WsLinkEvent::Opened), WsLinkStep::Write(_)));
    assert!(matches!(
        link("wss://not a name").step(&WsLinkEvent::Opened),
        WsLinkStep::Fail(ConnError::Other)
    ));
}

#[test]
fn nonces_differ() {
    let a = connect_ws("ws://h", false).unwrap().nonce;
    let b = connect_ws("ws://h", false).unwrap().nonce;
    assert_ne!(a, b);
}

#[test]
fn frames_have_their_layout() {
    assert_eq!(encode_frame(1, b"Hi", MASK), [0x81, 0x82, 1, 2, 3, 255, b'H' ^ 1, b'i' ^ 2]);
    let medium = encode_frame(2, &[7; 126], MASK);
    assert_eq!(&medium[..8], [0x82, 0xfe, 0, 126, 1, 2, 3, 255]);
    assert_eq!(medium.len(), 8 + 126);
    let large = encode_frame(2, &vec![0; 0x1_0000], MASK);
    assert_eq!(&large[..10], [0x82, 0xff, 0, 0, 0, 0, 0, 1, 0, 0]);
}

#[test]
fn frames_are_read_back() {
    for len in [0, 1, 125, 126, 0xffff, 0x1_0000] {
        let payload: Vec<u8> = (0..len).map(|i| i as u8).collect();
        let mut bytes = send_frame(2, &payload);
        let size = bytes.len();
        assert!(matches!(read_frame(&bytes[..size - 1]), FrameRead::More));
        bytes.push(99);
        match read_frame(&bytes) {
            FrameRead::Frame { fin, opcode, payload: read, size: taken } => {
                assert_eq!((fin, opcode, taken), (true, 2, size));
                assert_eq!(read, payload);
            }
            other => panic!("{:?}", other),
        }
    }
    let mut huge = vec![0x82, 127];
    huge.extend_from_slice(&(MAX_FRAME + 1).to_be_bytes());
    assert!(matches!(read_frame(&huge), FrameRead::TooLarge));
    assert!(matches!(read_frame(&huge[..9]), FrameRead::More));
    assert!(matches!(read_frame(&[]), FrameRead::More));
}

#[test]
fn messages_are_received() {
    let mut inbox = Inbox::new();
    inbox.push(&[0x01, 2, b'a', b'b']);
    assert!(matches!(inbox.recv_message(), Received::More));
    inbox.push(&[0x8a, 1, 0]);
    inbox.push(&[0x89, 1, b'p']);
    match inbox.recv_message_at(MASK) {
        Received::Pong(bytes) => assert_eq!(bytes, encode_frame(10, b"p", MASK)),
        other => panic!("{:?}", other),
    }
    inbox.push(&[0x80, 1, b'c', 0x82, 0]);
    match inbox.recv_message() {
        Received::Message(m) => assert_eq!(m, b"abc"),
        other => panic!("{:?}", other),
    }
    match inbox.recv_message() {
        Received::Message(m) => assert!(m.is_empty()),
        other => panic!("{:?}", other),
    }
    inbox.push(&[0x88, 0]);
    assert!(matches!(inbox.recv_message(), Received::Closed));
    inbox.push(&[0x82, 127, 1, 0, 0, 0, 0, 0, 0, 0]);
    assert!(matches!(inbox.recv_message(), Received::TooLarge));
}

#[test]
fn fragments_are_one_message() {
    let mut inbox = Inbox::new();
    inbox.push(&[0x01, 2, b'H', b'e', 0x80, 3, b'l', b'l', b'o']);
    match inbox.recv_message() {
        Received::Message(m) => assert_eq!(m, b"Hello"),
        other => panic!("{:?}", other),
    }
    inbox.push(&[0x02, 1, 1, 0x00, 1, 2, 0x89, 0, 0x00, 0, 0x80, 1, 3]);
    assert!(matches!(inbox.recv_message(), Received::Pong(_)));
    match inbox.recv_message() {
        Received::Message(m) => assert_eq!(m, [1, 2, 3]),
        other => panic!("{:?}", other),
    }
    assert!(matches!(inbox.recv_message(), Received::More));
}

#[test]
fn stray_continuations_are_skipped() {
    let mut inbox = Inbox::new();
    inbox.push(&[0x80, 1, b'x', 0x00, 1, b'y']);
    assert!(matches!(inbox.recv_message(), Received::More));
    inbox.push(&[0x81, 1, b'a', 0x80, 1, b'z', 0x82, 1, b'b']);
    for expected in [b"a", b"b"] {
        match inbox.recv_message() {
            Received::Message(m) => assert_eq!(m, expected),
            other => panic!("{:?}", other),
        }
    }
    assert!(inbox.buf.is_empty() && !inbox.begun);
}

#[test]
fn heads_answer_with_the_accept_text() {
    let head = "HTTP/1.1 101 Switching\r\nUpgrade: websocket\r\nsec-webSocket-ACCEPT :  abc= \r\n";
    assert!(check_accept(head, "abc="));
    assert!(!check_accept(head, "ABC="));
    assert!(!check_accept(head, "websocket"));
    assert!(!check_accept("HTTP/1.1 200 OK\r\nSec-WebSocket-Accept: abc=\r\n", "abc="));
    assert!(!check_accept("HTTP/1.1 101 Switching\r\n", "abc="));
}

#[test]
fn cuts_make_no_difference() {
    let mut bytes = vec![0x01, 1, b'a', 0x8a, 0];
    bytes.extend_from_slice(&encode_frame(0, b"bc", MASK));
    bytes.extend_from_slice(&encode_frame(2, &[9; 200], MASK));
    for size in 1..=bytes.len() {
        let mut inbox = Inbox::new();
        let mut messages = Vec::new();
        for chunk in bytes.chunks(size) {
            inbox.push(chunk);
            while let Received::Message(m) = inbox.recv_message() {
                messages.push(m);
            }
        }
        assert_eq!(messages, vec![b"abc".to_vec(), vec![9; 200]]);
    }
}

#[test]
fn echoes_are_counted() {
    let mut metrics = Metrics::new(5);
    let (ws, mut vu, action) = connected(WsMode::Echo, "ping", &mut metrics);
    assert!(matches!(action, WsAction::AskClock));
    let mut tell = |event| vu.step(&ws, event, &mut metrics, 0);
    match tell(WsEvent::Clock(true)) {
        WsAction::Send(bytes) => match read_frame(&bytes) {
            FrameRead::Frame { opcode, payload, .. } => {
                assert_eq!((opcode, payload.as_slice()), (1, &b"ping"[..]));
            }
            other => panic!("{:?}", other),
        },
        other => panic!("{:?}", other),
    }
    assert!(matches!(tell(WsEvent::Sent(true)), WsAction::Receive));
    assert!(matches!(tell(WsEvent::Received { bytes: 6, after_us: 1_500 }), WsAction::AskClock));
    assert!(matches!(tell(WsEvent::Clock(true)), WsAction::Send(_)));
    assert!(matches!(tell(WsEvent::Sent(true)), WsAction::Receive));
    assert!(matches!(tell(WsEvent::Lost), WsAction::AskClock));
    assert!(matches!(tell(WsEvent::Clock(true)), WsAction::Connect));
    assert!(matches!(tell(WsEvent::Connected(None)), WsAction::AskClock));
    assert!(matches!(tell(WsEvent::Clock(true)), WsAction::Send(_)));
    assert!(matches!(tell(WsEvent::Sent(false)), WsAction::AskClock));
    assert!(matches!(tell(WsEvent::Clock(true)), WsAction::Connect));
    assert!(matches!(tell(WsEvent::Connected(Some(ConnError::Dns))), WsAction::Rest));
    assert!(matches!(tell(WsEvent::Resume), WsAction::AskClock));
    assert!(matches!(tell(WsEvent::Clock(false)), WsAction::Stop));
    let s = metrics.snapshot(Elapsed { secs: 1, nanos: 0 });
    assert_eq!((s.total, s.success, s.failed, s.bytes), (2, 1, 1, 10));
    let codes: Vec<(u16, u64)> = s.status_codes.into_iter().collect();
    assert_eq!(codes, [(0, 1), (101, 1)]);
    assert_eq!(s.avg_ms, Millis { sum_us: 1_500, count: 1 });
    assert_eq!((s.max_ms.sum_us, s.p99_ms), (1_500, 1));
}

#[test]
fn sent_messages_are_counted() {
    let mut metrics = Metrics::new(5);
    let (ws, mut vu, action) = connected(WsMode::Send, "abc", &mut metrics);
    assert!(matches!(action, WsAction::AskClock));
    let mut tell = |event| vu.step(&ws, event, &mut metrics, 0);
    assert!(matches!(tell(WsEvent::Clock(true)), WsAction::Pause));
    assert!(matches!(tell(WsEvent::Resume), WsAction::Send(_)));
    assert!(matches!(tell(WsEvent::Sent(true)), WsAction::AskClock));
    assert!(matches!(tell(WsEvent::Clock(false)), WsAction::AskClock));
    assert_eq!((metrics.total, metrics.bytes, metrics.sum_latency_us), (1, 3, 0));
    let s = metrics.snapshot(Elapsed { secs: 1, nanos: 0 });
    assert_eq!((s.success, s.failed, s.status_codes.get(&101)), (1, 0, Some(&1)));
    assert_eq!((s.status_codes.len(), s.max_ms.sum_us), (1, 0));
}

#[test]
fn received_messages_are_counted() {
    let mut metrics = Metrics::new(5);
    let (_, _, silent) = connected(WsMode::Recv, "", &mut metrics);
    assert!(matches!(silent, WsAction::AskClock));
    let (ws, mut vu, action) = connected(WsMode::Recv, "subscribe", &mut metrics);
    assert!(matches!(action, WsAction::Send(_)));
    let mut tell = |event| vu.step(&ws, event, &mut metrics, 0);
    assert!(matches!(tell(WsEvent::Sent(true)), WsAction::AskClock));
    assert!(matches!(tell(WsEvent::Clock(true)), WsAction::Receive));
    assert!(matches!(tell(WsEvent::Received { bytes: 5, after_us: 77 }), WsAction::AskClock));
    assert!(matches!(tell(WsEvent::Clock(true)), WsAction::Receive));
    assert!(matches!(tell(WsEvent::Lost), WsAction::AskClock));
    assert!(matches!(tell(WsEvent::Clock(true)), WsAction::Connect));
    assert!(matches!(tell(WsEvent::Connected(None)), WsAction::Send(_)));
    assert!(matches!(tell(WsEvent::Sent(false)), WsAction::AskClock));
    assert_eq!((metrics.total, metrics.bytes, metrics.max_latency_us), (1, 5, 0));
    let s = metrics.snapshot(Elapsed { secs: 1, nanos: 0 });
    assert_eq!((s.success, s.failed, s.status_codes.get(&101)), (1, 0, Some(&1)));
}

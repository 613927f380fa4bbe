use loadforge::client::{
    build_request, classify_conn_error, evaluate_expect, evaluate_json, fail, finish_response,
    parse_base, split_host_port, truncate, ConnError, Connection, ErrorLink, ExpectSpec, H2Pool,
    IoKind, LinkEvent, LinkStage, LinkStep, Reply, Request, SendEvent, SendStep, H2_POOL_SIZE,
};
use loadforge::json::parse;
use loadforge::text::chars_of;

fn request(path: &str) -> Request {
    Request {
        method: "POST".to_string(),
        path: path.to_string(),
        headers: vec![("X-A".to_string(), "1".to_string())],
        body: Some(b"hi".to_vec()),
        capture_body: true,
        expect: None,
    }
}

fn expect(status: Option<u16>, contains: Option<&str>, json: Option<&str>) -> ExpectSpec {
    ExpectSpec {
        status,
        body_contains: contains.map(String::from),
        json: json.map(|j| parse(j.as_bytes()).unwrap()),
    }
}

#[test]
fn error_names() {
    let names: Vec<&str> = [
        ConnError::Timeout,
        ConnError::Refused,
        ConnError::Reset,
        ConnError::Tls,
        ConnError::Dns,
        ConnError::Protocol,
        ConnError::Other,
    ]
    .iter()
    .map(|e| e.as_str())
    .collect();
    assert_eq!(names, ["timeout", "refused", "reset", "tls", "dns", "protocol", "other"]);
}

#[test]
fn first_known_cause_decides() {
    let io = |k| ErrorLink::Io(k);
    assert_eq!(classify_conn_error(&[]), ConnError::Other);
    assert_eq!(classify_conn_error(&[ErrorLink::Other, ErrorLink::Tls]), ConnError::Tls);
    assert_eq!(
        classify_conn_error(&[ErrorLink::Other, io(IoKind::TimedOut), ErrorLink::Tls]),
        ConnError::Timeout
    );
    assert_eq!(classify_conn_error(&[io(IoKind::ConnectionRefused)]), ConnError::Refused);
    for kind in [
        IoKind::ConnectionReset,
        IoKind::ConnectionAborted,
        IoKind::BrokenPipe,
        IoKind::UnexpectedEof,
    ] {
        assert_eq!(classify_conn_error(&[io(kind)]), ConnError::Reset);
    }
    assert_eq!(classify_conn_error(&[io(IoKind::AddrNotAvailable)]), ConnError::Dns);
    assert_eq!(classify_conn_error(&[io(IoKind::NotFound)]), ConnError::Dns);
    assert_eq!(classify_conn_error(&[io(IoKind::Other), ErrorLink::Tls]), ConnError::Other);
}

#[test]
fn hosts_and_ports() {
    let split = |a: &str, tls| split_host_port(&chars_of(a), tls);
    assert_eq!(split("example.com", false), ("example.com".to_string(), 80));
    assert_eq!(split("example.com", true), ("example.com".to_string(), 443));
    assert_eq!(split("example.com:8080", false), ("example.com".to_string(), 8080));
    assert_eq!(split("[::1]:9000", false), ("::1".to_string(), 9000));
    assert_eq!(split("[::1]", true), ("::1".to_string(), 443));
    assert_eq!(split("a:b", false), ("a:b".to_string(), 80));
    assert_eq!(split("a:99999", false), ("a:99999".to_string(), 80));
}

#[test]
fn base_urls() {
    let plain = parse_base("http://127.0.0.1:8080/x/y", false, false);
    assert_eq!(plain.addr, "127.0.0.1:8080");
    assert!(plain.tls.is_none() && plain.server_name.is_none());
    let bare = parse_base("example.com", false, false);
    assert_eq!(bare.addr, "example.com:80");
    let secure = parse_base("https://example.com:", true, true);
    assert_eq!(secure.addr, "example.com:443");
    let tls = secure.tls.unwrap();
    assert!(tls.insecure && tls.offers_h2);
    assert_eq!(secure.server_name.as_deref(), Some("example.com"));
    let odd = parse_base("https://exa mple", false, false);
    assert!(odd.tls.is_some() && odd.server_name.is_none());
}

#[test]
fn requests_are_put_together() {
    let built = build_request("h:1", &request("/a?b=c")).unwrap();
    assert_eq!(built.method().as_str(), "POST");
    assert_eq!(built.uri().to_string(), "/a?b=c");
    assert_eq!(built.headers()["host"], "h:1");
    assert_eq!(built.headers()["x-a"], "1");
    assert!(build_request("h:1", &request("bad path")).is_none());
    let mut odd = request("/");
    odd.headers.push(("bad name".to_string(), "x".to_string()));
    assert!(build_request("h:1", &odd).is_none());
}

#[test]
fn expectations_are_evaluated() {
    let body = Some(b"{\"name\":\"alice\",\"n\":1}".to_vec());
    let good = expect(Some(200), Some("alice"), Some("{\"name\":\"alice\"}"));
    let (passed, failures) = evaluate_expect(&good, "GET", "/me", 200, &body);
    assert_eq!((passed, failures.len()), (3, 0));

    let bad = expect(Some(201), Some("bob"), Some("{\"name\":\"bob\",\"x\":null}"));
    let (passed, failures) = evaluate_expect(&bad, "GET", "/me", 200, &body);
    assert_eq!(passed, 0);
    assert_eq!(failures.len(), 4);
    assert_eq!(failures[0].check, "status");
    assert_eq!(failures[0].expected, "201");
    assert_eq!(failures[0].actual, "200");
    assert_eq!((failures[0].method.as_str(), failures[0].path.as_str()), ("GET", "/me"));
    assert_eq!(failures[1].expected, "bob");
}

#[test]
fn every_expectation_counts_without_a_body() {
    let all = expect(Some(200), Some("x"), Some("{\"a\":1,\"b\":2}"));
    let (passed, failures) = evaluate_expect(&all, "GET", "/", 200, &None);
    assert_eq!(passed + failures.len(), 4);
    assert_eq!(passed, 1);
}

#[test]
fn parsed_bodies_are_checked() {
    let wanted = parse(b"{\"a\":1,\"b\":{\"c\":[2]},\"d\":null}").unwrap();
    let body = parse(b"{\"b\":{\"c\":[2]},\"a\":2}");
    let (passed, failures) = evaluate_json(&wanted, "GET", "/p", &body);
    let found: Vec<(&str, &str, &str)> = failures
        .iter()
        .map(|f| (f.check.as_str(), f.expected.as_str(), f.actual.as_str()))
        .collect();
    assert_eq!(passed, 1);
    assert_eq!(found, [("json.a", "1", "2"), ("json.d", "null", "<missing>")]);
    let (passed, failures) = evaluate_json(&wanted, "GET", "/p", &None);
    assert_eq!((passed, failures.len()), (0, 3));
    assert!(failures.iter().all(|f| f.actual == "<body not json>" && f.path == "/p"));
    let list = parse(b"[1]").unwrap();
    assert_eq!(evaluate_json(&list, "GET", "/p", &body).0, 0);
    assert!(evaluate_json(&list, "GET", "/p", &None).1.is_empty());
}

#[test]
fn other_members_do_not_matter() {
    let wanted = expect(None, None, Some("{\"a\":{\"x\":1}}"));
    for body in ["{\"a\":{\"x\":1}}", "{\"z\":[],\"a\":{\"x\":1},\"b\":2}"] {
        let (passed, failures) =
            evaluate_expect(&wanted, "GET", "/", 200, &Some(body.as_bytes().to_vec()));
        assert_eq!((passed, failures.len()), (1, 0));
    }
    let inside = "{\"a\":{\"x\":1,\"y\":2}}".as_bytes().to_vec();
    let (passed, failures) = evaluate_expect(&wanted, "GET", "/", 200, &Some(inside));
    assert_eq!((passed, failures.len()), (0, 1));
    assert_eq!(failures[0].check, "json.a");
    assert_eq!(failures[0].expected, "{\"x\":1}");
    assert_eq!(failures[0].actual, "{\"x\":1,\"y\":2}");
    let (_, failures) = evaluate_expect(&wanted, "GET", "/", 200, &Some(b"[]".to_vec()));
    assert_eq!(failures[0].actual, "<missing>");
    let (_, failures) = evaluate_expect(&wanted, "GET", "/", 200, &Some(b"x".to_vec()));
    assert_eq!(failures[0].actual, "<body not json>");
}

#[test]
fn bytes_that_are_no_text_are_replaced() {
    let wanted = expect(None, Some("a\u{fffd}b"), None);
    let (passed, _) = evaluate_expect(&wanted, "GET", "/", 200, &Some(vec![b'a', 0xff, b'b']));
    assert_eq!(passed, 1);
}

#[test]
fn long_texts_are_cut() {
    let long = "\u{e9}".repeat(201);
    assert_eq!(truncate(&long), format!("{}...", "\u{e9}".repeat(200)));
    let fits = "x".repeat(200);
    assert_eq!(truncate(&fits), fits);
    assert_eq!(truncate("short"), "short");
}

#[test]
fn replies_become_results() {
    let mut req = request("/");
    req.expect = Some(expect(Some(200), None, None));
    let ok = finish_response(Reply { status: 204, body: Ok(b"abc".to_vec()) }, 15, &req);
    assert!(ok.is_success && ok.error.is_none());
    assert_eq!((ok.status, ok.latency_us, ok.bytes), (204, 15, 3));
    assert_eq!((ok.check_passed, ok.check_failures.len()), (0, 1));
    assert_eq!(ok.body.as_deref(), Some(&b"abc"[..]));

    req.capture_body = false;
    let refused = finish_response(Reply { status: 500, body: Ok(b"no".to_vec()) }, 1, &req);
    assert!(refused.is_success && refused.body.is_none() && refused.error.is_none());
    assert_eq!((refused.status, refused.bytes), (500, 2));

    let broken = ErrorLink::Io(IoKind::ConnectionReset);
    let cut = finish_response(Reply { status: 200, body: Err(vec![broken]) }, 2, &req);
    assert!(!cut.is_success && cut.body.is_none());
    assert_eq!((cut.status, cut.bytes, cut.error), (0, 0, Some(ConnError::Reset)));
    assert_eq!((cut.check_passed, cut.check_failures.len()), (1, 0));

    let lost = Connection::request(&req, Err(ConnError::Reset), 9);
    assert_eq!((lost.status, lost.latency_us, lost.error), (0, 9, Some(ConnError::Reset)));
    assert_eq!(fail(3, ConnError::Dns).error, Some(ConnError::Dns));
}

#[test]
fn connections_open_in_stages() {
    let secure = Connection::new("https://example.com", false);
    let plain = Connection::new("http://example.com", false);
    assert_eq!(
        secure.connect(LinkStage::Tcp, &LinkEvent::Done),
        LinkStep::Go(LinkStage::Tls)
    );
    assert_eq!(
        plain.connect(LinkStage::Tcp, &LinkEvent::Done),
        LinkStep::Go(LinkStage::Handshake)
    );
    assert_eq!(
        secure.connect(LinkStage::Tls, &LinkEvent::Failed(vec![])),
        LinkStep::Down(ConnError::Tls)
    );
    assert_eq!(
        plain.connect(LinkStage::Tcp, &LinkEvent::TimedOut),
        LinkStep::Down(ConnError::Timeout)
    );
    assert_eq!(secure.connect(LinkStage::Handshake, &LinkEvent::Done), LinkStep::Up);
}

#[test]
fn broken_connections_open_again() {
    let mut conn = Connection::new("http://h:1", false);
    let req = request("/");
    assert!(matches!(conn.send(&req, SendEvent::Begin), SendStep::Connect));
    assert!(matches!(conn.send(&req, SendEvent::Connected), SendStep::Transmit(_)));
    assert!(matches!(conn.send(&req, SendEvent::Begin), SendStep::Transmit(_)));
    let broken = SendEvent::Broken(vec![ErrorLink::Io(IoKind::BrokenPipe)]);
    assert!(matches!(conn.send(&req, broken), SendStep::Fail(ConnError::Reset)));
    assert!(matches!(conn.send(&req, SendEvent::Begin), SendStep::Connect));
    let refused = SendEvent::ConnectFailed(ConnError::Refused);
    assert!(matches!(conn.send(&req, refused), SendStep::Fail(ConnError::Refused)));
    assert!(matches!(
        Connection::new("http://h:1", false).send(&request("no good"), SendEvent::Connected),
        SendStep::Fail(ConnError::Other)
    ));
}

#[test]
fn pooled_connections_take_turns() {
    let mut pool = H2Pool::new("https://example.com", true);
    assert!(pool.tls.unwrap().offers_h2);
    let turns: Vec<usize> = (0..H2_POOL_SIZE + 2).map(|_| pool.take_turn()).collect();
    assert_eq!(turns, [0, 1, 2, 3, 4, 5, 6, 7, 0, 1]);
    pool.next = u64::MAX;
    assert_eq!((pool.take_turn(), pool.take_turn()), (7, 0));

    let req = request("/");
    assert!(matches!(pool.request(3, &req, SendEvent::Begin, false), SendStep::Connect));
    assert!(matches!(pool.request(3, &req, SendEvent::Connected, false), SendStep::Transmit(_)));
    assert_eq!(pool.slots[3], true);
    let broken = || SendEvent::Broken(vec![ErrorLink::Tls]);
    assert!(matches!(pool.request(3, &req, broken(), true), SendStep::Fail(ConnError::Tls)));
    assert_eq!(pool.slots[3], true);
    assert!(matches!(pool.request(3, &req, broken(), false), SendStep::Fail(ConnError::Tls)));
    assert_eq!(pool.slots[3], false);
}

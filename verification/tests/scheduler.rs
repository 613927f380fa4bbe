use loadforge::client::{ConnError, Request, RequestResult};
use loadforge::metrics::{Elapsed, Metrics};
use loadforge::scheduler::{
    acquire_iteration, parse_method, record_result, spawn_endpoint_vus, spawn_flow_vus, Deadline,
    Endpoint, FlowStep, HttpRun, HttpVu, Pace, Phase, RateLimiter, Real, Selector, Stages,
    VuAction, VuEvent, Work,
};
use loadforge::template::parse_extract_path;

fn endpoint(path: &str, weight: u32) -> Endpoint {
    Endpoint {
        method: "GET".to_string(),
        path: path.to_string(),
        weight,
        body: None,
        headers: vec![],
        expect: None,
    }
}

fn step(path: &str) -> FlowStep {
    FlowStep {
        method: "POST".to_string(),
        path: path.to_string(),
        headers: vec![("Authorization".to_string(), "Bearer ${token}".to_string())],
        body: Some(b"id=${id}".to_vec()),
        extracts: vec![],
        expect: None,
    }
}

fn reply(body: &str) -> VuEvent {
    VuEvent::Responded(RequestResult {
        status: 200,
        latency_us: 2_000,
        bytes: body.len() as u64,
        is_success: true,
        body: Some(body.as_bytes().to_vec()),
        check_passed: 1,
        check_failures: vec![],
        error: None,
    })
}

fn sent(action: VuAction) -> Request {
    match action {
        VuAction::Send(request) => request,
        other => panic!("{:?}", other),
    }
}

fn flow(limited: bool, iterations: Option<u64>) -> HttpRun {
    let mut login = step("/login");
    login.extracts = vec![
        ("token".to_string(), parse_extract_path("$.token")),
        ("id".to_string(), parse_extract_path("user.id")),
    ];
    spawn_flow_vus(
        2,
        "http://h:1",
        &vec![login, step("/me/${id}")],
        5,
        iterations,
        false,
        false,
        false,
        limited,
    )
}

#[test]
fn methods_are_checked() {
    assert_eq!(parse_method("POST"), "POST");
    assert_eq!(parse_method("M-SEARCH"), "M-SEARCH");
    assert_eq!(parse_method("a_very_long_method_name~"), "a_very_long_method_name~");
    assert_eq!(parse_method(""), "GET");
    assert_eq!(parse_method("NO WAY"), "GET");
    assert_eq!(parse_method("GR\u{dc}N"), "GET");
}

#[test]
fn rolls_fall_by_weight() {
    let endpoints = vec![endpoint("/a", 2), endpoint("/none", 0), endpoint("/b", 3)];
    let selector = Selector::new(&endpoints);
    assert_eq!(selector.total, 5);
    assert_eq!(selector.cumulative, [2, 2, 5]);
    let chosen: Vec<&str> = (1..=5).map(|roll| selector.pick_at(roll).path.as_str()).collect();
    assert_eq!(chosen, ["/a", "/a", "/b", "/b", "/b"]);
    assert_eq!(selector.pick_at(6).path, "/a");
    assert_eq!(selector.pick_at(0).path, "/a");
}

#[test]
fn chance_stays_among_the_weights() {
    let endpoints = vec![endpoint("/none", 0), endpoint("/a", 1), endpoint("/b", 1)];
    let selector = Selector::new(&endpoints);
    let mut seen = [false; 2];
    for _ in 0..1000 {
        match selector.pick().path.as_str() {
            "/a" => seen[0] = true,
            "/b" => seen[1] = true,
            other => panic!("{}", other),
        }
    }
    assert_eq!(seen, [true, true]);
}

#[test]
fn slots_are_spaced_out() {
    let mut limiter = RateLimiter::new(100);
    assert_eq!(limiter.acquire(50), 0);
    assert_eq!(limiter.acquire(50), 100);
    assert_eq!(limiter.acquire(60), 190);
    assert_eq!(limiter.acquire(1_000), 0);
    assert_eq!(limiter.next_ns, 1_100);
    limiter.next_ns = u64::MAX;
    assert_eq!(limiter.acquire(0), u64::MAX);
    assert_eq!(limiter.next_ns, 99);
}

#[test]
fn iterations_run_out() {
    let mut remaining = 3;
    let taken: Vec<bool> = (0..5).map(|_| acquire_iteration(&mut remaining)).collect();
    assert_eq!(taken, [true, true, true, false, false]);
    assert_eq!(remaining, 0);
}

#[test]
fn largest_stage() {
    let secs = Real { bits: 30f64.to_bits() };
    assert_eq!(Stages::new(vec![(secs, 100), (secs, 250), (secs, 0)]).max_target, 250);
    assert_eq!(Stages::new(vec![]).max_target, 0);
}

#[test]
fn results_are_recorded() {
    let mut metrics = Metrics::new(1);
    if let VuEvent::Responded(mut result) = reply("abc") {
        record_result(&mut metrics, 0, &result);
        result.is_success = false;
        result.error = Some(ConnError::Reset);
        record_result(&mut metrics, 0, &result);
    }
    let s = metrics.snapshot(Elapsed { secs: 1, nanos: 0 });
    assert_eq!((s.total, s.success, s.failed, s.bytes, s.checks_passed), (2, 1, 1, 6, 2));
    assert_eq!(s.errors, vec![("reset".to_string(), 1)]);
    assert_eq!(s.errors.iter().map(|e| e.1).sum::<u64>(), s.failed);
}

#[test]
fn flows_run_their_steps_in_order() {
    let mut run = flow(false, None);
    let mut metrics = Metrics::new(5);
    let work = run.work;
    let vu: &mut HttpVu = &mut run.vus[0];
    let mut tell = |event: VuEvent| vu.step(&work, &event, &mut metrics, 0);
    let go = || VuEvent::Clock { before_deadline: true, active: false };
    assert!(matches!(tell(VuEvent::Resume), VuAction::RampUp));
    assert!(matches!(tell(VuEvent::Resume), VuAction::Open));
    assert!(matches!(tell(VuEvent::Resume), VuAction::AskClock));
    let first = sent(tell(go()));
    assert_eq!((first.method.as_str(), first.path.as_str()), ("POST", "/login"));
    assert!(first.capture_body);
    assert_eq!(first.headers[0].1, "Bearer ");
    let second = sent(tell(reply("{\"token\":\"t0\",\"user\":{\"id\":7}}")));
    assert_eq!(second.path, "/me/7");
    assert_eq!(second.headers[0], ("Authorization".to_string(), "Bearer t0".to_string()));
    assert_eq!(second.body.as_deref(), Some(&b"id=7"[..]));
    assert!(!second.capture_body);
    assert!(matches!(tell(reply("{}")), VuAction::AskClock));
    assert_eq!(sent(tell(go())).path, "/login");
    assert!(matches!(tell(reply("{}")), VuAction::Send(_)));
    assert!(matches!(tell(reply("{}")), VuAction::AskClock));
    let late = VuEvent::Clock { before_deadline: false, active: true };
    assert!(matches!(tell(late), VuAction::Stop));
    assert!(matches!(tell(VuEvent::Resume), VuAction::Stop));
    assert_eq!(metrics.total, 4);
    assert_eq!(run.vus[1].vars.get("token"), None);
}

#[test]
fn limited_requests_wait() {
    let mut run = flow(true, Some(1));
    let mut metrics = Metrics::new(5);
    let work = run.work;
    assert_eq!(run.remaining, Some(1));
    let vu: &mut HttpVu = &mut run.vus[0];
    assert_eq!(vu.pace, Pace::Count);
    let mut tell = |event: VuEvent| vu.step(&work, &event, &mut metrics, 0);
    assert!(matches!(tell(VuEvent::Resume), VuAction::Open));
    assert!(matches!(tell(VuEvent::Resume), VuAction::TakeIteration));
    assert!(matches!(tell(VuEvent::Iteration(true)), VuAction::AskPermit));
    assert_eq!(sent(tell(VuEvent::Resume)).path, "/login");
    assert!(matches!(tell(reply("{}")), VuAction::AskPermit));
    assert_eq!(sent(tell(VuEvent::Resume)).path, "/me/");
    assert!(matches!(tell(reply("{}")), VuAction::TakeIteration));
    assert!(matches!(tell(VuEvent::Iteration(false)), VuAction::Stop));
}

#[test]
fn endpoints_follow_the_curve() {
    let mut run = spawn_endpoint_vus(
        3,
        "https://example.com",
        &vec![endpoint("/a", 1)],
        9,
        None,
        true,
        true,
        true,
        false,
    );
    assert_eq!(run.deadline, Deadline::Stages);
    assert_eq!(run.vus.len(), 3);
    assert_eq!(run.vus[2].index, 2);
    assert!(run.pool.as_ref().unwrap().tls.unwrap().insecure);
    let mut metrics = Metrics::new(9);
    let work = run.work;
    let vu: &mut HttpVu = &mut run.vus[2];
    assert_eq!((vu.pace, vu.phase), (Pace::Curve, Phase::Starting));
    let mut tell = |event: VuEvent| vu.step(&work, &event, &mut metrics, 0);
    assert!(matches!(tell(VuEvent::Resume), VuAction::AskClock));
    let clock = |active| VuEvent::Clock { before_deadline: true, active };
    assert!(matches!(tell(clock(false)), VuAction::Rest));
    assert!(matches!(tell(VuEvent::Resume), VuAction::AskClock));
    let request = sent(tell(clock(true)));
    assert_eq!((request.path.as_str(), request.capture_body), ("/a", false));
    assert!(matches!(tell(reply("")), VuAction::AskClock));
    assert_eq!(metrics.total, 1);
}

#[test]
fn times_decide_without_stages() {
    let run = spawn_endpoint_vus(
        1,
        "http://h",
        &vec![endpoint("/a", 1)],
        9,
        None,
        false,
        false,
        false,
        false,
    );
    assert_eq!(run.deadline, Deadline::Secs(9));
    assert!(run.pool.is_none() && run.remaining.is_none());
    assert_eq!((run.vus[0].pace, run.vus[0].phase), (Pace::Clock, Phase::Ramping));
    assert!(matches!(run.work, Work::Endpoints(_)));
}

#[test]
fn variables_stay_with_their_user() {
    let mut run = flow(false, None);
    let mut metrics = Metrics::new(5);
    let work = run.work;
    let go = || VuEvent::Clock { before_deadline: true, active: true };
    let mut paths = Vec::new();
    for vu in run.vus.iter_mut() {
        for event in [VuEvent::Resume, VuEvent::Resume, VuEvent::Resume, go()] {
            vu.step(&work, &event, &mut metrics, 0);
        }
    }
    for (vu, id) in run.vus.iter_mut().zip([3, 4]) {
        let body = reply(&format!("{{\"user\":{{\"id\":{}}}}}", id));
        paths.push(sent(vu.step(&work, &body, &mut metrics, 0)).path);
    }
    assert_eq!(paths, ["/me/3", "/me/4"]);
    assert_eq!(run.vus[0].vars.get("id").map(String::as_str), Some("3"));
}

#[test]
fn iterations_are_shared_out() {
    let mut run = flow(true, Some(5));
    let mut metrics = Metrics::new(5);
    let mut remaining = run.remaining.unwrap();
    let work = run.work;
    let mut asked: Vec<VuAction> = Vec::new();
    for vu in run.vus.iter_mut() {
        asked.push(vu.step(&work, &VuEvent::Resume, &mut metrics, 0));
    }
    let mut permits = 0;
    while asked.iter().any(|a| !matches!(a, VuAction::Stop)) {
        for (vu, action) in run.vus.iter_mut().zip(asked.iter_mut()) {
            let event = match action {
                VuAction::Stop => continue,
                VuAction::TakeIteration => VuEvent::Iteration(acquire_iteration(&mut remaining)),
                VuAction::Send(_) => reply("{}"),
                VuAction::AskPermit => {
                    permits += 1;
                    VuEvent::Resume
                }
                _ => VuEvent::Resume,
            };
            *action = vu.step(&work, &event, &mut metrics, 0);
        }
    }
    assert!(run.vus.len() > 1);
    assert_eq!((remaining, metrics.total, permits), (0, 5 * 2, 5 * 2));
}

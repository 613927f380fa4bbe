use loadforge::client::{CheckFailure, ConnError};
use loadforge::engine::{parse_stages, Cell, Engine, Field, RunResult, Users, Workload};
use loadforge::metrics::{Elapsed, Metrics, Millis, Rate};
use loadforge::plan::{py_to_json, Entries, PlanError, PlanValue};
use loadforge::scheduler::{Pace, Real, Work};
use loadforge::template::Segment;
use loadforge::ws::WsMode;

fn text(t: &str) -> PlanValue {
    PlanValue::Text(t.to_string())
}

fn whole(n: i128) -> PlanValue {
    PlanValue::Int { value: n, double: Some(double(n as f64)) }
}

fn double(x: f64) -> Real {
    Real { bits: x.to_bits() }
}

fn entries(pairs: Vec<(&str, PlanValue)>) -> Entries {
    pairs.into_iter().map(|(k, v)| (Some(k.to_string()), v)).collect()
}

fn dict(pairs: Vec<(&str, PlanValue)>) -> PlanValue {
    PlanValue::Dict(entries(pairs))
}

fn endpoints(pairs: Vec<(&str, PlanValue)>) -> Vec<(&str, PlanValue)> {
    vec![
        ("base_url", text("http://h")),
        ("vu", whole(2)),
        ("duration", whole(3)),
        ("endpoints", PlanValue::List(vec![dict(pairs)])),
    ]
}

fn refused(plan: Vec<(&str, PlanValue)>) -> String {
    match Engine::new(&entries(plan), 0) {
        Err(PlanError::Value(message)) => message,
        Err(PlanError::Type) => "type".to_string(),
        Err(PlanError::Overflow) => "overflow".to_string(),
        Ok(engine) => panic!("{:?}", engine),
    }
}

fn accepted(plan: Vec<(&str, PlanValue)>) -> Engine {
    Engine::new(&entries(plan), 0).unwrap()
}

fn stage(duration: PlanValue, target: PlanValue) -> PlanValue {
    dict(vec![("duration", duration), ("target", target)])
}

#[test]
fn plans_for_endpoints() {
    let mut plan = endpoints(vec![
        ("method", text("post")),
        ("path", text("/a")),
        ("weight", whole(4)),
        ("body", text("\u{e9}")),
        ("headers", dict(vec![("X", text("1"))])),
        (
            "expect",
            dict(vec![
                ("status", whole(201)),
                ("body_contains", text("ok")),
                ("json", dict(vec![("b", whole(1)), ("a", PlanValue::Nothing)])),
            ]),
        ),
    ]);
    plan.push(("insecure", PlanValue::Bool(true)));
    plan.push(("http2", whole(1)));
    plan.push(("rps", whole(50)));
    plan.push(("ramp_up", PlanValue::Float(double(1.5))));
    let engine = accepted(plan);
    assert_eq!((engine.vu_count, engine.duration_secs, engine.iterations), (2, 3, None));
    assert!(engine.insecure && !engine.http2 && engine.stages.is_none());
    assert_eq!((engine.ramp_up, engine.rps), (double(1.5), Some(double(50.0))));
    match &engine.workload {
        Workload::Endpoints(all) => {
            let e = &all[0];
            assert_eq!((e.method.as_str(), e.path.as_str(), e.weight), ("POST", "/a", 4));
            assert_eq!(e.body.as_deref(), Some("\u{e9}".as_bytes()));
            assert_eq!(e.headers, vec![("X".to_string(), "1".to_string())]);
            let expect = e.expect.as_ref().unwrap();
            assert_eq!(expect.status, Some(201));
            assert_eq!(expect.body_contains.as_deref(), Some("ok"));
            assert_eq!(expect.json.as_ref().unwrap().to_text(), "{\"a\":null,\"b\":1}");
        }
        other => panic!("{:?}", other),
    }
}

#[test]
fn endpoints_have_defaults() {
    let engine = accepted(endpoints(vec![("path", text("/")), ("weight", whole(-1))]));
    match &engine.workload {
        Workload::Endpoints(all) => {
            let e = &all[0];
            assert_eq!((e.method.as_str(), e.weight), ("GET", 1));
            assert!(e.body.is_none() && e.headers.is_empty() && e.expect.is_none());
        }
        other => panic!("{:?}", other),
    }
    let upper = accepted(endpoints(vec![("path", text("/")), ("method", text("stra\u{df}e"))]));
    match &upper.workload {
        Workload::Endpoints(all) => assert_eq!(all[0].method, "STRASSE"),
        other => panic!("{:?}", other),
    }
}

#[test]
fn plans_for_flows() {
    let step = dict(vec![
        ("path", text("/login")),
        ("extract", dict(vec![("token", text("$.data.0"))])),
    ]);
    let engine = accepted(vec![
        ("base_url", text("http://h")),
        ("vu", PlanValue::Bool(true)),
        ("iterations", whole(10)),
        ("flow", PlanValue::Sequence(vec![step])),
        ("endpoints", PlanValue::Other),
    ]);
    assert_eq!((engine.vu_count, engine.duration_secs, engine.iterations), (1, 0, Some(10)));
    match &engine.workload {
        Workload::Flow(steps) => {
            assert_eq!(steps[0].extracts[0].0, "token");
            assert!(matches!(&steps[0].extracts[0].1[0], Segment::Key(k) if k == "data"));
            assert!(matches!(steps[0].extracts[0].1[1], Segment::Index(0)));
        }
        other => panic!("{:?}", other),
    }
}

#[test]
fn plans_for_streams_and_sockets() {
    let sse = || dict(vec![("path", text("/events"))]);
    let ws = dict(vec![
        ("url", text("ws://h")),
        ("message", text("hi")),
        ("mode", text("recv")),
        ("send_interval", whole(2)),
    ]);
    let socket_beside = |key, workload, base: Option<&str>| {
        let mut plan = vec![
            ("vu", whole(1)),
            ("duration", whole(1)),
            ("ws", dict(vec![("url", text("ws://h"))])),
            (key, workload),
        ];
        if let Some(url) = base {
            plan.push(("base_url", text(url)));
        }
        plan
    };
    let stream = accepted(socket_beside("sse", sse(), Some("http://h")));
    assert!(matches!(stream.workload, Workload::Sse(_)));
    assert_eq!(stream.base_url, "http://h");
    assert_eq!(refused(socket_beside("sse", sse(), None)), "missing base_url");
    let one = || PlanValue::List(vec![dict(vec![("path", text("/"))])]);
    let chosen = accepted(socket_beside("endpoints", one(), Some("http://h")));
    assert!(matches!(chosen.workload, Workload::Endpoints(_)));
    assert_eq!(refused(socket_beside("endpoints", one(), None)), "missing base_url");
    assert_eq!(refused(socket_beside("flow", one(), None)), "missing base_url");
    let socket = accepted(vec![("vu", whole(1)), ("duration", whole(1)), ("ws", ws)]);
    assert_eq!(socket.base_url, "");
    match &socket.workload {
        Workload::Ws(w) => {
            assert_eq!((w.url.as_str(), w.message.as_slice()), ("ws://h", &b"hi"[..]));
            assert_eq!((w.mode, w.send_interval), (WsMode::Recv, double(2.0)));
        }
        other => panic!("{:?}", other),
    }
    let plain = accepted(vec![
        ("vu", whole(1)),
        ("duration", whole(1)),
        ("ws", dict(vec![("url", text("ws://h")), ("mode", text("other"))])),
    ]);
    match &plain.workload {
        Workload::Ws(w) => assert_eq!((w.mode, w.message.len()), (WsMode::Echo, 0)),
        other => panic!("{:?}", other),
    }
    let missing = vec![("vu", whole(1)), ("duration", whole(1)), ("sse", sse())];
    assert_eq!(refused(missing), "missing base_url");
    let timeless = vec![("vu", whole(1)), ("iterations", whole(1)), ("sse", sse())];
    assert_eq!(refused(timeless), "sse/ws workloads require duration");
    let staged = entries(vec![
        ("stages", PlanValue::List(vec![stage(whole(1), whole(1))])),
        ("sse", sse()),
    ]);
    match Engine::new(&staged, 1) {
        Err(PlanError::Value(m)) => {
            assert_eq!(m, "stages only apply to endpoints/flow workloads");
        }
        other => panic!("{:?}", other),
    }
}

#[test]
fn plans_with_stages() {
    let list = || {
        PlanValue::List(vec![
            stage(whole(30), whole(100)),
            stage(PlanValue::Float(double(0.5)), whole(7)),
        ])
    };
    let mut plan = endpoints(vec![("path", text("/"))]);
    plan.push(("stages", list()));
    let plan = entries(plan);
    let stages = parse_stages(&plan).unwrap().unwrap();
    assert_eq!(stages, vec![(double(30.0), 100), (double(0.5), 7)]);
    let engine = Engine::new(&plan, 31).unwrap();
    assert_eq!((engine.vu_count, engine.duration_secs), (100, 31));
    assert_eq!(engine.stages.unwrap().max_target, 100);

    let mut plan = endpoints(vec![("path", text("/"))]);
    plan.push(("stages", PlanValue::List(vec![])));
    let plain = accepted(plan);
    assert_eq!((plain.vu_count, plain.duration_secs), (2, 3));
    assert!(plain.stages.is_none());

    let mut plan = endpoints(vec![("path", text("/"))]);
    plan.push(("stages", PlanValue::List(vec![stage(whole(1), whole(0))])));
    assert_eq!(Engine::new(&entries(plan), 1).unwrap().vu_count, 1);
}

#[test]
fn what_is_wrong_with_stages() {
    let with = |stages| refused(vec![("stages", stages)]);
    assert_eq!(with(text("x")), "stages must be a list");
    assert_eq!(with(PlanValue::Sequence(vec![])), "stages must be a list");
    assert_eq!(with(PlanValue::List(vec![whole(1)])), "each stage must be a dict");
    assert_eq!(with(PlanValue::List(vec![dict(vec![])])), "stage missing duration");
    assert_eq!(with(PlanValue::List(vec![stage(text("1"), whole(1))])), "stage missing duration");
    assert_eq!(with(PlanValue::List(vec![stage(whole(1), whole(-1))])), "stage missing target");
    let both = vec![
        ("stages", PlanValue::List(vec![stage(whole(1), whole(1))])),
        ("iterations", whole(5)),
    ];
    assert_eq!(refused(both), "stages and iterations are mutually exclusive");
    assert_eq!(with(PlanValue::Nothing), "missing vu");
}

#[test]
fn what_is_wrong_with_plans() {
    assert_eq!(refused(vec![]), "missing vu");
    assert_eq!(refused(vec![("vu", text("1"))]), "type");
    assert_eq!(refused(vec![("vu", whole(-1))]), "overflow");
    assert_eq!(refused(vec![("vu", whole(1 << 32))]), "overflow");
    assert_eq!(refused(vec![("vu", whole(1))]), "missing duration, iterations, or stages");
    assert_eq!(
        refused(vec![("vu", whole(1)), ("duration", whole(0)), ("iterations", whole(0))]),
        "missing duration, iterations, or stages"
    );
    assert_eq!(
        refused(vec![("vu", whole(1)), ("duration", PlanValue::Float(double(1.0)))]),
        "type"
    );
    assert_eq!(refused(vec![("vu", whole(1)), ("duration", whole(1 << 64))]), "overflow");
    let short = || vec![("vu", whole(1)), ("duration", whole(1))];
    assert_eq!(refused(short()), "missing endpoints, flow, sse, or ws");
    let with = |key, value| {
        let mut plan = short();
        plan.push((key, value));
        refused(plan)
    };
    assert_eq!(with("flow", PlanValue::Nothing), "type");
    assert_eq!(with("flow", PlanValue::List(vec![text("x")])), "type");
    assert_eq!(with("endpoints", dict(vec![])), "type");
    assert_eq!(with("endpoints", PlanValue::List(vec![])), "missing base_url");
    assert_eq!(with("sse", whole(1)), "sse must be a dict");
    assert_eq!(with("sse", dict(vec![])), "missing path");
    assert_eq!(with("ws", whole(1)), "ws must be a dict");
    assert_eq!(with("ws", dict(vec![])), "missing url");
    assert_eq!(with("ws", dict(vec![("url", whole(1))])), "type");
}

#[test]
fn what_is_wrong_with_requests() {
    let with = |key, value| refused(endpoints(vec![("path", text("/")), (key, value)]));
    assert_eq!(refused(endpoints(vec![])), "missing path");
    assert_eq!(refused(endpoints(vec![("path", whole(1))])), "type");
    assert_eq!(with("method", whole(1)), "type");
    assert_eq!(with("body", whole(1)), "body must be a string");
    assert_eq!(with("headers", whole(1)), "headers must be a dict of strings");
    assert_eq!(with("headers", dict(vec![("a", whole(1))])), "headers must be a dict of strings");
    assert_eq!(
        with("headers", PlanValue::Dict(vec![(None, text("x"))])),
        "headers must be a dict of strings"
    );
    assert_eq!(with("expect", text("x")), "expect must be a dict");
    assert_eq!(with("expect", dict(vec![("body_contains", whole(1))])), "type");
    let step = |extract| {
        refused(vec![
            ("vu", whole(1)),
            ("duration", whole(1)),
            (
                "flow",
                PlanValue::List(vec![dict(vec![("path", text("/")), ("extract", extract)])]),
            ),
        ])
    };
    assert_eq!(step(text("x")), "extract must be a dict");
    assert_eq!(step(dict(vec![("a", whole(1))])), "type");
}

#[test]
fn values_become_json() {
    let json = |v: PlanValue| py_to_json(&v).to_text();
    assert_eq!(json(PlanValue::Nothing), "null");
    assert_eq!(json(PlanValue::Bool(true)), "true");
    assert_eq!(json(whole(-5)), "-5");
    assert_eq!(json(whole(u64::MAX as i128)), "18446744073709551615");
    assert_eq!(json(whole(1 << 64)), "1.8446744073709552e+19");
    assert_eq!(json(PlanValue::Int { value: i128::MAX, double: None }), "null");
    assert_eq!(json(PlanValue::Float(double(0.25))), "0.25");
    assert_eq!(json(PlanValue::Float(double(f64::NAN))), "null");
    assert_eq!(json(PlanValue::Float(double(f64::INFINITY))), "null");
    assert_eq!(json(PlanValue::Sequence(vec![whole(1)])), "null");
    assert_eq!(json(PlanValue::List(vec![text("a"), PlanValue::Other])), "[\"a\",null]");
    let odd = PlanValue::Dict(vec![
        (Some("z".to_string()), whole(1)),
        (None, whole(2)),
        (None, whole(3)),
        (Some("a".to_string()), dict(vec![])),
    ]);
    assert_eq!(json(odd), "{\"\":3,\"a\":{},\"z\":1}");
}

#[test]
fn runs_start_with_their_users() {
    let engine = accepted(endpoints(vec![("path", text("/"))]));
    let run = engine.run(true);
    assert_eq!((run.metrics.total, run.metrics.seconds.len()), (0, 5));
    match &run.users {
        Users::Http(http) => {
            assert_eq!(http.vus.len(), 2);
            assert_eq!(http.base_url, "http://h");
            assert!(http.vus[1].limited && http.vus[1].pace == Pace::Clock);
            assert!(matches!(http.work, Work::Endpoints(_)));
        }
        _ => panic!("no HTTP users"),
    }
    let ws = accepted(vec![
        ("vu", whole(3)),
        ("duration", whole(1)),
        ("ws", dict(vec![("url", text("ws://h"))])),
    ]);
    match &ws.run(false).users {
        Users::Ws(w) => assert_eq!((w.vus.len(), w.duration_secs), (3, 1)),
        _ => panic!("no such users"),
    }
}

#[test]
fn results_have_their_names() {
    let mut m = Metrics::new(1);
    m.record(0, 4_000, 404, 9, false, Some(ConnError::Tls));
    m.record(0, 8_000, 200, 1, true, None);
    let failure = CheckFailure {
        method: "GET".to_string(),
        path: "/p".to_string(),
        check: "status".to_string(),
        expected: "200".to_string(),
        actual: "404".to_string(),
    };
    m.record_checks(3, &vec![failure]);
    let elapsed = Elapsed { secs: 0, nanos: 5 };
    let result = RunResult::new(&m, elapsed).to_dict();
    let names: Vec<&str> = result.iter().map(|f| f.0).collect();
    assert_eq!(
        names,
        [
            "total",
            "success",
            "failed",
            "elapsed_secs",
            "rps",
            "bytes",
            "min_ms",
            "max_ms",
            "avg_ms",
            "p50_ms",
            "p95_ms",
            "p99_ms",
            "percentiles",
            "status_codes",
            "checks_passed",
            "checks_failed",
            "check_failures",
            "time_series",
            "errors"
        ]
    );
    let find = |name: &str| &result.iter().find(|f| f.0 == name).unwrap().1;
    assert!(matches!(find("total"), Field::One(Cell::Count(2))));
    assert!(matches!(find("bytes"), Field::One(Cell::Count(10))));
    let rate = Rate { events: 2, over: elapsed };
    assert!(matches!(find("rps"), Field::One(Cell::PerSecond(r)) if *r == rate));
    assert!(matches!(find("elapsed_secs"), Field::One(Cell::Seconds(e)) if *e == elapsed));
    let avg = Millis { sum_us: 12_000, count: 2 };
    assert!(matches!(find("avg_ms"), Field::One(Cell::Millis(m)) if *m == avg));
    assert!(matches!(find("p99_ms"), Field::One(Cell::WholeMillis(4))));
    match find("status_codes") {
        Field::ByNumber(all) => {
            let codes: Vec<u64> = all.iter().map(|c| c.0).collect();
            assert_eq!(codes, [200, 404]);
            assert!(matches!(all[1].1, Cell::Count(1)));
        }
        other => panic!("{:?}", other),
    }
    match find("percentiles") {
        Field::ByNumber(all) => {
            let percents: Vec<u64> = all.iter().map(|c| c.0).collect();
            assert_eq!(percents, [50, 75, 90, 95, 99]);
        }
        other => panic!("{:?}", other),
    }
    match find("check_failures") {
        Field::Table(rows) => {
            let keys: Vec<&str> = rows[0].iter().map(|c| c.0).collect();
            assert_eq!(keys, ["method", "path", "check", "expected", "actual"]);
            assert!(matches!(&rows[0][4].1, Cell::Text(t) if t == "404"));
        }
        other => panic!("{:?}", other),
    }
    match find("time_series") {
        Field::Table(rows) => {
            assert_eq!(rows.len(), 1);
            let keys: Vec<&str> = rows[0].iter().map(|c| c.0).collect();
            assert_eq!(keys, ["t", "requests", "success", "failed", "bytes", "avg_ms"]);
        }
        other => panic!("{:?}", other),
    }
    match find("errors") {
        Field::ByName(all) => {
            assert_eq!(all[0].0, "tls");
            assert!(matches!(all[0].1, Cell::Count(1)));
        }
        other => panic!("{:?}", other),
    }
}

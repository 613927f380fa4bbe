use loadforge::json::parse;
use loadforge::template::{extract_vars, parse_extract_path, substitute, walk, Segment, Vars};

fn path(text: &str) -> Vec<String> {
    parse_extract_path(text)
        .iter()
        .map(|s| match s {
            Segment::Key(k) => format!("key {}", k),
            Segment::Index(i) => format!("index {}", i),
        })
        .collect()
}

fn vars(pairs: &[(&str, &str)]) -> Vars {
    let mut vars = Vars::new();
    for (k, v) in pairs {
        vars.insert(k.to_string(), v.to_string());
    }
    vars
}

#[test]
fn paths_are_taken_apart() {
    assert_eq!(path("data.token"), ["key data", "key token"]);
    assert_eq!(path("$.data.token"), ["key data", "key token"]);
    assert_eq!(path("items.0.id"), ["key items", "index 0", "key id"]);
    assert_eq!(path("  $ "), Vec::<String>::new());
    assert_eq!(path("$x..y."), ["key x", "key y"]);
    assert_eq!(path("$.$.a"), ["key a"]);
    for p in ["data.token", ".a", "items.0.id ", ""] {
        assert_eq!(path(&format!("$.{}", p)), path(p));
        assert_eq!(path(&format!("${}", p)), path(p));
    }
    assert_eq!(path("+5"), ["index 5"]);
    assert_eq!(path("99999999999999999999999"), ["key 99999999999999999999999"]);
}

#[test]
fn paths_are_walked() {
    let text = "{\"a\":{\"t\":\"x y\",\"n\":1.5,\"b\":true,\"z\":null,\"l\":[1,{\"k\":2}]}}";
    let value = parse(text.as_bytes()).unwrap();
    let at = |p: &str| walk(&value, &parse_extract_path(p));
    assert_eq!(at("a.t").as_deref(), Some("x y"));
    assert_eq!(at("a.n").as_deref(), Some("1.5"));
    assert_eq!(at("a.b").as_deref(), Some("true"));
    assert_eq!(at("a.z"), None);
    assert_eq!(at("a.l").as_deref(), Some("[1,{\"k\":2}]"));
    assert_eq!(at("a.l.1.k").as_deref(), Some("2"));
    assert_eq!(at("a.l.2"), None);
    assert_eq!(at("a.t.0"), None);
    assert_eq!(at("b"), None);
}

#[test]
fn variables_are_replaced() {
    let v = vars(&[("name", "bob"), ("id", "7")]);
    assert_eq!(substitute("/users/${id}/${name}", &v), "/users/7/bob");
    assert_eq!(substitute("no variables", &v), "no variables");
    assert_eq!(substitute("a${missing}b", &v), "ab");
    assert_eq!(substitute("cost $5 ${id}", &v), "cost $5 7");
    assert_eq!(substitute("open ${id", &v), "open ${id");
    assert_eq!(substitute("${${id}", &v), "");
    assert_eq!(substitute("${id}${id}$", &v), "77$");
    assert_eq!(substitute("\u{e9}${name}\u{e9}", &v), "\u{e9}bob\u{e9}");
}

#[test]
fn templates_one_after_the_other() {
    let v = vars(&[("name", "bob"), ("id", "7")]);
    for (a, b) in [
        ("/u/${id}/", "${name}"),
        ("", "${id}"),
        ("$ ${x}", "{id}"),
        ("a}", "${id"),
        ("cost $", "5 ${id}"),
        ("${id}$", "${name}"),
        ("${id", "${name"),
        ("${id}$", "{name"),
    ] {
        let joined = format!("{}{}", a, b);
        assert_eq!(substitute(&joined, &v), substitute(a, &v) + &substitute(b, &v));
    }
    assert_eq!(substitute("$", &v) + &substitute("{id}", &v), "${id}");
    assert_eq!(substitute("${id}", &v), "7");
}

#[test]
fn later_values_replace_earlier_ones() {
    let mut v = vars(&[("a", "1"), ("b", "2"), ("a", "3")]);
    assert_eq!(v.get("a").map(String::as_str), Some("3"));
    assert_eq!(v.get("b").map(String::as_str), Some("2"));
    assert_eq!(v.get("c"), None);
    v.insert("c".to_string(), String::new());
    assert_eq!(v.get("c").map(String::as_str), Some(""));
}

#[test]
fn variables_come_from_replies() {
    let mut v = vars(&[("old", "kept"), ("token", "stale")]);
    let extracts = vec![
        ("token".to_string(), parse_extract_path("$.data.token")),
        ("none".to_string(), parse_extract_path("data.missing")),
        ("first".to_string(), parse_extract_path("data.list.0")),
    ];
    extract_vars(b"{\"data\":{\"token\":\"t1\",\"list\":[9]}}", &extracts, &mut v);
    assert_eq!(v.get("token").map(String::as_str), Some("t1"));
    assert_eq!(v.get("first").map(String::as_str), Some("9"));
    assert_eq!(v.get("old").map(String::as_str), Some("kept"));
    assert_eq!(v.get("none"), None);
    extract_vars(b"not json", &extracts, &mut v);
    assert_eq!(v.get("token").map(String::as_str), Some("t1"));
}

use loadforge::json::{parse, put_member, Json, Number};

fn read(text: &str) -> Json {
    parse(text.as_bytes()).unwrap()
}

#[test]
fn json_is_read_and_written() {
    for text in ["null", "true", "7", "-7", "1.5", "\"a\\n\"", "[1,[],{}]", "{\"a\":1,\"b\":[2]}"] {
        assert_eq!(read(text).to_text(), text);
    }
    assert_eq!(read("{\"b\":1,\"a\":2}").to_text(), "{\"a\":2,\"b\":1}");
    assert!(parse(b"{").is_none());
    assert!(parse(b"").is_none());
}

#[test]
fn json_numbers_keep_their_kind() {
    assert!(matches!(read("7"), Json::Number(Number::PosInt(7))));
    assert!(matches!(read("-7"), Json::Number(Number::NegInt(-7))));
    match read("0.5") {
        Json::Number(Number::Float(bits)) => assert_eq!(f64::from_bits(bits), 0.5),
        other => panic!("{:?}", other),
    }
    assert!(matches!(read("18446744073709551615"), Json::Number(Number::PosInt(u64::MAX))));
}

#[test]
fn json_parts_are_found() {
    let value = read("{\"a\":{\"b\":[10,20]},\"a2\":null}");
    let list = value.get_key("a").unwrap().get_key("b").unwrap();
    assert_eq!(list.get_index(1).unwrap().to_text(), "20");
    assert!(list.get_index(2).is_none());
    assert!(list.get_key("0").is_none());
    assert!(value.get_key("c").is_none());
    assert_eq!(value.get_key("a2").unwrap().to_text(), "null");
}

#[test]
fn json_values_are_compared() {
    assert!(read("{\"a\":[1,2]}").same(&read("{ \"a\" : [1, 2] }")));
    assert!(!read("1").same(&read("1.0")));
    assert!(read("0.0").same(&read("-0.0")));
    assert!(!read("[1]").same(&read("[1,1]")));
    let value = read("{\"a\":[1,2]}");
    assert!(value.same(&value.copy()));
}

#[test]
fn later_members_win() {
    let mut members: Vec<(String, Json)> = Vec::new();
    put_member(&mut members, "b".to_string(), Json::Bool(true));
    put_member(&mut members, "a".to_string(), Json::Null);
    put_member(&mut members, "b".to_string(), Json::Bool(false));
    assert_eq!(Json::Object(members).to_text(), "{\"a\":null,\"b\":false}");
}

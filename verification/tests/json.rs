use llmkeyrotator::json::{copy_items, Json};

fn json(text: &str) -> Json {
    Json::parse(text).unwrap()
}

#[test]
fn texts_are_read_and_written() {
    let text = r#"{"a":[1,-2,2.5,true,null,"x\n"],"b":{}}"#;
    assert_eq!(json(text).to_text(), text);
    assert_eq!(json(text).to_bytes(), text.as_bytes().to_vec());
}

#[test]
fn bytes_are_read() {
    assert_eq!(Json::parse_bytes(b" [1, 2] ").unwrap().to_text(), "[1,2]");
    assert!(Json::parse_bytes(b"[1,").is_none());
    assert!(Json::parse_bytes(b"\xff").is_none());
}

#[test]
fn what_spells_no_value_is_not_read() {
    assert!(Json::parse("").is_none());
    assert!(Json::parse("{").is_none());
    assert!(Json::parse("nope").is_none());
    assert!(Json::parse("1 2").is_none());
}

#[test]
fn values_are_told_apart() {
    assert_eq!(json("null"), Json::Null);
    assert_eq!(json("true"), Json::Bool(true));
    assert_eq!(json("7"), Json::Unsigned(7));
    assert_eq!(json("18446744073709551615"), Json::Unsigned(u64::MAX));
    assert_eq!(json("-7"), Json::Signed(-7));
    assert_eq!(json("\"s\""), Json::String("s".to_string()));
    assert_eq!(json("[null]"), Json::Array(vec![Json::Null]));
    assert_eq!(json("{\"k\":1}"), Json::Object(vec![("k".to_string(), Json::Unsigned(1))]));
    assert!(matches!(json("1.5"), Json::Fraction(_)));
    assert!(matches!(json("18446744073709551616"), Json::Fraction(_)));
}

#[test]
fn members_are_written_by_name_and_the_later_counts() {
    assert_eq!(json(r#"{"b":1,"a":2,"b":3}"#).to_text(), r#"{"a":2,"b":3}"#);
    let twice = Json::Object(vec![
        ("k".to_string(), Json::Unsigned(1)),
        ("k".to_string(), Json::Unsigned(2)),
    ]);
    assert_eq!(twice.get("k"), Some(&Json::Unsigned(2)));
    assert_eq!(twice.to_text(), r#"{"k":2}"#);
}

#[test]
fn outside_values_are_carried_over_and_back() {
    let text = r#"{"a":[1,-2,0.25,false,null,"x"],"b":{"c":"d"}}"#;
    let value: serde_json::Value = serde_json::from_str(text).unwrap();
    let carried = Json::from_value(value.clone());
    assert_eq!(carried, json(text));
    assert_eq!(carried.to_value(), value);
}

#[test]
fn values_are_asked() {
    let value = json(r#"{"s":"t","a":[1],"u":5,"n":-5,"f":1.5,"b":true,"z":null}"#);
    assert_eq!(value.str_at("s"), Some("t"));
    assert_eq!(value.str_at("u"), None);
    assert_eq!(value.str_at("none"), None);
    assert_eq!(value.str_or("s", "d"), "t");
    assert_eq!(value.str_or("u", "d"), "d");
    assert_eq!(value.array_at("a"), Some(&vec![Json::Unsigned(1)]));
    assert_eq!(value.array_at("s"), None);
    assert_eq!(value.u64_at("u"), Some(5));
    assert_eq!(value.u64_at("n"), None);
    assert_eq!(value.u64_at("f"), None);
    assert_eq!(value.get("b").unwrap().as_bool(), Some(true));
    assert_eq!(value.get("z").unwrap().as_bool(), None);
    assert_eq!(value.get("z").unwrap().as_str(), None);
    assert_eq!(value.get("z").unwrap().as_array(), None);
    assert_eq!(Json::Signed(4).as_u64(), Some(4));
    assert_eq!(Json::Null.get("k"), None);
    assert_eq!(Json::Array(vec![]).get("k"), None);
}

#[test]
fn members_are_set() {
    let mut value = json(r#"{"a":1,"b":2}"#);
    value.set("a", Json::text("x"));
    value.set("c", Json::Null);
    assert_eq!(value.to_text(), r#"{"a":"x","b":2,"c":null}"#);
    let mut null = Json::Null;
    null.set("k", Json::Bool(false));
    assert_eq!(null.to_text(), r#"{"k":false}"#);
    assert_eq!(Json::object().with("k", Json::text("v")).to_text(), r#"{"k":"v"}"#);
}

#[test]
fn members_fit_objects_and_null() {
    assert!(Json::Null.accepts_members());
    assert!(Json::object().accepts_members());
    assert!(!json("[]").accepts_members());
    assert!(!json("\"s\"").accepts_members());
    assert!(!json("1").accepts_members());
    assert!(!json("1.5").accepts_members());
    assert!(!json("true").accepts_members());
}

#[test]
fn copies_are_equal() {
    let value = json(r#"{"a":[1,-2,2.5,true,null,"x",{"b":[]}]}"#);
    assert_eq!(value.copy(), value);
    assert_eq!(value.clone(), value);
    let items = vec![json("2.5"), Json::text("x")];
    assert_eq!(copy_items(&items), items);
}

#[test]
fn what_is_written_reads_back() {
    for text in [
        "null",
        "-9223372036854775808",
        "18446744073709551615",
        r#"{"a":[{"b":[]},"\u0000\u001f\"\\/é\u2028😀"],"":{}}"#,
    ] {
        let value = json(text);
        assert_eq!(Json::parse(&value.to_text()), Some(value.copy()));
        assert_eq!(Json::parse_bytes(&value.to_bytes()), Some(value));
    }
}

#[test]
fn values_read_back_up_to_the_depth_that_is_read() {
    let mut value = Json::Null;
    for _ in 0..127 {
        value = Json::Array(vec![value]);
    }
    assert_eq!(Json::parse(&value.to_text()), Some(value.copy()));
    let deeper = Json::Array(vec![value]);
    assert_eq!(Json::parse(&deeper.to_text()), None);
}

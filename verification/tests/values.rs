use copierr::double::Double;
use copierr::json::{
    as_f64, as_i64, enum_number, list_of, member_in, no_members, number_json, object, put, read_json,
    value_to_string, write_json, Json,
};

fn show(json: &Json) -> String {
    match json {
        Json::Null => "null".to_string(),
        Json::Bool(flag) => flag.to_string(),
        Json::Unsigned(number) => number.to_string(),
        Json::Signed(number) => number.to_string(),
        Json::Decimal(number) => number.clone(),
        Json::Text(text) => format!("{text:?}"),
        Json::List(items) => {
            let shown: Vec<String> = items.iter().map(show).collect();
            format!("[{}]", shown.join(","))
        }
        Json::Object(members) => {
            let shown: Vec<String> =
                members.iter().map(|(name, member)| format!("{name:?}:{}", show(member))).collect();
            format!("{{{}}}", shown.join(","))
        }
    }
}

fn number(json: &str) -> Option<f64> {
    as_f64(&read_json(json).expect("a value")).map(|number| f64::from_bits(number.bits))
}

#[test]
fn a_text_is_read_as_a_value() {
    let json = read_json(r#" {"a": [1, -2, 3.5, true, null, "x\ny"], "b": {"c": {}}} "#).expect("a value");
    assert_eq!(show(&json), r#"{"a":[1,-2,3.5,true,null,"x\ny"],"b":{"c":{}}}"#);
    assert!(matches!(json.get("a").and_then(|list| list.as_list()).map(|list| list.len()), Some(6)));
    assert!(json.get("z").is_none());
    assert!(json.as_list().is_none());
    assert!(member_in(json.get("b"), "c").is_some());
    assert!(member_in(json.get("z"), "c").is_none());
}

#[test]
fn a_text_that_writes_nothing_is_an_error() {
    assert_eq!(
        read_json("{\"a\":").expect_err("an error"),
        serde_json::from_str::<serde_json::Value>("{\"a\":").expect_err("an error").to_string()
    );
    assert!(read_json("").is_err());
    assert!(read_json("{} x").is_err());
}

#[test]
fn whole_numbers_are_read_from_numbers_and_texts() {
    let whole = |json: &str| as_i64(&read_json(json).expect("a value"));
    assert_eq!(whole("42"), Some(42));
    assert_eq!(whole("-42"), Some(-42));
    assert_eq!(whole("9223372036854775807"), Some(i64::MAX));
    assert_eq!(whole("-9223372036854775808"), Some(i64::MIN));
    assert_eq!(whole("9223372036854775808"), None);
    assert_eq!(whole("1.0"), None);
    assert_eq!(whole("\"17\""), Some(17));
    assert_eq!(whole("\"+17\""), Some(17));
    assert_eq!(whole("\" 17\""), None);
    assert_eq!(whole("true"), None);
    assert_eq!(read_json("\"17\"").expect("a value").as_whole(), None);
    assert_eq!(read_json("17").expect("a value").as_whole(), Some(17));
}

#[test]
fn numbers_are_read_from_numbers_and_texts() {
    for json in [
        "0", "1", "-1", "1.5", "0.1", "1e300", "1e-300", "123456789.123456789", "1e16", "-2.5e-7", "5e-324",
        "1.7976931348623157e308", "18446744073709551615", "-9223372036854775808", "9007199254740993", "-0.0",
        "1e2", "100000000000000000000",
    ] {
        let theirs: serde_json::Value = serde_json::from_str(json).expect("a value");
        assert_eq!(number(json).map(f64::to_bits), theirs.as_f64().map(f64::to_bits), "{json}");
    }
    assert_eq!(number("\"2.25\""), Some(2.25));
    assert_eq!(number("\"x\""), None);
    assert_eq!(number("null"), None);
    assert_eq!(number("[1]"), None);
}

#[test]
fn names_are_read_from_texts_and_whole_numbers() {
    let text = |json: &str| value_to_string(&read_json(json).expect("a value"));
    assert_eq!(text("\"abc\"").as_deref(), Some("abc"));
    assert_eq!(text("17").as_deref(), Some("17"));
    assert_eq!(text("-17").as_deref(), Some("-17"));
    assert_eq!(text("18446744073709551615").as_deref(), Some("18446744073709551615"));
    assert_eq!(text("1.5"), None);
    assert_eq!(text("null"), None);
}

#[test]
fn numbers_stand_for_names() {
    let names = [("BUY", 1), ("SELL", 2)];
    let told = |json: &str| enum_number(Some(&read_json(json).expect("a value")), &names);
    assert_eq!(told("2"), Some(2));
    assert_eq!(told("7"), Some(7));
    assert_eq!(told("\"3\""), Some(3));
    assert_eq!(told("\"SELL\""), Some(2));
    assert_eq!(told("\"sell\""), None);
    assert_eq!(told("null"), None);
    assert_eq!(enum_number(None, &names), None);
}

#[test]
fn values_are_built() {
    let mut members = no_members();
    put(&mut members, "n", number_json(Double { bits: 0.25f64.to_bits() }));
    put(&mut members, "l", list_of(&vec![3, -4]));
    assert_eq!(show(&object(members)), r#"{"n":0.25,"l":[3,-4]}"#);
}

#[test]
fn numbers_that_are_not_finite_become_null() {
    for x in [f64::NAN, f64::INFINITY, f64::NEG_INFINITY] {
        assert!(matches!(number_json(Double { bits: x.to_bits() }), Json::Null));
    }
    assert!(matches!(number_json(Double { bits: 1.5f64.to_bits() }), Json::Decimal(_)));
}

#[test]
fn a_value_is_written_as_a_text() {
    let json = Json::Object(vec![
        ("b".into(), Json::List(vec![Json::Null, Json::Bool(true), Json::Unsigned(u64::MAX), Json::Signed(-7)])),
        ("a".into(), Json::Text("x\n\"\u{1}é".into())),
        ("c".into(), number_json(Double { bits: 3.0f64.to_bits() })),
        ("d".into(), number_json(Double { bits: 0.30000000000000004f64.to_bits() })),
        ("e".into(), Json::Signed(5)),
        ("f".into(), Json::Decimal("none".into())),
    ]);
    assert_eq!(
        write_json(json),
        r#"{"a":"x\n\"\u0001é","b":[null,true,18446744073709551615,-7],"c":3.0,"d":0.30000000000000004,"e":5,"f":null}"#
    );
    assert_eq!(write_json(Json::Object(Vec::new())), "{}");
    assert_eq!(write_json(number_json(Double { bits: 1e300f64.to_bits() })), "1e+300");
}

#[test]
fn what_is_written_is_read_back() {
    let text = r#"{"a":{"b":[[],{},"\t"],"c":-1},"z":[0,true,null]}"#;
    let json = read_json(text).expect("a value");
    assert_eq!(write_json(json), text);
    let mut deep = Json::Null;
    for _ in 0..127 {
        deep = Json::List(vec![deep]);
    }
    assert!(read_json(&write_json(deep)).is_ok());
}

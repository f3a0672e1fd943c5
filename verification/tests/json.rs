use gleam_finder::json::Json;

fn parsed(text: &str) -> Json {
    Json::parse(text).unwrap()
}

#[test]
fn parse_reads_each_kind_of_value() {
    assert_eq!(parsed("null"), Json::Null);
    assert_eq!(parsed("true"), Json::Bool(true));
    assert_eq!(parsed("false"), Json::Bool(false));
    assert_eq!(parsed("12"), Json::Number(Some(12)));
    assert_eq!(parsed("\"a\\u003cb\""), Json::Text("a<b".to_string()));
    assert_eq!(parsed("[]"), Json::Array(Vec::new()));
    assert_eq!(parsed("{}"), Json::Object(Vec::new()));
    assert_eq!(
        parsed(" [1, \"two\", [3]] "),
        Json::Array(vec![
            Json::Number(Some(1)),
            Json::Text("two".to_string()),
            Json::Array(vec![Json::Number(Some(3))])
        ])
    );
}

#[test]
fn parse_keeps_the_value_of_whole_numbers_from_zero() {
    assert_eq!(parsed("0"), Json::Number(Some(0)));
    assert_eq!(parsed("18446744073709551615"), Json::Number(Some(u64::MAX)));
    assert_eq!(parsed("-1"), Json::Number(None));
    assert_eq!(parsed("1.5"), Json::Number(None));
    assert_eq!(parsed("1.0"), Json::Number(None));
    assert_eq!(parsed("1e3"), Json::Number(None));
    assert_eq!(parsed("18446744073709551616"), Json::Number(None));
}

#[test]
fn parse_refuses_what_is_no_document() {
    for text in ["", "{", "{\"a\":}", "[1,]", "nul", "{\"a\":1} x", "'a'", "{a:1}"] {
        assert_eq!(Json::parse(text), None);
    }
}

#[test]
fn parse_reads_members_with_their_keys() {
    let document = parsed("{\"b\":{\"c\":[true]},\"a\":1}");
    assert_eq!(document.u64_at("a"), Some(1));
    assert_eq!(
        document.get("b"),
        Some(&Json::Object(vec![(
            "c".to_string(),
            Json::Array(vec![Json::Bool(true)])
        )]))
    );
    assert_eq!(document.get("c"), None);
    match document {
        Json::Object(members) => assert_eq!(members.len(), 2),
        _ => panic!("an object was read"),
    }
}

#[test]
fn parse_keeps_the_last_of_two_members_with_one_key() {
    assert_eq!(parsed("{\"a\":1,\"a\":2}").u64_at("a"), Some(2));
}

#[test]
fn get_finds_the_first_member_with_the_key() {
    let object = Json::Object(vec![
        ("a".to_string(), Json::Number(Some(1))),
        ("b".to_string(), Json::Null),
        ("a".to_string(), Json::Number(Some(2))),
    ]);
    assert_eq!(object.get("a"), Some(&Json::Number(Some(1))));
    assert_eq!(object.get("b"), Some(&Json::Null));
    assert_eq!(object.get("c"), None);
    assert_eq!(object.get(""), None);
    assert_eq!(Json::Array(vec![Json::Null]).get("0"), None);
    assert_eq!(Json::Text("a".to_string()).get("a"), None);
}

#[test]
fn accessors_read_one_kind_each() {
    let text = Json::Text("t".to_string());
    let number = Json::Number(Some(3));
    let items = Json::Array(vec![Json::Null]);
    let object = Json::Object(Vec::new());
    assert_eq!(text.as_str(), Some("t"));
    assert_eq!(number.as_str(), None);
    assert_eq!(number.as_u64(), Some(3));
    assert_eq!(Json::Number(None).as_u64(), None);
    assert_eq!(text.as_u64(), None);
    assert_eq!(items.as_array(), Some(&vec![Json::Null]));
    assert_eq!(object.as_array(), None);
    assert!(object.is_object());
    assert!(!items.is_object());
    assert!(!Json::Null.is_object());
    assert!(!Json::Bool(true).is_object());
}

#[test]
fn accessors_by_key() {
    let object = Json::Object(vec![
        ("t".to_string(), Json::Text("text".to_string())),
        ("n".to_string(), Json::Number(Some(7))),
        ("a".to_string(), Json::Array(vec![Json::Bool(false)])),
    ]);
    assert_eq!(object.str_at("t"), Some("text"));
    assert_eq!(object.str_at("n"), None);
    assert_eq!(object.str_at("x"), None);
    assert_eq!(object.u64_at("n"), Some(7));
    assert_eq!(object.u64_at("t"), None);
    assert_eq!(object.array_at("a"), Some(&vec![Json::Bool(false)]));
    assert_eq!(object.array_at("t"), None);
    assert_eq!(Json::Null.str_at("t"), None);
}

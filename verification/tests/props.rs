use dotpath::coerce::coerce;
use dotpath::error::Error;
use dotpath::json::Json;
use dotpath::value::JsonValue;

const STORE: &str = r#"{"store":{"book":[{"title":"Book 1"},{"title":"Book 2"}]}}"#;

#[test]
fn validation_order_unclosed() {
    let mut j = Json::new(&"{}".to_string());
    let r = j.refer(&"a[0.b".to_string()).unwrap_err();
    assert!(matches!(r, Error::UnclosedBracket));
}

#[test]
fn validation_order_not_num() {
    let mut j = Json::new(&"{}".to_string());
    let r = j.refer(&"a[x].b".to_string()).unwrap_err();
    assert!(matches!(r, Error::NotNumInBracket));
}

#[test]
fn validation_order_not_end() {
    let mut j = Json::new(&"{}".to_string());
    let r = j.refer(&"a[0]x.b".to_string()).unwrap_err();
    assert!(matches!(r, Error::NotEndWithBracket));
}

#[test]
fn validation_order_empty() {
    let mut j = Json::new(&"{}".to_string());
    let r = j.refer(&"".to_string()).unwrap_err();
    assert!(matches!(r, Error::EmptyQuery));
}

#[test]
fn validation_order_dots() {
    let mut j = Json::new(&"{}".to_string());
    let r = j.refer(&".a".to_string()).unwrap_err();
    assert!(matches!(r, Error::StartOrEndByDot));
    let r = j.refer(&"a.".to_string()).unwrap_err();
    assert!(matches!(r, Error::StartOrEndByDot));
}

#[test]
fn coerce_number() {
    match coerce(&"19.95".to_string()) {
        JsonValue::Num(s) => assert_eq!("19.95", &s),
        _ => panic!("expected a number"),
    }
}

#[test]
fn coerce_bools_and_null() {
    assert!(matches!(coerce(&"true".to_string()), JsonValue::Bool(true)));
    assert!(matches!(coerce(&"false".to_string()), JsonValue::Bool(false)));
    assert!(matches!(coerce(&"null".to_string()), JsonValue::Null));
}

#[test]
fn coerce_array_literal() {
    match coerce(&"[a,1,true]".to_string()) {
        JsonValue::Arr(items) => {
            assert_eq!(items.len(), 3);
            match &items[0] {
                JsonValue::Text(s) => assert_eq!("a", s.as_str()),
                _ => panic!("expected a string"),
            }
            match &items[1] {
                JsonValue::Num(s) => assert_eq!("1", s.as_str()),
                _ => panic!("expected a number"),
            }
            assert!(matches!(items[2], JsonValue::Bool(true)));
        },
        _ => panic!("expected an array"),
    }
}

#[test]
fn coerce_empty_is_empty_string() {
    match coerce(&"".to_string()) {
        JsonValue::Text(s) => assert_eq!("", s.as_str()),
        _ => panic!("expected a string"),
    }
}

#[test]
fn end_to_end_scenario() {
    let mut j = Json::new(&STORE.to_string());
    let r = j.refer(&"store.book[0].title".to_string()).unwrap();
    assert_eq!("\"Book 1\"", &r);
    j.modify(&"store.book[1].title".to_string(), &"hello".to_string())
        .unwrap();
    let r = j.refer(&"store.book[1].title".to_string()).unwrap();
    assert_eq!("\"hello\"", &r);
    j.delete(&"store.book[0]".to_string()).unwrap();
    let r = j.refer(&"store.book".to_string()).unwrap();
    assert_eq!("[{\"title\":\"hello\"}]", &r);
}

#[test]
fn autovivification() {
    let mut j = Json::new(&"{}".to_string());
    j.modify(&"a.b".to_string(), &"1".to_string()).unwrap();
    let r = j.refer(&"a.b".to_string()).unwrap();
    assert_eq!("1", &r);
    let r = j.refer(&"a".to_string()).unwrap();
    assert_eq!("{\"b\":1}", &r);
}

#[test]
fn write_number_is_canonicalized() {
    let mut j = Json::new(&"{}".to_string());
    j.modify(&"a".to_string(), &"1e2".to_string()).unwrap();
    let r = j.refer(&"a".to_string()).unwrap();
    assert_eq!("100.0", &r);
}

#[test]
fn rendering_escapes_quotes() {
    let mut j = Json::new(&"{}".to_string());
    j.modify(&"a".to_string(), &"he\"llo".to_string()).unwrap();
    let r = j.refer(&"a".to_string()).unwrap();
    assert_eq!("\"he\\\"llo\"", &r);
}

#[test]
fn root_query_renders_document() {
    let mut j = Json::new(&"{\"a\":1,\"b\":[true,null]}".to_string());
    let r = j.refer(&".".to_string()).unwrap();
    assert_eq!("{\"a\":1,\"b\":[true,null]}", &r);
}

#[test]
fn index_out_of_bounds_is_reported() {
    let mut j = Json::new(&STORE.to_string());
    let r = j.refer(&"store.book[5].title".to_string()).unwrap_err();
    assert!(matches!(r, Error::IndexOutOfBounds));
    let r = j.delete(&"store.book[9]".to_string()).unwrap_err();
    assert!(matches!(r, Error::IndexOutOfBounds));
}

#[test]
fn type_mismatch_is_reported() {
    let mut j = Json::new(&STORE.to_string());
    let r = j
        .refer(&"store.book[0].title[1]".to_string())
        .unwrap_err();
    assert!(matches!(r, Error::TypeMismatch));
    let r = j.delete(&"store[0]".to_string()).unwrap_err();
    assert!(matches!(r, Error::TypeMismatch));
}

#[test]
fn failed_write_leaves_document_unchanged() {
    let mut j = Json::new(&STORE.to_string());
    let before = Json::new(&STORE.to_string());
    let r = j.modify(&"store.book[7].title".to_string(), &"x".to_string());
    assert!(matches!(r, Err(Error::IndexOutOfBounds)));
    assert_eq!(before.data, j.data);
}

#[test]
fn delete_top_level_key() {
    let mut j = Json::new(&"{\"a\":1,\"b\":2}".to_string());
    j.delete(&"a".to_string()).unwrap();
    let r = j.refer(&".".to_string()).unwrap();
    assert_eq!("{\"b\":2}", &r);
}

#[test]
fn delete_absent_key_is_a_no_op() {
    let mut j = Json::new(&"{\"a\":1}".to_string());
    j.delete(&"b".to_string()).unwrap();
    let r = j.refer(&".".to_string()).unwrap();
    assert_eq!("{\"a\":1}", &r);
}

#[test]
fn rendering_escapes_control_characters() {
    let mut j = Json::new(&"{}".to_string());
    j.modify(&"a".to_string(), &"li\nne\u{1}".to_string()).unwrap();
    let r = j.refer(&"a".to_string()).unwrap();
    assert_eq!("\"li\\nne\\u0001\"", &r);
}

#[test]
fn token_checks_read_single_tokens() {
    assert!(dotpath::path::unclosed_bracket("a[1"));
    assert!(!dotpath::path::unclosed_bracket("a[1]"));
    assert!(dotpath::path::is_contain_list_ref("a[1]"));
    assert!(!dotpath::path::is_contain_list_ref("a"));
    assert!(dotpath::path::not_num_in_bracket("a[x]"));
    assert!(!dotpath::path::not_num_in_bracket("a[10]"));
    assert!(dotpath::path::not_ends_with_bracket("a[1]b"));
    assert!(!dotpath::path::not_ends_with_bracket("a[1]"));
    assert!(dotpath::path::start_or_end_by_dot(&".a".to_string()));
    assert!(dotpath::path::start_or_end_by_dot(&"a.".to_string()));
    assert!(!dotpath::path::start_or_end_by_dot(&"a.b".to_string()));
}

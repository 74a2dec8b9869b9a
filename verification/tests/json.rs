use dbake::bakeprint::CacheEntry;
use dbake::json::{is_bake_document, is_json_bake_file, JsonDoc, JsonScalar};

#[test]
fn only_the_top_level_is_taken_apart() {
    let doc = JsonDoc::parse(r#"{"b":"x\ny","a":{"k":[1]},"c":[1,true,null]}"#).unwrap();
    assert!(matches!(doc.get("b"), Some(JsonScalar::Text(s)) if s == "x\ny"));
    assert!(matches!(doc.get("a"), Some(JsonScalar::Object(s)) if s == r#"{"k":[1]}"#));
    assert!(matches!(doc.get("c"), Some(JsonScalar::Other(s)) if s == "[1,true,null]"));
    assert!(doc.get("d").is_none());
    assert!(matches!(doc.copy().get("b"), Some(JsonScalar::Text(s)) if s == "x\ny"));
}

#[test]
fn what_is_no_object_has_no_members() {
    assert!(matches!(JsonDoc::parse(r#""a""#), Some(JsonDoc::Text(s)) if s == "a"));
    assert!(matches!(JsonDoc::parse("[1, 2]"), Some(JsonDoc::Other(s)) if s == "[1,2]"));
    assert!(JsonDoc::parse("[1, 2]").unwrap().get("0").is_none());
    assert!(JsonDoc::parse("{").is_none());
    assert!(JsonDoc::parse("").is_none());
}

#[test]
fn a_bake_document_has_targets() {
    assert!(is_json_bake_file(r#"{"target":{"a":{}}}"#));
    assert!(!is_json_bake_file(r#"{"group":{}}"#));
    assert!(!is_json_bake_file(r#"{"services":{}}"#));
    assert!(!is_json_bake_file(r#"{"target":"a"}"#));
    assert!(!is_json_bake_file("not json"));
    assert!(!is_bake_document(&JsonDoc::Text("target".to_string())));
}

#[test]
fn bare_texts_lose_their_quotes() {
    assert_eq!(JsonScalar::Text("a b".to_string()).to_bare(), "a b");
    assert_eq!(JsonScalar::Other("true".to_string()).to_bare(), "true");
}

#[test]
fn a_cache_entry_is_read_from_json() {
    assert_eq!(
        CacheEntry::from_json(r#""type=gha""#).unwrap().to_arg(),
        "type=gha"
    );
    assert_eq!(
        CacheEntry::from_json(r#"{"ref":"r/x","type":"registry"}"#)
            .unwrap()
            .to_arg(),
        "type=registry,ref=r/x"
    );
    assert!(CacheEntry::from_json("{").is_none());
}

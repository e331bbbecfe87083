use esbuild::doc::{Doc, DocValue};

fn s(x: &str) -> String {
    x.to_string()
}

fn keys(d: &Doc) -> Vec<String> {
    d.entries.iter().map(|(k, _)| k.clone()).collect()
}

#[test]
fn doc_insert_keeps_order_and_replaces_in_place() {
    let mut d = Doc::new();
    d.insert(s("a"), DocValue::Null);
    d.insert(s("b"), DocValue::Text(s("x")));
    d.insert(s("a"), DocValue::Text(s("y")));
    assert_eq!(keys(&d), vec!["a", "b"]);
    assert_eq!(d.len(), 2);
    match d.get("a") {
        Some(DocValue::Text(t)) => assert_eq!(t, "y"),
        other => panic!("unexpected: {:?}", other),
    }
    assert!(d.get("c").is_none());
    assert!(d.contains_key("b"));
}

#[test]
fn doc_append_to_list() {
    let mut d = Doc::new();
    d.insert(s("k"), DocValue::Null);
    d.append_to_list(s("k"), Doc::new());
    d.append_to_list(s("k"), Doc::new());
    d.append_to_list(s("m"), Doc::new());
    match d.get("k") {
        Some(DocValue::List(l)) => assert_eq!(l.len(), 2),
        other => panic!("unexpected: {:?}", other),
    }
    assert_eq!(keys(&d), vec!["k", "m"]);
}

#[test]
fn doc_copy_is_deep() {
    let mut inner = Doc::new();
    inner.insert(s("x"), DocValue::Json(serde_json::Value::Bool(true)));
    let mut d = Doc::new();
    d.insert(s("n"), DocValue::Nested(inner));
    let c = d.copy();
    match c.get("n") {
        Some(DocValue::Nested(i)) => match i.get("x") {
            Some(DocValue::Json(serde_json::Value::Bool(b))) => assert!(*b),
            other => panic!("unexpected: {:?}", other),
        },
        other => panic!("unexpected: {:?}", other),
    }
}

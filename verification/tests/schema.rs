use heap_analyzer::schema::{enumeration, keep_present, position, position_or, HeapMeta, Layout};
use serde_json::Value;

fn strings(list: &[&str]) -> Vec<String> {
    list.iter().map(|s| s.to_string()).collect()
}

fn values(json: &str) -> Vec<Value> {
    serde_json::from_str(json).unwrap()
}

#[test]
fn the_first_array_names_the_types() {
    let types = values(r#"[["hidden", "array", "object"], "string", "number", ["other"]]"#);
    assert_eq!(enumeration(&types), strings(&["hidden", "array", "object"]));
}

#[test]
fn only_strings_are_names() {
    let types = values(r#"[["a", 1, null, ["x"], "b", {"c": "d"}, true, ""]]"#);
    assert_eq!(enumeration(&types), strings(&["a", "b", ""]));
}

#[test]
fn without_an_array_there_are_no_names() {
    assert!(enumeration(&vec![]).is_empty());
    assert!(enumeration(&values(r#"["string", ["a"]]"#)).is_empty());
    assert!(enumeration(&values(r#"[{"0": "a"}]"#)).is_empty());
    assert!(enumeration(&values(r#"[null]"#)).is_empty());
    assert!(enumeration(&values(r#"[[]]"#)).is_empty());
}

#[test]
fn present_items_keep_their_order() {
    let items = vec![None, Some("b".to_string()), None, Some("a".to_string())];
    assert_eq!(keep_present(&items), strings(&["b", "a"]));
}

#[test]
fn the_first_place_counts() {
    let list = strings(&["type", "name", "type"]);
    assert_eq!(position(&list, "type"), Some(0));
    assert_eq!(position(&list, "name"), Some(1));
    assert_eq!(position(&list, "id"), None);
    assert_eq!(position_or(&list, "id", 4), 4);
    assert_eq!(position_or(&list, "name", 4), 1);
}

#[test]
fn columns_are_found_by_name() {
    let meta = HeapMeta {
        node_fields: strings(&[
            "detachedness", "edge_count", "self_size", "id", "name", "type",
        ]),
        node_types: vec![],
        edge_fields: strings(&["to_node", "name_or_index", "type"]),
        edge_types: vec![],
    };
    let l = Layout::of(&meta);
    assert_eq!(l.node_width, 6);
    assert_eq!((l.type_at, l.name_at, l.size_at, l.edges_at), (5, 4, 2, 1));
    assert_eq!(l.detached_at, Some(0));
    assert_eq!((l.edge_width, l.edge_type_at, l.edge_to_at), (3, 2, 0));
}

#[test]
fn missing_columns_have_their_usual_places() {
    let meta = HeapMeta {
        node_fields: strings(&["a", "b", "c", "d", "e"]),
        node_types: vec![],
        edge_fields: strings(&["a", "b", "c"]),
        edge_types: vec![],
    };
    let l = Layout::of(&meta);
    assert_eq!((l.type_at, l.name_at, l.size_at, l.edges_at), (0, 1, 3, 4));
    assert_eq!(l.detached_at, None);
    assert_eq!((l.edge_type_at, l.edge_to_at), (0, 2));
}

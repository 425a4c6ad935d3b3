use vongform::codec::decode_text;
use vongform::overrides::{
    build_overrides, build_tree, gather_entries, insert_override, key_less, override_scopes, sort_entries, Tree,
};
use vongform::requirements::Requirement;
use vongform::store::KvEntry;

fn leaf(x: &str) -> Tree {
    Tree::Leaf(x.to_string())
}

fn node(kids: Vec<(&str, Tree)>) -> Tree {
    Tree::Node(kids.into_iter().map(|(k, t)| (k.to_string(), t)).collect())
}

fn pairs(v: &[(&str, &str)]) -> Vec<(String, String)> {
    v.iter().map(|(k, t)| (k.to_string(), t.to_string())).collect()
}

fn entry(key: &str, value: &str) -> KvEntry {
    KvEntry { key: key.to_string(), value: value.to_string(), modify_index: 1 }
}

#[test]
fn tree_from_sibling_keys() {
    let t = build_tree(&pairs(&[("a/b", "X"), ("a/c", "Y")]));
    assert_eq!(t, node(vec![("a", node(vec![("b", leaf("X")), ("c", leaf("Y"))]))]));
}

#[test]
fn tree_collision_leaf_then_node() {
    let t = build_tree(&pairs(&[("a", "X"), ("a/b", "Y")]));
    assert_eq!(t, node(vec![("a", node(vec![("b", leaf("Y"))]))]));
}

#[test]
fn tree_collision_node_then_leaf() {
    let t = build_tree(&pairs(&[("a/b", "Y"), ("a", "X")]));
    assert_eq!(t, node(vec![("a", leaf("X"))]));
}

#[test]
fn tree_later_value_replaces_earlier() {
    let t = build_tree(&pairs(&[("s/k", "1"), ("s/k", "2")]));
    assert_eq!(t, node(vec![("s", node(vec![("k", leaf("2"))]))]));
}

#[test]
fn tree_empty_segments_kept() {
    let t = insert_override(node(vec![]), "svc/", &"v".to_string());
    assert_eq!(t, node(vec![("svc", node(vec![("", leaf("v"))]))]));
}

#[test]
fn tree_from_no_entries() {
    assert_eq!(build_tree(&Vec::new()), node(vec![]));
}

#[test]
fn decode_text_reads_base64() {
    assert_eq!(decode_text("aGVsbG8="), Some("hello".to_string()));
    assert_eq!(decode_text("not base64!"), None);
    assert_eq!(decode_text("/w=="), None);
}

#[test]
fn overrides_skip_bad_entries() {
    let entries = vec![
        entry("global/env", "cHJvZA=="),
        entry("global/bad", "%%%"),
        entry("svc/binary", "/w=="),
        entry("svc/port", "ODA4MA=="),
    ];
    let t = build_overrides(&entries);
    assert_eq!(
        t,
        node(vec![
            ("global", node(vec![("env", leaf("prod"))])),
            ("svc", node(vec![("port", leaf("8080"))])),
        ])
    );
}

#[test]
fn scopes_start_with_global_without_repeats() {
    let reqs = vec![
        Requirement { name: "b".to_string(), version: "1".to_string(), repository: None },
        Requirement { name: "global".to_string(), version: "1".to_string(), repository: None },
        Requirement { name: "a".to_string(), version: "1".to_string(), repository: None },
    ];
    assert_eq!(override_scopes(&reqs), vec!["global".to_string(), "b".to_string(), "a".to_string()]);
    assert_eq!(override_scopes(&Vec::new()), vec!["global".to_string()]);
}

#[test]
fn key_order_is_lexicographic() {
    assert!(key_less("a", "a/b"));
    assert!(!key_less("a/b", "a"));
    assert!(key_less("a/b", "a/c"));
    assert!(key_less("", "a"));
    assert!(!key_less("a", "a"));
    assert!(key_less("B", "a"));
}

#[test]
fn sorting_makes_collisions_reproducible() {
    let entries = vec![entry("a/b", "WQ=="), entry("global/x", "WA=="), entry("a", "WA==")];
    let sorted = sort_entries(&entries);
    let keys: Vec<&str> = sorted.iter().map(|e| e.key.as_str()).collect();
    assert_eq!(keys, vec!["a", "a/b", "global/x"]);
    let t = build_overrides(&sorted);
    assert_eq!(
        t,
        node(vec![("a", node(vec![("b", leaf("Y"))])), ("global", node(vec![("x", leaf("X"))]))])
    );
}

#[test]
fn absent_scopes_add_nothing() {
    let fetched = vec![
        Some(vec![entry("global/a", "WA==")]),
        None,
        Some(vec![]),
        Some(vec![entry("svc/b", "WQ=="), entry("svc/c", "WQ==")]),
    ];
    let all = gather_entries(&fetched);
    let keys: Vec<&str> = all.iter().map(|e| e.key.as_str()).collect();
    assert_eq!(keys, vec!["global/a", "svc/b", "svc/c"]);
    assert!(gather_entries(&Vec::new()).is_empty());
}

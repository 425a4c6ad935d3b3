use vongform::store::{
    commit_outcome, default_manifest_value, manifest_document, snapshot_from_fetch, CasRegister,
    CommitError, KvEntry, ManifestError, ManifestSnapshot,
};

#[test]
fn stale_token_conflicts_and_keeps_value() {
    let mut store = CasRegister::new();
    assert_eq!(store.token(), 0);
    assert!(store.compare_and_swap(0, "first".to_string()));
    assert_eq!(store.token(), 1);
    let stale = 0;
    assert!(!store.compare_and_swap(stale, "second".to_string()));
    assert_eq!(store.value, Some("first".to_string()));
    assert_eq!(store.index, 1);
    assert!(!store.compare_and_swap(7, "third".to_string()));
    assert_eq!(store.value, Some("first".to_string()));
    assert!(store.compare_and_swap(1, "fourth".to_string()));
    assert_eq!(store.value, Some("fourth".to_string()));
    assert_eq!(store.token(), 2);
}

#[test]
fn two_writers_from_one_fetch() {
    let mut store = CasRegister::new();
    assert!(store.compare_and_swap(0, "base".to_string()));
    let fetched = store.token();
    assert!(store.compare_and_swap(fetched, "writer one".to_string()));
    assert!(!store.compare_and_swap(fetched, "writer two".to_string()));
    assert_eq!(store.value, Some("writer one".to_string()));
}

#[test]
fn absent_manifest_gives_default() {
    let s = snapshot_from_fetch(None).unwrap();
    assert_eq!(s.value, default_manifest_value());
    assert_eq!(s.value, "e2RlcGVuZGVuY2llczogW119Cg==");
    assert_eq!(s.token, 0);
}

#[test]
fn fetched_manifest_keeps_token() {
    let e = KvEntry { key: "umbrella".to_string(), value: "e30K".to_string(), modify_index: 42 };
    let s = snapshot_from_fetch(Some(vec![e])).unwrap();
    assert_eq!(s, ManifestSnapshot { value: "e30K".to_string(), token: 42 });
    assert_eq!(manifest_document(&s).unwrap(), b"{}\n".to_vec());
}

#[test]
fn empty_answer_is_an_error() {
    assert_eq!(snapshot_from_fetch(Some(Vec::new())), Err(ManifestError::EmptyResponse));
}

#[test]
fn bad_manifest_value_is_an_error() {
    let s = ManifestSnapshot { value: "***".to_string(), token: 3 };
    assert_eq!(manifest_document(&s), Err(ManifestError::InvalidBase64));
}

#[test]
fn commit_reply_read() {
    assert_eq!(commit_outcome("true"), Ok(()));
    assert_eq!(commit_outcome("true\n"), Ok(()));
    assert_eq!(commit_outcome("false"), Err(CommitError::Conflict));
    assert_eq!(commit_outcome(""), Err(CommitError::Conflict));
}

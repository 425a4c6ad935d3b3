use vongform::requirements::{apply_setting, apply_settings, Requirement};
use vongform::setting::{parse_settings, ServiceSetting};
use vongform::store::{manifest_document, snapshot_from_fetch};

fn req(name: &str, version: &str, repository: Option<&str>) -> Requirement {
    Requirement {
        name: name.to_string(),
        version: version.to_string(),
        repository: repository.map(|r| r.to_string()),
    }
}

fn set(name: &str, version: Option<&str>) -> ServiceSetting {
    ServiceSetting { name: name.to_string(), version: version.map(|v| v.to_string()) }
}

#[test]
fn add_absent_appends_one_entry() {
    let before = vec![req("a", "1", None), req("b", "2", Some("r"))];
    let copy = vec![req("a", "1", None), req("b", "2", Some("r"))];
    let after = apply_settings(copy, &vec![set("c", Some("3"))], &Some("repo".to_string()));
    assert_eq!(after.len(), before.len() + 1);
    assert_eq!(&after[..2], &before[..]);
    assert_eq!(after[2], req("c", "3", Some("repo")));
}

#[test]
fn remove_present_keeps_order() {
    let before = vec![req("a", "1", None), req("b", "2", None), req("c", "3", None)];
    let after = apply_settings(before, &vec![set("b", None)], &None);
    assert_eq!(after, vec![req("a", "1", None), req("c", "3", None)]);
}

#[test]
fn remove_absent_is_noop() {
    let before = vec![req("a", "1", None), req("b", "2", None)];
    let copy = vec![req("a", "1", None), req("b", "2", None)];
    let after = apply_settings(copy, &vec![set("zzz", None), set("q", None)], &None);
    assert_eq!(after, before);
}

#[test]
fn update_keeps_position_and_repository() {
    let before = vec![req("a", "1", Some("old")), req("b", "2", None)];
    let after = apply_settings(before, &vec![set("a", Some("9"))], &None);
    assert_eq!(after, vec![req("a", "9", Some("old")), req("b", "2", None)]);
}

#[test]
fn update_takes_given_repository() {
    let mut reqs = vec![req("a", "1", Some("old"))];
    apply_setting(&mut reqs, &set("a", Some("2")), &Some("new".to_string()));
    assert_eq!(reqs, vec![req("a", "2", Some("new"))]);
}

#[test]
fn settings_apply_in_order() {
    let after = apply_settings(
        vec![req("a", "1", None)],
        &vec![set("b", Some("1")), set("a", None), set("b", Some("2")), set("a", Some("3"))],
        &None,
    );
    assert_eq!(after, vec![req("b", "2", None), req("a", "3", None)]);
}

#[test]
fn end_to_end_empty_manifest() {
    let settings = parse_settings(&vec!["svc-a=1.0.0".to_string()]).unwrap();
    let snapshot = snapshot_from_fetch(None).unwrap();
    assert_eq!(snapshot.token, 0);
    let doc = manifest_document(&snapshot).unwrap();
    assert_eq!(String::from_utf8(doc.clone()).unwrap(), "{dependencies: []}\n");
    let parsed: serde_yaml::Value = serde_yaml::from_slice(&doc).unwrap();
    let deps = parsed.get("dependencies").unwrap().as_sequence().unwrap();
    assert!(deps.is_empty());
    let result = apply_settings(Vec::new(), &settings, &None);
    assert_eq!(result, vec![req("svc-a", "1.0.0", None)]);
}

fn to_document(reqs: &[Requirement]) -> serde_yaml::Value {
    let mut list = Vec::new();
    for r in reqs {
        let mut m = serde_yaml::Mapping::new();
        m.insert("name".into(), r.name.clone().into());
        m.insert("version".into(), r.version.clone().into());
        let repo = match &r.repository {
            Some(x) => serde_yaml::Value::String(x.clone()),
            None => serde_yaml::Value::Null,
        };
        m.insert("repository".into(), repo);
        list.push(serde_yaml::Value::Mapping(m));
    }
    let mut doc = serde_yaml::Mapping::new();
    doc.insert("dependencies".into(), serde_yaml::Value::Sequence(list));
    serde_yaml::Value::Mapping(doc)
}

fn from_document(v: &serde_yaml::Value) -> Vec<Requirement> {
    let mut out = Vec::new();
    for d in v.get("dependencies").unwrap().as_sequence().unwrap() {
        out.push(Requirement {
            name: d.get("name").unwrap().as_str().unwrap().to_string(),
            version: d.get("version").unwrap().as_str().unwrap().to_string(),
            repository: d.get("repository").and_then(|r| r.as_str()).map(|r| r.to_string()),
        });
    }
    out
}

#[test]
fn document_round_trip() {
    let reqs = vec![req("a", "1.0.0", None), req("b", "2.1", Some("https://charts.example"))];
    let text = serde_yaml::to_string(&to_document(&reqs)).unwrap();
    let back: serde_yaml::Value = serde_yaml::from_str(&text).unwrap();
    assert_eq!(from_document(&back), reqs);
}

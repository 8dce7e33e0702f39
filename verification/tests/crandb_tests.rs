use ruv::crandb::{
    available_versions_from_json, deps_from_crandb, deps_given_entries, package_deps_from_json,
    versions_from_keys,
};
use ruv::version::Op;

fn strings(v: &[&str]) -> Vec<String> {
    v.iter().map(|s| s.to_string()).collect()
}

#[test]
fn versions_from_keys_sorts_and_skips() {
    let keys = strings(&["1.1.4", "0.9.0", "junk", "1.10.0", "1.2", "1.1.0"]);
    let vs = versions_from_keys(&keys);
    let parts: Vec<Vec<u32>> = vs.iter().map(|v| v.parts.clone()).collect();
    assert_eq!(
        parts,
        vec![vec![0, 9, 0], vec![1, 1, 0], vec![1, 1, 4], vec![1, 2], vec![1, 10, 0]]
    );
}

#[test]
fn versions_from_keys_keeps_order_of_equal_versions() {
    let keys = strings(&["1.1.0", "1.1", "1.0"]);
    let vs = versions_from_keys(&keys);
    let parts: Vec<Vec<u32>> = vs.iter().map(|v| v.parts.clone()).collect();
    assert_eq!(parts, vec![vec![1, 0], vec![1, 1, 0], vec![1, 1]]);
}

#[test]
fn deps_from_crandb_entries() {
    let entries = vec![
        ("rlang".to_string(), Some(">= 1.1.0".to_string())),
        ("methods".to_string(), Some("*".to_string())),
        ("cli".to_string(), Some("*".to_string())),
        ("stats4".to_string(), None),
        ("glue".to_string(), None),
        ("vctrs".to_string(), Some("latest".to_string())),
    ];
    let deps = deps_from_crandb(&entries);
    let names: Vec<&str> = deps.iter().map(|d| d.name.as_str()).collect();
    assert_eq!(names, vec!["rlang", "cli", "glue", "vctrs"]);
    let req = deps[0].req.as_ref().unwrap();
    assert_eq!(req.op, Op::Gte);
    assert_eq!(req.version.parts, vec![1, 1, 0]);
    assert!(deps[1].req.is_none());
    assert!(deps[2].req.is_none());
    assert!(deps[3].req.is_none());
}

#[test]
fn available_versions_from_json_reads_version_keys() {
    let body = br#"{"name":"x","versions":{"1.10.0":{},"0.9.0":{},"1.2":{},"junk":{}}}"#;
    let vs = available_versions_from_json(body);
    let parts: Vec<Vec<u32>> = vs.iter().map(|v| v.parts.clone()).collect();
    assert_eq!(parts, vec![vec![0, 9, 0], vec![1, 2], vec![1, 10, 0]]);
}

#[test]
fn available_versions_from_json_is_empty_without_versions() {
    assert!(available_versions_from_json(b"not json").is_empty());
    assert!(available_versions_from_json(br#"{"versions": []}"#).is_empty());
    assert!(available_versions_from_json(br#"{}"#).is_empty());
}

#[test]
fn package_deps_from_json_reads_imports_then_depends() {
    let body = br#"{"Package":"x","Depends":{"R":">= 3.5.0","zoo":"*"},"Imports":{"rlang":">= 1.1.0","cli":"*","utils":"*"}}"#;
    let deps = package_deps_from_json(body).unwrap();
    let names: Vec<&str> = deps.iter().map(|d| d.name.as_str()).collect();
    assert_eq!(names, vec!["cli", "rlang", "zoo"]);
    assert!(deps[0].req.is_none());
    let req = deps[1].req.as_ref().unwrap();
    assert_eq!(req.op, Op::Gte);
    assert_eq!(req.version.parts, vec![1, 1, 0]);
    assert!(deps[2].req.is_none());
}

#[test]
fn package_deps_from_json_without_fields_or_json() {
    assert!(package_deps_from_json(b"<html>").is_none());
    assert_eq!(package_deps_from_json(br#"{"Package":"x"}"#).unwrap().len(), 0);
}

#[test]
fn deps_given_entries_joins_both_fields() {
    let imports = Some(Some(vec![("a".to_string(), Some("*".to_string()))]));
    let depends = Some(Some(vec![("b".to_string(), Some(">= 2.0".to_string()))]));
    let deps = deps_given_entries(imports, depends).unwrap();
    assert_eq!(deps.len(), 2);
    assert_eq!(deps[0].name, "a");
    assert_eq!(deps[1].name, "b");
    assert!(deps_given_entries(None, None).is_none());
    assert_eq!(deps_given_entries(Some(None), Some(None)).unwrap().len(), 0);
}

use ruv::index::Package;
use ruv::lockfile::{
    default_registry, locked_triples, lockfile_contents, lockfile_text_is_fresh, manifest_is_fresh,
    manifest_matches,
    LockedPackage, LockedSource,
};
use ruv::name_map::NameMap;
use ruv::version::{Dep, RVersion};

fn make_index(entries: &[(&str, &str)]) -> NameMap<Package> {
    let mut index = NameMap::new();
    for (name, version) in entries {
        index.insert(
            name.to_string(),
            Package { version: version.to_string(), deps: vec![] },
        );
    }
    index
}

fn make_resolved(entries: &[(&str, &str)]) -> NameMap<RVersion> {
    let mut resolved = NameMap::new();
    for (name, version) in entries {
        resolved.insert(name.to_string(), RVersion::parse(version).unwrap());
    }
    resolved
}

/// The `[[package]]` entries of a lockfile text, read with `toml`.
fn read_packages(text: &str) -> Vec<LockedPackage> {
    let parsed: toml::Value = toml::from_str(text).unwrap();
    let Some(packages) = parsed.get("package").and_then(|p| p.as_array()) else {
        return vec![];
    };
    packages
        .iter()
        .map(|p| LockedPackage {
            name: p.get("name").unwrap().as_str().unwrap().to_string(),
            version: p.get("version").unwrap().as_str().unwrap().to_string(),
            source: p.get("source").map(|s| LockedSource {
                registry: s.get("registry").map(|r| r.as_str().unwrap().to_string()),
            }),
        })
        .collect()
}

fn strings(v: &[&str]) -> Vec<String> {
    v.iter().map(|s| s.to_string()).collect()
}

#[test]
fn test_write_lockfile_format() {
    let index = make_index(&[("ggplot2", "3.5.1"), ("rlang", "1.1.4")]);
    let resolved = make_resolved(&[("ggplot2", "3.5.1"), ("rlang", "1.1.4")]);
    let roots = vec!["ggplot2".to_string()];
    let contents = lockfile_contents(&roots, &resolved, &index);
    assert!(contents.contains("version = 1"));
    assert!(contents.contains("[manifest]"));
    assert!(contents.contains("dependencies = [\"ggplot2\"]"));
    assert!(contents.contains("[[package]]"));
    assert!(contents.contains("name = \"ggplot2\""));
    assert!(contents.contains("version = \"3.5.1\""));
}

#[test]
fn test_write_lockfile_uses_rspm_latest() {
    let index = make_index(&[("ggplot2", "3.5.1")]);
    let resolved = make_resolved(&[("ggplot2", "3.5.1")]);
    let roots = vec!["ggplot2".to_string()];
    let contents = lockfile_contents(&roots, &resolved, &index);
    assert!(contents
        .contains("source = { registry = \"https://packagemanager.posit.co/cran/latest\" }"));
}

#[test]
fn test_write_lockfile_preserves_dash_version() {
    let index = make_index(&[("nlme", "2.23-26")]);
    let resolved = make_resolved(&[("nlme", "2.23-26")]);
    let roots = vec!["nlme".to_string()];
    let contents = lockfile_contents(&roots, &resolved, &index);
    assert!(contents.contains("version = \"2.23-26\""));
    assert!(!contents.contains("2.23.26"));
}

#[test]
fn test_write_lockfile_sorted() {
    let index = make_index(&[("zzz", "1.0"), ("aaa", "2.0")]);
    let resolved = make_resolved(&[("zzz", "1.0"), ("aaa", "2.0")]);
    let roots = vec!["zzz".to_string(), "aaa".to_string()];
    let contents = lockfile_contents(&roots, &resolved, &index);
    let aaa_pos = contents.find("\"aaa\"").unwrap();
    let zzz_pos = contents.find("\"zzz\"").unwrap();
    assert!(aaa_pos < zzz_pos);
}

#[test]
fn test_parse_lockfile_roundtrip() {
    let index = make_index(&[("ggplot2", "3.5.1"), ("rlang", "1.1.4")]);
    let resolved = make_resolved(&[("ggplot2", "3.5.1"), ("rlang", "1.1.4")]);
    let roots = vec!["ggplot2".to_string()];
    let text = lockfile_contents(&roots, &resolved, &index);
    let mut triples = locked_triples(&read_packages(&text));
    triples.sort_by(|a, b| a.0.cmp(&b.0));
    assert_eq!(triples[0].0, "ggplot2");
    assert_eq!(triples[0].1, "3.5.1");
    assert_eq!(triples[0].2, "https://packagemanager.posit.co/cran/latest");
    assert_eq!(triples[1].0, "rlang");
    assert_eq!(triples[1].1, "1.1.4");
}

#[test]
fn lockfile_exact_text_with_dependency_lines() {
    let mut index = make_index(&[("rlang", "1.1.4"), ("cli", "3.6.1")]);
    index.insert(
        "ggplot2".to_string(),
        Package {
            version: "3.5.1".to_string(),
            deps: vec![
                Dep::new("scales".to_string(), None),
                Dep::new("rlang".to_string(), None),
                Dep::new("cli".to_string(), None),
            ],
        },
    );
    let resolved = make_resolved(&[("rlang", "1.1.4"), ("ggplot2", "3.5.1"), ("cli", "3.6.1"), ("extra", "1.0")]);
    let roots = strings(&["rlang", "ggplot2"]);
    let text = lockfile_contents(&roots, &resolved, &index);
    let expected = "# arrrv.lock \u{2014} generated, do not edit\n\nversion = 1\n\n\
[manifest]\ndependencies = [\"ggplot2\", \"rlang\"]\n\n\
[[package]]\nname = \"cli\"\nversion = \"3.6.1\"\nsource = { registry = \"https://packagemanager.posit.co/cran/latest\" }\n\n\
[[package]]\nname = \"extra\"\nversion = \"0\"\nsource = { registry = \"https://packagemanager.posit.co/cran/latest\" }\n\n\
[[package]]\nname = \"ggplot2\"\nversion = \"3.5.1\"\nsource = { registry = \"https://packagemanager.posit.co/cran/latest\" }\ndependencies = [{ name = \"cli\" }, { name = \"rlang\" }]\n\n\
[[package]]\nname = \"rlang\"\nversion = \"1.1.4\"\nsource = { registry = \"https://packagemanager.posit.co/cran/latest\" }\n\n";
    assert_eq!(text, expected);
}

#[test]
fn manifest_matches_ignores_order_only() {
    assert!(manifest_matches(&strings(&["b", "a"]), &strings(&["a", "b"])));
    assert!(!manifest_matches(&strings(&["a"]), &strings(&["a", "b"])));
    assert!(!manifest_matches(&strings(&["a", "a"]), &strings(&["a", "b"])));
    assert!(manifest_matches(&strings(&[]), &strings(&[])));
}

#[test]
fn default_registry_is_rspm_latest() {
    assert_eq!(default_registry(), "https://packagemanager.posit.co/cran/latest");
}

#[test]
fn written_manifest_is_fresh_for_the_same_roots_in_any_order() {
    let roots = strings(&["rlang", "cli", "rlang"]);
    let index = make_index(&[("cli", "3.6.0"), ("rlang", "1.1.0")]);
    let resolved = make_resolved(&[("cli", "3.6.0"), ("rlang", "1.1.0")]);
    let text = lockfile_contents(&roots, &resolved, &index);
    assert!(lockfile_text_is_fresh(&text, &strings(&["cli", "rlang", "rlang"])));
    assert!(lockfile_text_is_fresh(&text, &strings(&["rlang", "rlang", "cli"])));
    assert!(!lockfile_text_is_fresh(&text, &strings(&["cli", "rlang"])));
    assert!(!lockfile_text_is_fresh(&text, &strings(&["cli", "rlang", "glue"])));
}

#[test]
fn lockfile_text_without_manifest_is_not_fresh() {
    assert!(!lockfile_text_is_fresh("not = [toml", &strings(&[])));
    assert!(!lockfile_text_is_fresh("version = 1\n", &strings(&[])));
    assert!(!lockfile_text_is_fresh("[manifest]\ndependencies = [1]\n", &strings(&[])));
    assert!(lockfile_text_is_fresh("[manifest]\ndependencies = []\n", &strings(&[])));
}

#[test]
fn locked_triples_default_the_registry() {
    let text = "[[package]]\nname = \"a\"\nversion = \"1.0\"\n\n[[package]]\nname = \"b\"\nversion = \"2.0\"\nsource = {}\n\n[[package]]\nname = \"c\"\nversion = \"3.0\"\nsource = { registry = \"https://example.org/cran\" }\n";
    let triples = locked_triples(&read_packages(text));
    assert_eq!(
        triples,
        vec![
            ("a".to_string(), "1.0".to_string(), default_registry()),
            ("b".to_string(), "2.0".to_string(), default_registry()),
            ("c".to_string(), "3.0".to_string(), "https://example.org/cran".to_string()),
        ]
    );
}

#[test]
fn manifest_is_fresh_for_each_reading() {
    let roots = strings(&["a", "b"]);
    assert!(!manifest_is_fresh(Err("bad".to_string()), &roots));
    assert!(!manifest_is_fresh(Ok(None), &roots));
    assert!(!manifest_is_fresh(Ok(Some(vec![Some("a".to_string()), None])), &roots));
    assert!(manifest_is_fresh(Ok(Some(vec![Some("b".to_string()), Some("a".to_string())])), &roots));
    assert!(!manifest_is_fresh(Ok(Some(vec![Some("a".to_string())])), &roots));
}

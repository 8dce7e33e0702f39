use ruv::index::Package;
use ruv::name_map::NameMap;
use ruv::resolver::{
    dependencies_for, format_no_solution, highest_fitting, index_version, plan_dependencies,
    plan_version, root_version, with_synthetic_root, without_synthetic_root, DepsPlan,
    VersionPlan,
};
use ruv::version::{Dep, RVersion};

fn dep(name: &str) -> Dep {
    Dep::new(name.to_string(), None)
}

fn make_index() -> NameMap<Package> {
    let mut index = NameMap::new();
    index.insert(
        "ggplot2".to_string(),
        Package { version: "3.5.1".to_string(), deps: vec![dep("rlang"), dep("scales")] },
    );
    index.insert("rlang".to_string(), Package { version: "1.1.4".to_string(), deps: vec![] });
    index.insert(
        "scales".to_string(),
        Package { version: "1.3.0".to_string(), deps: vec![dep("rlang")] },
    );
    index.insert("odd".to_string(), Package { version: "devel".to_string(), deps: vec![] });
    index
}

fn v(s: &str) -> RVersion {
    RVersion::parse(s).unwrap()
}

#[test]
fn index_and_root_versions() {
    let index = make_index();
    assert_eq!(index_version(&index, "rlang").unwrap(), v("1.1.4"));
    assert_eq!(index_version(&index, "odd").unwrap().parts, vec![0]);
    assert!(index_version(&index, "missing").is_none());
    assert_eq!(root_version(&index, "ggplot2"), v("3.5.1"));
    assert_eq!(root_version(&index, "missing").parts, vec![0]);
}

#[test]
fn highest_fitting_picks_last_flagged() {
    let versions = vec![v("1.1.0"), v("1.1.1"), v("1.1.2"), v("1.1.3")];
    let r = highest_fitting(&versions, &vec![true, true, false, false]).unwrap();
    assert_eq!(r, v("1.1.1"));
    assert!(highest_fitting(&versions, &vec![false, false, false, false]).is_none());
    assert!(highest_fitting(&vec![], &vec![]).is_none());
}

#[test]
fn plan_dependencies_cases() {
    let index = make_index();
    match plan_dependencies(&index, "rlang", &v("1.1.4.0")) {
        DepsPlan::UseIndex => {}
        _ => panic!("expected the index"),
    }
    match plan_dependencies(&index, "rlang", &v("1.1.3")) {
        DepsPlan::FetchVersion(t) => assert_eq!(t, "1.1.3"),
        _ => panic!("expected a fetch"),
    }
    match plan_dependencies(&index, "nope", &v("1.0")) {
        DepsPlan::Unavailable(m) => assert_eq!(m, "nope not found in CRAN index"),
        _ => panic!("expected unavailable"),
    }
}

#[test]
fn dependencies_for_prefers_historical() {
    let index = make_index();
    let h = dependencies_for(&index, "ggplot2", Some(vec![dep("cli")])).unwrap();
    assert_eq!(h.len(), 1);
    assert_eq!(h[0].name, "cli");
    let i = dependencies_for(&index, "ggplot2", None).unwrap();
    let names: Vec<&str> = i.iter().map(|d| d.name.as_str()).collect();
    assert_eq!(names, vec!["rlang", "scales"]);
    assert!(dependencies_for(&index, "nope", None).is_none());
}

#[test]
fn synthetic_root_added_and_removed() {
    let index = make_index();
    let roots = vec![dep("ggplot2"), dep("scales")];
    let augmented = with_synthetic_root(&index, &roots);
    assert_eq!(augmented.len(), index.len() + 1);
    let root = augmented.get("__root__").unwrap();
    assert_eq!(root.version, "0");
    let names: Vec<&str> = root.deps.iter().map(|d| d.name.as_str()).collect();
    assert_eq!(names, vec!["ggplot2", "scales"]);
    assert_eq!(augmented.get("rlang").unwrap().version, "1.1.4");
    assert!(!index.contains_key("__root__"));

    let mut resolved = NameMap::new();
    resolved.insert("__root__".to_string(), v("0"));
    resolved.insert("rlang".to_string(), v("1.1.4"));
    let resolved = without_synthetic_root(resolved);
    assert!(!resolved.contains_key("__root__"));
    assert!(resolved.contains_key("rlang"));
    assert_eq!(resolved.len(), 1);
}

#[test]
fn format_no_solution_numbers_and_indents() {
    let report = "Because rlang >=99.0 is forbidden and __root__ 0 depends on rlang >=99.0\n\n__root__ 0 is forbidden.\n";
    assert_eq!(
        format_no_solution(report),
        "1. Because rlang >=99.0 is forbidden and your project depends on rlang >=99.0\n  2. your project is forbidden."
    );
    assert_eq!(format_no_solution(""), "");
}

#[test]
fn plan_version_prefers_a_fitting_index_version() {
    let v = RVersion::parse("1.2").unwrap();
    assert!(matches!(plan_version(None, true), VersionPlan::NoVersion));
    assert!(matches!(plan_version(None, false), VersionPlan::NoVersion));
    match plan_version(Some(v.clone()), true) {
        VersionPlan::Take(t) => assert_eq!(t.parts, vec![1, 2]),
        _ => panic!("expected the index version"),
    }
    assert!(matches!(plan_version(Some(v), false), VersionPlan::SearchHistory));
}

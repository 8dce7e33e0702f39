use ruv::index::{decode_index, parse_packages, Package};
use ruv::version::Dep;
use std::io::Write;

fn dep_names(deps: &[Dep]) -> Vec<String> {
    deps.iter().map(|d| d.name.clone()).collect()
}

#[test]
fn test_parse_single_package() {
    let text = "Package: ggplot2\nVersion: 3.5.1\nImports: rlang, scales\n";
    let index = parse_packages(text);
    let pkg: &Package = index.get("ggplot2").unwrap();
    assert_eq!(pkg.version, "3.5.1");
    assert!(dep_names(&pkg.deps).contains(&"rlang".to_string()));
    assert!(dep_names(&pkg.deps).contains(&"scales".to_string()));
}

#[test]
fn test_parse_strips_version_constraints() {
    let text = "Package: foo\nVersion: 1.0\nImports: rlang (>= 1.1.0)\n";
    let index = parse_packages(text);
    let pkg = index.get("foo").unwrap();
    assert_eq!(dep_names(&pkg.deps), vec!["rlang"]);
}

#[test]
fn test_parse_filters_base_packages() {
    let text = "Package: foo\nVersion: 1.0\nDepends: R (>= 4.0), methods, rlang\n";
    let index = parse_packages(text);
    let pkg = index.get("foo").unwrap();
    assert!(!dep_names(&pkg.deps).contains(&"R".to_string()));
    assert!(!dep_names(&pkg.deps).contains(&"methods".to_string()));
    assert!(dep_names(&pkg.deps).contains(&"rlang".to_string()));
}

#[test]
fn test_parse_multiple_packages() {
    let text = "Package: foo\nVersion: 1.0\nImports: bar\n\nPackage: bar\nVersion: 2.0\n";
    let index = parse_packages(text);
    assert!(index.contains_key("foo"));
    assert!(index.contains_key("bar"));
}

#[test]
fn parse_joins_continuation_lines() {
    let text = "Package: ggplot2\nVersion: 3.5.1\nImports: cli, glue, rlang (>= 1.1.0),\n        scales (>= 1.3.0), tibble\nSuggests: covr\n";
    let index = parse_packages(text);
    let pkg = index.get("ggplot2").unwrap();
    assert_eq!(dep_names(&pkg.deps), vec!["cli", "glue", "rlang", "scales", "tibble"]);
    assert!(pkg.deps.iter().all(|d| d.req.is_none()));
}

#[test]
fn parse_handles_crlf_and_depends_then_imports() {
    let text = "Package: a\r\nVersion: 1.0\r\nDepends: R (>= 3.5), b\r\nImports: c\r\n";
    let index = parse_packages(text);
    let pkg = index.get("a").unwrap();
    assert_eq!(pkg.version, "1.0");
    assert_eq!(dep_names(&pkg.deps), vec!["b", "c"]);
}

#[test]
fn parse_later_block_replaces_earlier() {
    let text = "Package: a\nVersion: 1.0\n\nPackage: a\nVersion: 2.0\nImports: z\n";
    let index = parse_packages(text);
    assert_eq!(index.len(), 1);
    let pkg = index.get("a").unwrap();
    assert_eq!(pkg.version, "2.0");
    assert_eq!(dep_names(&pkg.deps), vec!["z"]);
}

#[test]
fn parse_skips_blocks_without_version() {
    let text = "Package: a\nImports: z\n\nVersion: 1.0\n\n\nPackage: b\nVersion: 0.1\n";
    let index = parse_packages(text);
    assert!(!index.contains_key("a"));
    assert!(index.contains_key("b"));
    assert_eq!(index.len(), 1);
    assert!(parse_packages("").len() == 0);
}

#[test]
fn decode_index_reads_gzip() {
    let text = "Package: foo\nVersion: 1.0\nImports: bar\n\nPackage: bar\nVersion: 2.0\n";
    let mut enc = flate2::write::GzEncoder::new(Vec::new(), flate2::Compression::default());
    enc.write_all(text.as_bytes()).unwrap();
    let gz = enc.finish().unwrap();
    let index = decode_index(&gz).unwrap();
    assert_eq!(index.get("foo").unwrap().version, "1.0");
    assert_eq!(dep_names(&index.get("foo").unwrap().deps), vec!["bar"]);
    assert_eq!(index.get("bar").unwrap().version, "2.0");
    // the same text without compression is no gzip stream
    assert!(decode_index(text.as_bytes()).is_none());
}

#[test]
fn parse_filters_every_package_shipped_with_r() {
    let text = "Package: foo\nVersion: 1.0\nImports: parallel, splines, stats4, tcltk, translations, rlang\n";
    let index = parse_packages(text);
    let pkg = index.get("foo").unwrap();
    assert_eq!(dep_names(&pkg.deps), vec!["rlang"]);
}

use ruv::version::{Dep, Op, RVersion, VersionReq};

#[test]
fn test_rversion_parse_three_parts() {
    let v = RVersion::parse("1.1.0").unwrap();
    assert_eq!(v.parts, vec![1, 1, 0]);
}

#[test]
fn test_rversion_parse_two_parts() {
    let v = RVersion::parse("4.5").unwrap();
    assert_eq!(v.parts, vec![4, 5]);
}

#[test]
fn test_rversion_parse_dash() {
    // base package style: "2.23-26"
    let v = RVersion::parse("2.23-26").unwrap();
    assert_eq!(v.parts, vec![2, 23, 26]);
}

#[test]
fn test_rversion_ordering() {
    let v110 = RVersion::parse("1.1.0").unwrap();
    let v114 = RVersion::parse("1.1.4").unwrap();
    let v120 = RVersion::parse("1.2.0").unwrap();
    assert!(v110 < v114);
    assert!(v114 < v120);
    assert!(v120 > v110);
}

#[test]
fn test_rversion_ordering_different_lengths() {
    // "1.1" should equal "1.1.0" (missing parts default to 0)
    let v11 = RVersion::parse("1.1").unwrap();
    let v110 = RVersion::parse("1.1.0").unwrap();
    assert_eq!(v11, v110);
}

#[test]
fn test_versionreq_parse_gte() {
    let req = VersionReq::parse(">= 1.1.0").unwrap();
    assert!(matches!(req.op, Op::Gte));
    assert_eq!(req.version.parts, vec![1, 1, 0]);
}

#[test]
fn test_versionreq_matches() {
    let req = VersionReq::parse(">= 1.1.0").unwrap();
    assert!(req.matches(&RVersion::parse("1.1.0").unwrap()));
    assert!(req.matches(&RVersion::parse("1.2.0").unwrap()));
    assert!(!req.matches(&RVersion::parse("1.0.9").unwrap()));
}

#[test]
fn test_dep_parse_with_constraint() {
    let req = VersionReq::parse(">= 1.1.0").unwrap();
    let dep = Dep::new("rlang".to_string(), Some(req));
    assert_eq!(dep.name, "rlang");
    assert!(dep.req.is_some());
}

#[test]
fn test_dep_parse_no_constraint() {
    let dep = Dep::new("scales".to_string(), None);
    assert_eq!(dep.name, "scales");
    assert!(dep.req.is_none());
}

#[test]
fn rversion_parse_rejects_non_numbers() {
    assert!(RVersion::parse("").is_none());
    assert!(RVersion::parse("1.a").is_none());
    assert!(RVersion::parse("1..2").is_none());
    assert!(RVersion::parse("1.2.").is_none());
    assert!(RVersion::parse(" 1.2").is_none());
    assert!(RVersion::parse("-1").is_none());
}

#[test]
fn rversion_parse_number_edges() {
    // str::parse::<u32> accepts one leading plus sign
    assert_eq!(RVersion::parse("+1.2").unwrap().parts, vec![1, 2]);
    assert!(RVersion::parse("++1").is_none());
    assert_eq!(RVersion::parse("4294967295").unwrap().parts, vec![4294967295]);
    assert!(RVersion::parse("4294967296").is_none());
    assert_eq!(RVersion::parse("007").unwrap().parts, vec![7]);
}

#[test]
fn rversion_order_laws_on_examples() {
    let a = RVersion::parse("1.0").unwrap();
    let b = RVersion::parse("1.0.0.1").unwrap();
    let c = RVersion::parse("1.1").unwrap();
    assert_eq!(a.order(&b), -1);
    assert_eq!(b.order(&a), 1);
    assert_eq!(b.order(&c), -1);
    assert_eq!(a.order(&c), -1);
    assert_eq!(a.order(&a), 0);
    assert_eq!(RVersion::parse("2").unwrap().order(&RVersion::parse("2.0.0").unwrap()), 0);
    assert_eq!(RVersion::parse("10").unwrap().order(&RVersion::parse("9.99").unwrap()), 1);
}

#[test]
fn versionreq_parse_all_operators() {
    let cases = [
        (">= 1.0", Op::Gte),
        ("> 1.0", Op::Gt),
        ("<= 1.0", Op::Lte),
        ("< 1.0", Op::Lt),
        ("== 1.0", Op::Eq),
        ("= 1.0", Op::Eq),
        ("  >=1.0  ", Op::Gte),
    ];
    for (text, op) in cases {
        let req = VersionReq::parse(text).unwrap();
        assert_eq!(req.op, op);
        assert_eq!(req.version.parts, vec![1, 0]);
    }
    assert!(VersionReq::parse("~ 1.0").is_none());
    assert!(VersionReq::parse("1.0").is_none());
    assert!(VersionReq::parse(">= ").is_none());
    assert!(VersionReq::parse(">= x").is_none());
}

#[test]
fn versionreq_matches_each_operator() {
    let v = |s: &str| RVersion::parse(s).unwrap();
    let req = |s: &str| VersionReq::parse(s).unwrap();
    assert!(req("> 1.0").matches(&v("1.0.1")));
    assert!(!req("> 1.0").matches(&v("1.0.0")));
    assert!(req("<= 1.1.2").matches(&v("1.1.2")));
    assert!(!req("<= 1.1.2").matches(&v("1.1.3")));
    assert!(req("< 1.1.4").matches(&v("1.1.3")));
    assert!(!req("< 1.1.4").matches(&v("1.1.4")));
    assert!(req("== 1.1").matches(&v("1.1.0")));
    assert!(!req("== 1.1").matches(&v("1.1.1")));
}

#[test]
fn rversion_text_and_minimum() {
    assert_eq!(RVersion::parse("2.23-26").unwrap().to_version_string(), "2.23.26");
    assert_eq!(RVersion::parse("10.0.105").unwrap().to_version_string(), "10.0.105");
    assert_eq!(RVersion::minimum().parts, vec![0]);
    assert_eq!(RVersion::minimum(), RVersion::parse("0.0").unwrap());
}

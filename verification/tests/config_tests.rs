use ruv::config::{
    add_dependency_given_entries, add_dependency_to_toml_text, default_config_toml, parse_dep, parse_dep_name,
    AddDependencyResult,
};
use ruv::version::{Op, RVersion};

fn add(text: &str, dep: &str) -> Result<(String, bool), String> {
    add_dependency_to_toml_text(text, dep)
}

#[test]
fn test_default_config_toml() {
    let toml = default_config_toml("my-project");
    assert!(toml.contains("name = \"my-project\""));
    assert!(toml.contains("dependencies = []"));
}

#[test]
fn test_add_dependency_to_toml_text_adds_new_dep() {
    let text = "[project]\nname = \"x\"\nversion = \"0.1.0\"\ndependencies = []\n";
    let (updated, added) = add(text, "ggplot2").unwrap();
    assert!(added);
    assert!(updated.contains("dependencies = [\n    \"ggplot2\",\n]"));
}

#[test]
fn test_add_dependency_to_toml_text_no_duplicate_by_name() {
    let text =
        "[project]\nname = \"x\"\nversion = \"0.1.0\"\ndependencies = [\"ggplot2>=3.4\"]\n";
    let (updated, added) = add(text, "ggplot2").unwrap();
    assert!(!added);
    assert!(updated.contains("ggplot2>=3.4"));
}

#[test]
fn test_add_dependency_converts_inline_array_to_multiline() {
    let text = "[project]\nname = \"x\"\nversion = \"0.1.0\"\ndependencies = [\"ggplot2\"]\n";
    let (updated, added) = add(text, "dplyr").unwrap();
    assert!(added);
    assert!(updated.contains("dependencies = [\n    \"ggplot2\",\n    \"dplyr\",\n]"));
}

#[test]
fn test_add_dependency_preserves_project_key_order() {
    let text = "[project]\nname = \"myproject\"\nversion = \"0.1.0\"\ndescription = \"Example\"\n\ndependencies = [\n    \"ggplot2\",\n]\n";
    let (updated, added) = add(text, "dplyr").unwrap();
    assert!(added);
    let name_pos = updated.find("name = \"myproject\"").unwrap();
    let version_pos = updated.find("version = \"0.1.0\"").unwrap();
    let description_pos = updated.find("description = \"Example\"").unwrap();
    let deps_pos = updated.find("dependencies = [").unwrap();
    assert!(name_pos < version_pos);
    assert!(version_pos < description_pos);
    assert!(description_pos < deps_pos);
    assert!(updated.contains("    \"ggplot2\","));
    assert!(updated.contains("    \"dplyr\","));
}

#[test]
fn test_parse_dep_name_with_gte() {
    assert_eq!(parse_dep_name("ggplot2>=3.4"), "ggplot2");
}

#[test]
fn test_parse_dep_name_no_version() {
    assert_eq!(parse_dep_name("dplyr"), "dplyr");
}

#[test]
fn test_parse_dep_name_with_spaces() {
    assert_eq!(parse_dep_name("rlang (>= 1.0)"), "rlang");
}

#[test]
fn test_parse_dep_name_preserves_dots_and_dashes() {
    assert_eq!(parse_dep_name("data.table"), "data.table");
    assert_eq!(parse_dep_name("R6"), "R6");
}

#[test]
fn test_parse_dep_no_constraint() {
    let d = parse_dep("dplyr");
    assert_eq!(d.name, "dplyr");
    assert!(d.req.is_none());

    let d2 = parse_dep("ggplot2>=3.4");
    assert_eq!(d2.name, "ggplot2");
    let req = d2.req.unwrap();
    assert!(matches!(req.op, Op::Gte));
    assert_eq!(req.version, RVersion::parse("3.4").unwrap());
}

#[test]
fn test_parse_dep_space_constraint() {
    let d = parse_dep("rlang (>= 1.0)");
    assert_eq!(d.name, "rlang");
    let req = d.req.unwrap();
    assert!(matches!(req.op, Op::Gte));
    assert_eq!(req.version, RVersion::parse("1.0").unwrap());
}

#[test]
fn default_config_toml_exact_text() {
    assert_eq!(
        default_config_toml("demo"),
        "[project]\nname = \"demo\"\nversion = \"0.1.0-alpha.1\"\nr-version = \">=4.3\"\ndependencies = []\n"
    );
}

#[test]
fn parse_dep_unparsable_constraint_is_dropped() {
    let d = parse_dep("rlang (~ 1.0)");
    assert_eq!(d.name, "rlang");
    assert!(d.req.is_none());
    let d = parse_dep("pkg== 2.1");
    assert_eq!(d.name, "pkg");
    assert_eq!(d.req.unwrap().op, Op::Eq);
    assert_eq!(parse_dep_name(">= 1.0"), "");
}

#[test]
fn add_dependency_without_field_appends_one() {
    let text = "[project]\nname = \"x\"\nversion = \"0.1.0\"\n\n[tool]\nkey = 1\n";
    let (updated, added) = add_dependency_given_entries(text, Ok(Some(vec![])), "dplyr").unwrap();
    assert!(added);
    assert_eq!(
        updated,
        "[project]\nname = \"x\"\nversion = \"0.1.0\"\n\ndependencies = [\n    \"dplyr\",\n]\n[tool]\nkey = 1\n"
    );
}

#[test]
fn add_dependency_without_field_at_end_of_text() {
    let text = "[project]\nname = \"x\"";
    let (updated, added) = add_dependency_given_entries(text, Ok(Some(vec![])), "dplyr").unwrap();
    assert!(added);
    assert_eq!(
        updated,
        "[project]\nname = \"x\"\n\ndependencies = [\n    \"dplyr\",\n]\n"
    );
}

#[test]
fn add_dependency_keeps_item_indent_and_comments() {
    let text = "[project]\nname = \"x\"\ndependencies = [ # pinned\n\t\"a\",\n]\n[other]\n";
    let (updated, added) = add(text, "b").unwrap();
    assert!(added);
    assert_eq!(
        updated,
        "[project]\nname = \"x\"\ndependencies = [\n \"a\",\n \"b\",\n]\n[other]\n"
    );
}

#[test]
fn add_dependency_skips_brackets_in_strings() {
    let text = "[project]\ndependencies = [\"a]b\"]\n";
    let (updated, added) = add(text, "c").unwrap();
    assert!(added);
    assert_eq!(updated, "[project]\ndependencies = [\n    \"a]b\",\n    \"c\",\n]\n");
}

#[test]
fn add_dependency_without_project_table_fails() {
    let text = "name = \"x\"\n";
    let r = add_dependency_given_entries(text, Ok(Some(vec![])), "dplyr");
    assert_eq!(r, Err("invalid ruv.toml: missing [project] table".to_string()));
}

#[test]
fn add_dependency_result_from_flag() {
    assert_eq!(AddDependencyResult::from_added(true), AddDependencyResult::Added);
    assert_eq!(AddDependencyResult::from_added(false), AddDependencyResult::AlreadyPresent);
}

#[test]
fn add_dependency_rejects_text_that_is_not_toml() {
    let err = add("[project\nname = ", "dplyr").unwrap_err();
    assert!(err.starts_with("failed to parse ruv.toml: "));
    assert!(err.len() > "failed to parse ruv.toml: ".len());
}

#[test]
fn add_dependency_rejects_missing_dependencies_array() {
    let err = add("[project]\nname = \"x\"\n", "dplyr").unwrap_err();
    assert_eq!(err, "invalid ruv.toml: missing [project].dependencies array");
}

#[test]
fn add_dependency_rejects_non_string_entries() {
    let err = add("[project]\nname = \"x\"\ndependencies = [\"a\", 3]\n", "dplyr").unwrap_err();
    assert_eq!(err, "invalid ruv.toml: dependencies entries must be strings");
}

#[test]
fn add_dependency_given_entries_reports_each_case() {
    let text = "[project]\nname = \"x\"\ndependencies = [\"a\"]\n";
    assert_eq!(
        add_dependency_given_entries(text, Err("bad".to_string()), "b").unwrap_err(),
        "failed to parse ruv.toml: bad"
    );
    assert_eq!(
        add_dependency_given_entries(text, Ok(None), "b").unwrap_err(),
        "invalid ruv.toml: missing [project].dependencies array"
    );
    assert_eq!(
        add_dependency_given_entries(text, Ok(Some(vec![Some("a".to_string()), None])), "b")
            .unwrap_err(),
        "invalid ruv.toml: dependencies entries must be strings"
    );
    let (updated, added) =
        add_dependency_given_entries(text, Ok(Some(vec![Some("a".to_string())])), "b").unwrap();
    assert!(added);
    assert_eq!(
        updated,
        "[project]\nname = \"x\"\ndependencies = [\n    \"a\",\n    \"b\",\n]\n"
    );
    let (same, added) =
        add_dependency_given_entries(text, Ok(Some(vec![Some("a>=1.0".to_string())])), "a").unwrap();
    assert!(!added);
    assert_eq!(same, text);
}

#[test]
fn adding_a_dependency_twice_changes_nothing_the_second_time() {
    let text = "[project]\nname = \"x\"\ndependencies = [\"ggplot2\"]\n";
    let (once, added) = add(text, "dplyr>=1.1").unwrap();
    assert!(added);
    let (twice, added_again) = add(&once, "dplyr").unwrap();
    assert!(!added_again);
    assert_eq!(twice, once);
}

#[test]
fn parse_dep_name_keeps_non_ascii_letters() {
    assert_eq!(parse_dep_name("caf\u{e9}>=1.0"), "caf\u{e9}");
    assert_eq!(parse_dep_name("ggplot2@3.4"), "ggplot2");
}

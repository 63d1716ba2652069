use relay_sync::model::{Dependency, DependencyLocation, Ecosystem, ReportStatus, RequirementSyntax};
use relay_sync::version::{
    compare_versions, node_registry_target, parse_pep508, replacement_for, requirement_status,
    update_single_constraint, ConstraintKind,
};
use std::cmp::Ordering;

#[test]
fn parses_pep508_extras_and_markers() {
    let parsed = parse_pep508("fastapi[standard]>=0.100 ; python_version >= '3.11'").unwrap();
    assert_eq!(parsed.name, "fastapi");
    assert_eq!(parsed.specifier, ">=0.100");
    assert!(!parsed.direct);
}

#[test]
fn recognizes_direct_pep508_dependency() {
    let parsed = parse_pep508("demo @ https://example.com/demo.whl").unwrap();
    assert!(parsed.direct);
}

#[test]
fn rewrites_simple_constraints_without_changing_style() {
    assert_eq!(
        update_single_constraint("^1.2.0", "2.0.0", ConstraintKind::Node).unwrap(),
        "^2.0.0"
    );
    assert_eq!(
        update_single_constraint(">= 1.2", "2.0.0", ConstraintKind::Python).unwrap(),
        ">= 2.0.0"
    );
}

#[test]
fn rejects_compound_and_upper_bound_constraints() {
    assert!(update_single_constraint(">=1,<2", "2.0.0", ConstraintKind::Python).is_err());
    assert!(update_single_constraint("<2", "2.0.0", ConstraintKind::Python).is_err());
}

#[test]
fn compares_release_versions_with_missing_zeroes() {
    assert_eq!(compare_versions("1.2", "1.2.0"), Ordering::Equal);
    assert_eq!(compare_versions("1.2rc1", "1.2"), Ordering::Less);
    assert_eq!(compare_versions("1.10", "1.9"), Ordering::Greater);
}

#[test]
fn extracts_scoped_npm_alias_target() {
    assert_eq!(
        node_registry_target("compat", "npm:@scope/package@^1.0.0").0,
        "@scope/package"
    );
}

#[test]
fn constraint_refusals_name_their_reason() {
    assert_eq!(
        update_single_constraint(" * ", "2", ConstraintKind::Node).unwrap_err(),
        "unconstrained dependencies are left unchanged"
    );
    assert_eq!(
        update_single_constraint(">=1,<2", "2", ConstraintKind::Python).unwrap_err(),
        "compound version ranges are not rewritten"
    );
    assert_eq!(
        update_single_constraint("1 || 2", "3", ConstraintKind::Node).unwrap_err(),
        "compound version ranges are not rewritten"
    );
    assert_eq!(
        update_single_constraint("<2", "2", ConstraintKind::Node).unwrap_err(),
        "the '<' constraint is not safe to rewrite"
    );
    assert_eq!(
        update_single_constraint("~=1.2", "2", ConstraintKind::Node).unwrap_err(),
        "the '~=' constraint is not safe to rewrite"
    );
    assert_eq!(
        update_single_constraint("1.*", "2", ConstraintKind::Python).unwrap_err(),
        "wildcard or non-standard version constraints are not rewritten"
    );
    assert_eq!(
        update_single_constraint("1.2.0", "2.0.0", ConstraintKind::Node).unwrap(),
        "2.0.0"
    );
    assert_eq!(
        update_single_constraint("==  1.0", "1.1", ConstraintKind::Python).unwrap(),
        "==  1.1"
    );
}

#[test]
fn version_order_edge_cases() {
    assert_eq!(compare_versions("v1.0.0", "1.0.0"), Ordering::Equal);
    assert_eq!(compare_versions("1!2.0", "2.0"), Ordering::Equal);
    assert_eq!(compare_versions("1.0.0-beta", "1.0.0-alpha"), Ordering::Greater);
    assert_eq!(compare_versions("", "0"), Ordering::Equal);
    assert_eq!(compare_versions("2", "10"), Ordering::Less);
}

fn dependency(syntax: RequirementSyntax, raw: &str, requirement: &str) -> Dependency {
    Dependency {
        name: "pkg".to_string(),
        lookup_name: "pkg".to_string(),
        ecosystem: Ecosystem::Python,
        group: "requirements".to_string(),
        requirement: requirement.to_string(),
        raw: raw.to_string(),
        syntax,
        location: DependencyLocation::TextSpan { start: 0, end: raw.len() },
        skip_reason: None,
    }
}

#[test]
fn statuses_and_replacements() {
    let outdated = dependency(RequirementSyntax::Pep508, "pkg[x]>=1.0 ; python_version > '3'", ">=1.0");
    assert_eq!(requirement_status(&outdated, "2.0").0, ReportStatus::Outdated);
    assert_eq!(
        replacement_for(&outdated, "2.0").unwrap().unwrap(),
        "pkg[x]>=2.0 ; python_version > '3'"
    );
    assert_eq!(requirement_status(&outdated, "1.0").0, ReportStatus::Current);
    assert_eq!(replacement_for(&outdated, "1.0").unwrap(), None);
    let (status, message) = requirement_status(&outdated, "0.9");
    assert_eq!(status, ReportStatus::Ahead);
    assert_eq!(
        message.as_deref(),
        Some("the declared version is newer than the registry latest tag")
    );
    let star = dependency(RequirementSyntax::PythonConstraint, "*", "*");
    assert_eq!(requirement_status(&star, "1.0").0, ReportStatus::Unconstrained);
    let range = dependency(RequirementSyntax::PythonConstraint, ">=1,<2", ">=1,<2");
    let (status, message) = requirement_status(&range, "3");
    assert_eq!(status, ReportStatus::Skipped);
    assert_eq!(message.as_deref(), Some("the version range is too complex to rewrite safely"));
    assert_eq!(
        replacement_for(&range, "3").unwrap_err(),
        "the version range is too complex to rewrite safely"
    );
    let mut node = dependency(RequirementSyntax::Node, " npm:@scope/package@^1.0.0 ", "npm:@scope/package@^1.0.0");
    node.ecosystem = Ecosystem::Node;
    assert_eq!(
        replacement_for(&node, "2.0.0").unwrap().unwrap(),
        " npm:@scope/package@^2.0.0 "
    );
}

#[test]
fn local_node_sources_are_skipped() {
    let (target, skip) = node_registry_target("x", " Workspace:* ");
    assert_eq!(target, "x");
    assert_eq!(
        skip.as_deref(),
        Some("local, workspace, URL, and git dependencies are not rewritten")
    );
    assert_eq!(node_registry_target("x", "^1.0.0"), ("x".to_string(), None));
}

#[test]
fn npm_local_paths_are_skipped() {
    for requirement in ["../shared", "./packages/a", "/opt/lib", "~/code/lib", " ../x "] {
        let (target, skip) = node_registry_target("shared", requirement);
        assert_eq!(target, "shared");
        assert_eq!(
            skip.as_deref(),
            Some("local, workspace, URL, and git dependencies are not rewritten"),
            "{requirement}"
        );
    }
    let dependencies = relay_sync::package_json::parse_package_json(
        r#"{"dependencies": {"shared": "../shared"}}"#,
        "package.json",
    )
    .unwrap();
    assert!(dependencies[0].skip_reason.is_some());
    assert!(replacement_for(&dependencies[0], "1.0.0").is_err());
}

use relay_sync::manifest::{parse_requirements, render_text};
use relay_sync::model::{Dependency, DependencyLocation, Ecosystem, ReportStatus, RequirementSyntax};
use relay_sync::package_json::{parse_package_json, render_package_json};
use relay_sync::version::{
    compare_versions, replacement_for, requirement_status, update_single_constraint, ConstraintKind,
};
use std::cmp::Ordering;

fn constraint(raw: &str, skip: Option<&str>) -> Dependency {
    Dependency {
        name: "pkg".to_string(),
        lookup_name: "pkg".to_string(),
        ecosystem: Ecosystem::Python,
        group: "packages".to_string(),
        requirement: raw.to_string(),
        raw: raw.to_string(),
        syntax: RequirementSyntax::PythonConstraint,
        location: DependencyLocation::TomlKey {
            path: vec!["packages".to_string()],
            key: "pkg".to_string(),
            field: None,
        },
        skip_reason: skip.map(|s| s.to_string()),
    }
}

#[test]
fn skipped_declarations_keep_their_reason() {
    let d = constraint(">=1.0", Some("path, URL, and git dependencies are not rewritten"));
    let (status, message) = requirement_status(&d, "9.9");
    assert_eq!(status, ReportStatus::Skipped);
    assert_eq!(message.as_deref(), Some("path, URL, and git dependencies are not rewritten"));
    assert!(replacement_for(&d, "9.9").is_err());
}

#[test]
fn unconstrained_declarations_stay() {
    let d = constraint("*", None);
    assert_eq!(requirement_status(&d, "2.0").0, ReportStatus::Unconstrained);
    assert_eq!(replacement_for(&d, "2.0").unwrap(), None);
}

#[test]
fn unsafe_constraints_are_refused() {
    for c in [">=1 <2", "1 - 2", "<=3", "!=1.0", ">1.0", "1.x", "1.X", "~1.*"] {
        assert!(update_single_constraint(c, "9.0", ConstraintKind::Python).is_err(), "{c}");
    }
    assert!(update_single_constraint("<3", "9.0", ConstraintKind::Node).is_err());
}

#[test]
fn rewrites_keep_the_text_before_the_version() {
    let rewritten = update_single_constraint("  ~= 1.4 ", "2.0", ConstraintKind::Python).unwrap();
    assert_eq!(rewritten, "~= 2.0");
    assert!(rewritten.starts_with("~= ") && rewritten.ends_with("2.0"));
}

#[test]
fn a_replacement_means_outdated() {
    let d = constraint("==1.0", None);
    assert_eq!(replacement_for(&d, "1.1").unwrap().as_deref(), Some("==1.1"));
    assert_eq!(requirement_status(&d, "1.1").0, ReportStatus::Outdated);
}

#[test]
fn prereleases_rank_below_releases() {
    assert_eq!(compare_versions("2.0.0-rc.1", "2.0.0"), Ordering::Less);
    assert_eq!(compare_versions("2.0.0", "2.0.0-rc.1"), Ordering::Greater);
    assert_eq!(compare_versions("3.1", "3.1"), Ordering::Equal);
}

#[test]
fn version_order_is_transitive_on_examples() {
    let v = ["1.0a1", "1.0", "1.0.1", "1.2", "1.10"];
    for i in 0..v.len() {
        for j in i + 1..v.len() {
            assert_eq!(compare_versions(v[i], v[j]), Ordering::Less);
            assert_eq!(compare_versions(v[j], v[i]), Ordering::Greater);
        }
    }
}

#[test]
fn a_text_update_changes_only_its_span() {
    let content = "a==1.0\nb==2.0 ; python_version < '3.9'\nc==3.0\n";
    let dependencies = parse_requirements(content);
    let rendered = render_text(content, &dependencies, &[(1usize, "b==2.1".to_string())]).unwrap();
    assert_eq!(rendered, "a==1.0\nb==2.1\nc==3.0\n");
    assert_eq!(render_text(content, &dependencies, &[]).unwrap(), content);
}

#[test]
fn a_json_update_reads_back() {
    let content = r#"{"dependencies": {"a": "1.0.0", "b": "^2.0.0"}, "devDependencies": {"a": "~1.0.0"}}"#;
    let dependencies = parse_package_json(content, "package.json").unwrap();
    assert_eq!(dependencies.len(), 3);
    let rendered = render_package_json(content, &dependencies, &[(0usize, "1.1.0".to_string())]).unwrap();
    let reparsed = parse_package_json(&rendered, "package.json").unwrap();
    assert_eq!(reparsed[0].requirement, "1.1.0");
    assert_eq!(reparsed[1].requirement, "^2.0.0");
    assert_eq!(reparsed[2].requirement, "~1.0.0");
}

#[test]
fn pep508_rewrites_keep_extras_and_markers() {
    let mut d = constraint("pkg[a,b] >= 1.0 ; sys_platform == 'linux'", None);
    d.syntax = RequirementSyntax::Pep508;
    d.requirement = ">= 1.0".to_string();
    assert_eq!(
        replacement_for(&d, "2.0").unwrap().as_deref(),
        Some("pkg[a,b] >= 2.0 ; sys_platform == 'linux'")
    );
}

#[test]
fn npm_alias_rewrites_keep_the_target() {
    let mut d = constraint("\tnpm:lodash-es@~4.17.0 ", None);
    d.syntax = RequirementSyntax::Node;
    d.ecosystem = Ecosystem::Node;
    d.requirement = "npm:lodash-es@~4.17.0".to_string();
    assert_eq!(
        replacement_for(&d, "4.18.1").unwrap().as_deref(),
        Some("\tnpm:lodash-es@~4.18.1 ")
    );
}

#[test]
fn several_updates_of_a_parsed_file_apply_from_the_end() {
    let content = "a==1.0 # café\nb==2.0\nc>=3\n";
    let dependencies = parse_requirements(content);
    let updates = vec![
        (0usize, "a==1.1".to_string()),
        (2usize, "c>=4".to_string()),
        (1usize, "b==2.5".to_string()),
    ];
    assert!(relay_sync::manifest::text_updates_fit(content, &dependencies, &updates));
    assert_eq!(
        render_text(content, &dependencies, &updates).unwrap(),
        "a==1.1 # café\nb==2.5\nc>=4\n"
    );
}

#[test]
fn several_setup_cfg_updates_apply() {
    let content = "[options]\ninstall_requires = ünï>=1 ; python_version>'3'\n    requests>=2.31\n    flask==2.0\n";
    let dependencies = relay_sync::manifest::parse_setup_cfg(content);
    assert_eq!(dependencies.len(), 2);
    let updates = vec![(1usize, "flask==3.0".to_string()), (0usize, "requests>=2.32".to_string())];
    assert!(relay_sync::manifest::text_updates_fit(content, &dependencies, &updates));
    assert_eq!(
        render_text(content, &dependencies, &updates).unwrap(),
        "[options]\ninstall_requires = ünï>=1 ; python_version>'3'\n    requests>=2.32\n    flask==3.0\n"
    );
}

#[test]
fn rewriting_with_the_same_text_changes_nothing() {
    let content = "x>=1  # keep\n  y[a]==2 ; os_name == 'nt'\n";
    let dependencies = parse_requirements(content);
    for (index, dependency) in dependencies.iter().enumerate() {
        let rendered = render_text(content, &dependencies, &[(index, dependency.raw.clone())]).unwrap();
        assert_eq!(rendered, content);
    }
}

#[test]
fn rewriting_all_declarations_with_their_own_text_changes_nothing() {
    let content = "x>=1  # keep\n-r other.txt\n  y[a]==2 ; os_name == 'nt'\nz~=3.1\n";
    let dependencies = parse_requirements(content);
    assert_eq!(dependencies.len(), 3);
    let updates: Vec<(usize, String)> =
        dependencies.iter().enumerate().rev().map(|(i, d)| (i, d.raw.clone())).collect();
    assert_eq!(render_text(content, &dependencies, &updates).unwrap(), content);
}

#[test]
fn requirement_lines_give_pep508_declarations() {
    let content = "# pinned\n--index-url https://example.org\n  Django[bcrypt]>=4.2 ; python_version > '3.8'  # web\n-e .\nrequests\n";
    let dependencies = parse_requirements(content);
    assert_eq!(dependencies.len(), 2);
    for d in &dependencies {
        assert_eq!(d.group, "requirements");
        assert_eq!(d.ecosystem, Ecosystem::Python);
        assert_eq!(d.syntax, RequirementSyntax::Pep508);
        assert!(!d.raw.starts_with('#') && !d.raw.starts_with('-'));
        match &d.location {
            DependencyLocation::TextSpan { start, end } => assert_eq!(&content[*start..*end], d.raw),
            other => panic!("unexpected location {:?}", other),
        }
    }
    assert_eq!(dependencies[0].name, "Django");
    assert_eq!(dependencies[0].requirement, ">=4.2");
    assert_eq!(dependencies[1].name, "requests");
    assert_eq!(dependencies[1].requirement, "");
}

fn percent_decode(s: &str) -> Option<Vec<u8>> {
    let b = s.as_bytes();
    let mut out = Vec::new();
    let mut i = 0;
    while i < b.len() {
        if b[i] == b'%' {
            let hex = std::str::from_utf8(b.get(i + 1..i + 3)?).ok()?;
            out.push(u8::from_str_radix(hex, 16).ok()?);
            i += 3;
        } else {
            if !b[i].is_ascii() {
                return None;
            }
            out.push(b[i]);
            i += 1;
        }
    }
    Some(out)
}

#[test]
fn encoded_segments_decode_back() {
    for name in ["@scope/pkg", "left-pad", "ünïcode name", "a%b~c.d_e"] {
        let encoded = relay_sync::registry::encode_path_segment(name);
        assert!(encoded.is_ascii());
        assert!(!encoded.contains('/'));
        assert_eq!(percent_decode(&encoded).unwrap(), name.as_bytes());
    }
    assert_eq!(relay_sync::registry::encode_path_segment("@scope/pkg"), "%40scope%2Fpkg");
}

#[test]
fn a_toml_update_reads_back() {
    let content = "[project]\nname = \"demo\"\ndependencies = [\"requests>=2.31\", \"httpx>=0.27\"]\n\n[tool.poetry.dependencies]\nrich = { version = \"^13.0\", optional = true }\n";
    let dependencies = relay_sync::pyproject::parse_pyproject(content, "pyproject.toml").unwrap();
    assert_eq!(dependencies.len(), 3);
    let updates = vec![(1usize, "httpx>=0.28".to_string()), (2usize, "^14.0".to_string())];
    let rendered = relay_sync::pyproject::render_toml(content, &dependencies, &updates).unwrap();
    let again = relay_sync::pyproject::parse_pyproject(&rendered, "pyproject.toml").unwrap();
    assert_eq!(again.len(), 3);
    assert_eq!(again[0].raw, "requests>=2.31");
    assert_eq!(again[1].raw, "httpx>=0.28");
    assert_eq!(again[2].requirement, "^14.0");
    assert!(rendered.contains("name = \"demo\""));
    assert!(rendered.contains("optional = true"));
}

#[test]
fn upper_bounds_and_exclusions_are_skipped_whatever_the_latest() {
    for (c, op) in [("<2", "<"), ("<= 3.1", "<="), ("!=1.0", "!="), (">1.0", ">")] {
        for latest in ["0.5", "2.0", "3.1", "9.0"] {
            let d = constraint(c, None);
            let (status, message) = requirement_status(&d, latest);
            assert_eq!(status, ReportStatus::Skipped, "{c} {latest}");
            assert_eq!(message.unwrap(), format!("the '{op}' constraint is not safe to rewrite"));
            assert_eq!(
                replacement_for(&d, latest).unwrap_err(),
                format!("the '{op}' constraint is not safe to rewrite")
            );
        }
    }
    let wildcard = constraint("1.x", None);
    assert_eq!(requirement_status(&wildcard, "1.x").0, ReportStatus::Skipped);
}

#[test]
fn replacement_comes_exactly_with_outdated() {
    for (c, latest) in [("==1.0", "1.1"), ("==1.0", "1.0"), ("~=2.0", "1.0"), ("<2", "3.0"), ("*", "1.0")] {
        let d = constraint(c, None);
        let status = requirement_status(&d, latest).0;
        let replacement = replacement_for(&d, latest);
        assert_eq!(matches!(replacement, Ok(Some(_))), status == ReportStatus::Outdated, "{c}");
        assert_eq!(replacement.is_err(), status == ReportStatus::Skipped, "{c}");
    }
}

#[test]
fn disjoint_spans_of_any_text_are_spliced() {
    let content = "alpha beta gamma";
    let span = |start: usize, end: usize| {
        let mut d = constraint("x", None);
        d.location = DependencyLocation::TextSpan { start, end };
        d
    };
    let dependencies = vec![span(6, 10), span(0, 5), span(11, 16)];
    let updates = vec![(0usize, "BETA".to_string()), (2usize, "g".to_string()), (1usize, "a".to_string())];
    assert_eq!(render_text(content, &dependencies, &updates).unwrap(), "a BETA g");
    let same = vec![(1usize, "alpha".to_string()), (0usize, "beta".to_string())];
    assert_eq!(render_text(content, &dependencies, &same).unwrap(), content);
}

use relay_sync::manifest::{infer_kind, kind_for_path, parse_requirements, parse_setup_cfg, render_text};
use relay_sync::model::{DependencyLocation, Ecosystem, Manifest, ManifestKind, RequirementSyntax};
use relay_sync::package_json::{parse_package_json, render_package_json};
use relay_sync::pyproject::{parse_pipfile, parse_pyproject, render_toml};

#[test]
fn parses_all_node_dependency_sections() {
    let manifest = r#"{
  "dependencies": { "react": "^18.2.0" },
  "devDependencies": { "typescript": "~5.5.0" },
  "optionalDependencies": { "fsevents": "^2.3.3" },
  "peerDependencies": { "react-dom": ">=18.0.0" }
}
"#;
    let dependencies = parse_package_json(manifest, "package.json").unwrap();
    assert_eq!(dependencies.len(), 4);
}

#[test]
fn parses_pep621_poetry_and_dependency_groups() {
    let manifest = r#"
[project]
dependencies = ["requests>=2.31"]

[project.optional-dependencies]
test = ["pytest==8.0"]

[dependency-groups]
lint = ["ruff>=0.5"]

[tool.poetry.dependencies]
httpx = "^0.27"

[tool.poetry.group.dev.dependencies]
mypy = { version = "~1.10", extras = ["dmypy"] }
"#;
    let dependencies = parse_pyproject(manifest, "pyproject.toml").unwrap();
    assert_eq!(dependencies.len(), 5);
}

#[test]
fn text_render_preserves_comments_and_markers() {
    let content = "requests>=2.31 ; python_version > '3.10'  # API\n";
    let dependencies = parse_requirements(content);
    let updates = vec![(0usize, "requests>=2.32 ; python_version > '3.10'".to_string())];
    let rendered = render_text(content, &dependencies, &updates).unwrap();
    assert_eq!(
        rendered,
        "requests>=2.32 ; python_version > '3.10'  # API\n"
    );
}

#[test]
fn setup_cfg_reads_install_and_extra_requirements() {
    let content = r#"
[options]
install_requires =
    requests>=2.31

[options.extras_require]
test =
    pytest==8.0
"#;
    let dependencies = parse_setup_cfg(content);
    assert_eq!(dependencies.len(), 2);
    assert_eq!(dependencies[1].group, "options.extras_require.test");
}

#[test]
fn node_sections_keep_their_groups_and_json_locations() {
    let manifest = r#"{"devDependencies": {"b": "1.0.0", "a": "^2.0.0"}, "name": "x"}"#;
    let dependencies = parse_package_json(manifest, "package.json").unwrap();
    assert_eq!(dependencies.len(), 2);
    // serde_json keeps object members ordered by key.
    assert_eq!(dependencies[0].name, "a");
    assert_eq!(dependencies[0].group, "devDependencies");
    assert_eq!(dependencies[0].syntax, RequirementSyntax::Node);
    assert_eq!(dependencies[0].ecosystem, Ecosystem::Node);
    match &dependencies[0].location {
        DependencyLocation::Json { section, key } => {
            assert_eq!(section, "devDependencies");
            assert_eq!(key, "a");
        }
        _ => panic!("expected a JSON location"),
    }
}

#[test]
fn node_local_and_alias_declarations() {
    let manifest = r#"{"dependencies": {"local": "file:../x", "compat": "npm:@scope/package@^1.0.0", "n": 5}}"#;
    let dependencies = parse_package_json(manifest, "package.json").unwrap();
    assert_eq!(dependencies.len(), 2);
    assert_eq!(dependencies[0].name, "compat");
    assert_eq!(dependencies[0].lookup_name, "@scope/package");
    assert!(dependencies[0].skip_reason.is_none());
    assert_eq!(dependencies[1].name, "local");
    assert_eq!(
        dependencies[1].skip_reason.as_deref(),
        Some("local, workspace, URL, and git dependencies are not rewritten")
    );
}

#[test]
fn invalid_package_json_names_the_file() {
    let error = parse_package_json("{ not json", "dir/package.json").unwrap_err();
    assert!(error.starts_with("failed to parse dir/package.json: "));
}

#[test]
fn invalid_pyproject_names_the_file() {
    let error = parse_pyproject("[project\n", "pyproject.toml").unwrap_err();
    assert!(error.starts_with("failed to parse pyproject.toml: "));
}

#[test]
fn invalid_pep508_in_array_is_an_error() {
    let manifest = "[project]\ndependencies = [\"!!bad\"]\n";
    let error = parse_pyproject(manifest, "pyproject.toml").unwrap_err();
    assert_eq!(error, "invalid PEP 508 dependency '!!bad' in project.dependencies");
}

#[test]
fn pyproject_locations_and_skips() {
    let manifest = r#"
[project]
dependencies = ["demo @ https://example.com/demo.whl", 3, "requests>=2.31"]

[tool.poetry.dependencies]
python = "^3.11"
local = { path = "../local" }
httpx = "^0.27"
"#;
    let dependencies = parse_pyproject(manifest, "pyproject.toml").unwrap();
    assert_eq!(dependencies.len(), 4);
    assert_eq!(dependencies[0].name, "demo");
    assert_eq!(
        dependencies[0].skip_reason.as_deref(),
        Some("direct URL dependencies are not rewritten")
    );
    match &dependencies[1].location {
        DependencyLocation::TomlArray { path, index } => {
            assert_eq!(path, &vec!["project".to_string(), "dependencies".to_string()]);
            assert_eq!(*index, 2);
        }
        _ => panic!("expected an array location"),
    }
    assert_eq!(dependencies[2].name, "local");
    assert_eq!(dependencies[2].requirement, "*");
    assert_eq!(
        dependencies[2].skip_reason.as_deref(),
        Some("path, URL, and git dependencies are not rewritten")
    );
    assert_eq!(dependencies[3].name, "httpx");
    assert_eq!(dependencies[3].group, "tool.poetry.dependencies");
}

#[test]
fn pipfile_reads_packages_then_dev_packages() {
    let manifest = "[dev-packages]\npytest = \"*\"\n\n[packages]\nrequests = \">=2.31\"\n";
    let dependencies = parse_pipfile(manifest, "Pipfile").unwrap();
    assert_eq!(dependencies.len(), 2);
    assert_eq!(dependencies[0].name, "requests");
    assert_eq!(dependencies[0].group, "packages");
    assert_eq!(dependencies[1].name, "pytest");
    assert_eq!(dependencies[1].group, "dev-packages");
}

#[test]
fn toml_render_keeps_comments() {
    let content = "[project]\ndependencies = [\n  \"requests>=2.31\", # http\n]\n\n[tool.poetry.dependencies]\nhttpx = \"^0.27\" # client\nmypy = { version = \"~1.10\" }\n";
    let dependencies = parse_pyproject(content, "pyproject.toml").unwrap();
    assert_eq!(dependencies.len(), 3);
    let updates = vec![
        (0usize, "requests>=2.32".to_string()),
        (1usize, "^0.28".to_string()),
        (2usize, "~1.11".to_string()),
    ];
    let rendered = render_toml(content, &dependencies, &updates).unwrap();
    assert_eq!(
        rendered,
        "[project]\ndependencies = [\n  \"requests>=2.32\", # http\n]\n\n[tool.poetry.dependencies]\nhttpx = \"^0.28\" # client\nmypy = { version = \"~1.11\" }\n"
    );
}

#[test]
fn toml_render_refuses_bad_updates() {
    let content = "[packages]\nrequests = \">=2.31\"\n";
    let dependencies = parse_pipfile(content, "Pipfile").unwrap();
    let updates = vec![(5usize, ">=3".to_string())];
    assert_eq!(
        render_toml(content, &dependencies, &updates).unwrap_err(),
        "invalid TOML dependency update"
    );
    let text_dependencies = parse_requirements("requests>=2.31\n");
    let updates = vec![(0usize, ">=3".to_string())];
    assert_eq!(
        render_toml(content, &text_dependencies, &updates).unwrap_err(),
        "invalid TOML dependency location"
    );
    assert!(render_toml("[packages\n", &dependencies, &[]).is_err());
}

#[test]
fn package_json_render_keeps_indent_and_line_endings() {
    let content = "{\r\n    \"dependencies\": {\r\n        \"react\": \"^18.2.0\"\r\n    }\r\n}\r\n";
    let dependencies = parse_package_json(content, "package.json").unwrap();
    let updates = vec![(0usize, "^19.0.0".to_string())];
    let rendered = render_package_json(content, &dependencies, &updates).unwrap();
    assert_eq!(
        rendered,
        "{\r\n    \"dependencies\": {\r\n        \"react\": \"^19.0.0\"\r\n    }\r\n}\r\n"
    );
}

#[test]
fn package_json_render_errors() {
    let content = "{\n  \"dependencies\": {\n    \"react\": \"^18.2.0\"\n  }\n}";
    let dependencies = parse_package_json(content, "package.json").unwrap();
    assert_eq!(
        render_package_json(content, &dependencies, &[(3usize, "1".to_string())]).unwrap_err(),
        "invalid package.json dependency update"
    );
    let other = "{\n  \"devDependencies\": {}\n}";
    assert_eq!(
        render_package_json(other, &dependencies, &[(0usize, "1".to_string())]).unwrap_err(),
        "could not find dependencies.react"
    );
    let rendered = render_package_json(content, &dependencies, &[]).unwrap();
    assert_eq!(rendered, content);
}

#[test]
fn text_render_errors_for_non_text_locations() {
    let content = "{\"dependencies\": {\"react\": \"^18.2.0\"}}";
    let dependencies = parse_package_json(content, "package.json").unwrap();
    assert_eq!(
        render_text("x\n", &dependencies, &[(0usize, "y".to_string())]).unwrap_err(),
        "invalid text dependency location"
    );
    assert_eq!(
        render_text("x\n", &dependencies, &[(9usize, "y".to_string())]).unwrap_err(),
        "invalid text dependency update"
    );
}

#[test]
fn requirements_skip_comments_options_and_continuations() {
    let content = "# comment\n-r base.txt\n\nflask==2.0 \\\nDjango>=4.2,\nrequests # trailing\n";
    let dependencies = parse_requirements(content);
    assert_eq!(dependencies.len(), 3);
    assert_eq!(dependencies[0].raw, "flask==2.0");
    assert_eq!(dependencies[1].raw, "Django>=4.2");
    assert_eq!(dependencies[2].raw, "requests");
    assert_eq!(dependencies[2].requirement, "");
    match dependencies[0].location {
        DependencyLocation::TextSpan { start, end } => {
            assert_eq!(&content[start..end], "flask==2.0");
        }
        _ => panic!("expected a text span"),
    }
}

#[test]
fn setup_cfg_inline_values_and_other_sections() {
    let content = "[metadata]\ninstall_requires = ignored>=1\n[options]\nsetup_requires = wheel>=0.40\ntests_require =\n    pytest>=8\n";
    let dependencies = parse_setup_cfg(content);
    assert_eq!(dependencies.len(), 2);
    assert_eq!(dependencies[0].name, "wheel");
    assert_eq!(dependencies[0].group, "options.setup_requires");
    assert_eq!(dependencies[1].group, "options.tests_require");
}

#[test]
fn manifest_kinds_by_file_name() {
    assert_eq!(infer_kind("a/package.json").unwrap(), ManifestKind::PackageJson);
    assert_eq!(infer_kind("a/PyProject.TOML").unwrap(), ManifestKind::PyProject);
    assert_eq!(infer_kind("Pipfile").unwrap(), ManifestKind::Pipfile);
    assert_eq!(infer_kind("setup.cfg").unwrap(), ManifestKind::SetupCfg);
    assert_eq!(infer_kind("requirements/dev.in").unwrap(), ManifestKind::Requirements);
    assert_eq!(
        infer_kind("a/README.md").unwrap_err(),
        "a/README.md is not a supported dependency manifest"
    );
    assert_eq!(infer_kind("..").unwrap_err(), "invalid manifest path ..");
    assert_eq!(kind_for_path("x", None).unwrap_err(), "invalid manifest path x");
    assert_eq!(kind_for_path("x/.txt", Some(".txt")).unwrap_err(), "x/.txt is not a supported dependency manifest");
}

#[test]
fn manifest_from_source_and_render() {
    let manifest = Manifest::from_source(
        "requirements.txt".to_string(),
        ManifestKind::Requirements,
        "requests>=2.31\n".to_string(),
    )
    .unwrap();
    assert_eq!(manifest.dependencies.len(), 1);
    let rendered = manifest.render(&[(0usize, "requests>=2.32".to_string())]).unwrap();
    assert_eq!(rendered, "requests>=2.32\n");
    let error = Manifest::from_source("p.json".to_string(), ManifestKind::PackageJson, "[".to_string()).unwrap_err();
    assert!(error.starts_with("failed to parse p.json: "));
}

#[test]
fn toml_render_nested_version_tables_and_groups() {
    let content = "[dependency-groups]\nlint = [\"ruff>=0.5\"]\n\n[tool.poetry.group.dev.dependencies.mypy]\nversion = \"~1.10\" # typing\nextras = [\"dmypy\"]\n";
    let dependencies = parse_pyproject(content, "pyproject.toml").unwrap();
    assert_eq!(dependencies.len(), 2);
    assert_eq!(dependencies[0].group, "dependency-groups.lint");
    assert_eq!(dependencies[1].group, "tool.poetry.group.dev.dependencies");
    let updates = vec![(1usize, "~1.11".to_string()), (0usize, "ruff>=0.6".to_string())];
    let rendered = render_toml(content, &dependencies, &updates).unwrap();
    assert_eq!(
        rendered,
        "[dependency-groups]\nlint = [\"ruff>=0.6\"]\n\n[tool.poetry.group.dev.dependencies.mypy]\nversion = \"~1.11\" # typing\nextras = [\"dmypy\"]\n"
    );
}

#[test]
fn toml_render_refuses_a_location_the_document_lacks() {
    let content = "[packages]\nrequests = \">=2.31\"\n";
    let mut dependencies = parse_pipfile(content, "Pipfile").unwrap();
    dependencies[0].location = DependencyLocation::TomlKey {
        path: vec!["dev-packages".to_string()],
        key: "requests".to_string(),
        field: None,
    };
    let updates = vec![(0usize, ">=3".to_string())];
    assert!(render_toml(content, &dependencies, &updates).is_err());
}

#[test]
fn toml_render_without_updates_reads_back_unchanged() {
    let content = "# top\n[packages]\nrequests = '>=2.31'  # pinned\n";
    let dependencies = parse_pipfile(content, "Pipfile").unwrap();
    assert_eq!(render_toml(content, &dependencies, &[]).unwrap(), content);
}

#[test]
fn paths_with_directories_are_judged_by_their_file_name() {
    assert_eq!(infer_kind("services/api/pyproject.toml").unwrap(), ManifestKind::PyProject);
    assert_eq!(infer_kind("/srv/app/requirements-dev.txt").unwrap(), ManifestKind::Requirements);
    assert_eq!(
        infer_kind("web/Cargo.toml").unwrap_err(),
        "web/Cargo.toml is not a supported dependency manifest"
    );
    assert_eq!(
        relay_sync::lockfile::planned_lockfile_note("web/package.json").unwrap(),
        "lockfile regeneration for npm, pnpm, yarn, and bun is planned but not implemented"
    );
    assert_eq!(relay_sync::lockfile::planned_lockfile_note("web/setup.cfg"), None);
    assert!(relay_sync::discovery::should_skip_dir("src/node_modules"));
    assert!(!relay_sync::discovery::should_skip_dir("src/lib"));
}

#[test]
fn toml_render_errors_name_what_is_missing() {
    let content = "[packages]\nrequests = \">=2.31\"\nflask = { version = \"==2.0\" }\n[tool]\nlist = [\"a\"]\n";
    let base = parse_pipfile(content, "Pipfile").unwrap();
    let with_location = |location: DependencyLocation| {
        let mut d = base[0].clone();
        d.location = location;
        vec![d]
    };
    let updates = vec![(0usize, ">=3".to_string())];
    let key = |path: &[&str], key: &str, field: Option<&str>| DependencyLocation::TomlKey {
        path: path.iter().map(|p| p.to_string()).collect(),
        key: key.to_string(),
        field: field.map(|f| f.to_string()),
    };
    assert_eq!(
        render_toml(content, &with_location(key(&["dev-packages"], "requests", None)), &updates).unwrap_err(),
        "could not find dev-packages"
    );
    assert_eq!(
        render_toml(content, &with_location(key(&["packages"], "django", None)), &updates).unwrap_err(),
        "could not find packages.django"
    );
    assert_eq!(
        render_toml(content, &with_location(key(&["packages"], "flask", Some("path"))), &updates).unwrap_err(),
        "could not find version for flask"
    );
    assert_eq!(
        render_toml(content, &with_location(key(&[], "tool", None)), &updates).unwrap_err(),
        "could not find "
    );
    let array = DependencyLocation::TomlArray { path: vec!["tool".to_string(), "list".to_string()], index: 3 };
    assert_eq!(
        render_toml(content, &with_location(array), &updates).unwrap_err(),
        "could not find TOML dependency array item"
    );
    let flask = with_location(key(&["packages"], "flask", Some("version")));
    assert_eq!(
        render_toml(content, &flask, &updates).unwrap(),
        "[packages]\nrequests = \">=2.31\"\nflask = { version = \">=3\" }\n[tool]\nlist = [\"a\"]\n"
    );
}

#[test]
fn toml_render_refuses_overlapping_updates_and_keeps_other_text() {
    let content = "# deps\n[packages]\nrequests   =   '>=2.31'   # pinned\na.b = 1\n\n[dev-packages]\npytest=\"*\"\n";
    let dependencies = parse_pipfile(content, "Pipfile").unwrap();
    let pytest = dependencies.iter().position(|d| d.name == "pytest").unwrap();
    assert_eq!(dependencies[0].name, "requests");
    let twice = vec![(0usize, ">=3".to_string()), (0usize, ">=4".to_string())];
    assert_eq!(render_toml(content, &dependencies, &twice).unwrap_err(), "TOML values to update overlap");
    let once = vec![(pytest, ">=8".to_string()), (0usize, ">=3".to_string())];
    assert_eq!(
        render_toml(content, &dependencies, &once).unwrap(),
        "# deps\n[packages]\nrequests   =   \">=3\"   # pinned\na.b = 1\n\n[dev-packages]\npytest=\">=8\"\n"
    );
}

use relay_sync::discovery::{ecosystem_matches, should_skip_dir, skip_dir_name};
use relay_sync::cli::EcosystemFilter;
use relay_sync::lockfile::{lockfile_note_for_name, planned_lockfile_note};
use relay_sync::manifest::parse_requirements;
use relay_sync::model::{Ecosystem, Manifest, ManifestKind, ReportStatus};
use relay_sync::output::{table_report, truncate, Summary};
use relay_sync::package_json::parse_package_json;
use relay_sync::plan::{
    build_rows, check_exit_code, collect_updates, lookup_keys, update_guard, updates_for_manifest,
    updates_len, PackageFilter, retain_selected, require_dependencies, require_manifests, update_step,
    UpdateStep,
};

fn requirements_manifest(path: &str, text: &str) -> Manifest {
    Manifest::from_source(path.to_string(), ManifestKind::Requirements, text.to_string()).unwrap()
}

fn node_manifest(path: &str, text: &str) -> Manifest {
    Manifest::from_source(path.to_string(), ManifestKind::PackageJson, text.to_string()).unwrap()
}

#[test]
fn lookup_keys_are_deduplicated_and_sorted() {
    let a = requirements_manifest("/p/requirements.txt", "Zeta_Pkg>=1\nalpha>=1\nzeta.pkg==1\ndemo @ https://x/y.whl\n");
    let b = node_manifest("/p/package.json", r#"{"dependencies": {"react": "^18.0.0", "x": "file:x"}}"#);
    let keys = lookup_keys(&[a, b]);
    assert_eq!(
        keys,
        vec![
            (Ecosystem::Python, "alpha".to_string()),
            (Ecosystem::Python, "zeta-pkg".to_string()),
            (Ecosystem::Node, "react".to_string()),
        ]
    );
}

#[test]
fn rows_follow_lookups_and_skips() {
    let a = requirements_manifest("/p/requirements.txt", "requests>=2.31\nflask==2.0\nmissing>=1\ndemo @ https://x/y.whl\n");
    let lookups = vec![
        ((Ecosystem::Python, "requests".to_string()), Ok("2.32.0".to_string())),
        ((Ecosystem::Python, "flask".to_string()), Err("registry package not found".to_string())),
    ];
    let rows = build_rows(&[a], &lookups, "/p");
    assert_eq!(rows.len(), 4);
    assert_eq!(rows[0].manifest, "requirements.txt");
    assert_eq!(rows[0].status, ReportStatus::Outdated);
    assert_eq!(rows[0].latest.as_deref(), Some("2.32.0"));
    assert_eq!(rows[0].replacement.as_deref(), Some("requests>=2.32.0"));
    assert_eq!(rows[1].status, ReportStatus::Error);
    assert_eq!(rows[1].message.as_deref(), Some("registry package not found"));
    assert_eq!(rows[2].status, ReportStatus::Error);
    assert_eq!(rows[2].message.as_deref(), Some("registry lookup was not executed"));
    assert_eq!(rows[3].status, ReportStatus::Skipped);
    assert!(rows[3].replacement.is_none());

    let updates = collect_updates(&rows);
    assert_eq!(updates, vec![(0usize, 0usize, "requests>=2.32.0".to_string())]);
    assert_eq!(updates_len(&updates), 1);
    assert_eq!(updates_for_manifest(&updates, 0), vec![(0usize, "requests>=2.32.0".to_string())]);
    assert!(updates_for_manifest(&updates, 1).is_empty());

    let summary = Summary::from_rows(&rows);
    assert_eq!(summary.total, 4);
    assert_eq!(summary.outdated, 1);
    assert_eq!(summary.errors, 2);
    assert_eq!(summary.skipped, 1);
    assert_eq!(
        summary.current + summary.outdated + summary.ahead + summary.unconstrained + summary.skipped + summary.errors,
        summary.total
    );
    assert_eq!(check_exit_code(&summary, false), 2);
    assert_eq!(
        update_guard(&summary).unwrap_err(),
        "registry errors must be resolved before updating manifests"
    );
}

#[test]
fn exit_codes() {
    let rows = build_rows(&[], &[], "/p");
    let mut summary = Summary::from_rows(&rows);
    assert_eq!(check_exit_code(&summary, true), 0);
    summary.outdated = 1;
    assert_eq!(check_exit_code(&summary, true), 1);
    assert_eq!(check_exit_code(&summary, false), 0);
    assert!(update_guard(&summary).is_ok());
}

#[test]
fn package_filter_selects_by_name_or_lookup_name() {
    let mut manifest = node_manifest(
        "/p/package.json",
        r#"{"dependencies": {"compat": "npm:@scope/package@^1.0.0", "React": "^18.0.0", "vue": "^3.0.0"}}"#,
    );
    let filter = PackageFilter::new(&["react".to_string(), "@SCOPE/package".to_string()]);
    retain_selected(&mut manifest, &filter);
    let names: Vec<&str> = manifest.dependencies.iter().map(|d| d.name.as_str()).collect();
    assert_eq!(names, vec!["React", "compat"]);
    let everything = PackageFilter::new(&[]);
    let dependencies = parse_package_json(r#"{"dependencies": {"a": "1"}}"#, "package.json").unwrap();
    assert!(everything.matches(&dependencies[0]));
}

#[test]
fn table_lines() {
    assert_eq!(table_report(&[]), vec!["No dependencies found.".to_string()]);
    let a = requirements_manifest("/p/requirements.txt", "requests>=2.31\n");
    let lookups = vec![((Ecosystem::Python, "requests".to_string()), Ok("2.31".to_string()))];
    let rows = build_rows(&[a], &lookups, "/p");
    let lines = table_report(&rows);
    assert_eq!(lines.len(), 5);
    assert_eq!(
        lines[0],
        format!(
            "{:<8}  {:<28}  {:<24}  {:<24}  {:<16}  {:<16}  STATUS",
            "ECO", "MANIFEST", "GROUP", "PACKAGE", "CURRENT", "LATEST"
        )
    );
    assert_eq!(lines[1], "-".repeat(134));
    assert_eq!(
        lines[2],
        format!(
            "{:<8}  {:<28}  {:<24}  {:<24}  {:<16}  {:<16}  {}",
            "python", "requirements.txt", "requirements", "requests", ">=2.31", "2.31", "current"
        )
    );
    assert_eq!(lines[4], "1 dependencies, 0 outdated, 1 current, 0 skipped, 0 errors");
}

#[test]
fn truncation_counts_characters() {
    assert_eq!(truncate("short", 8), "short");
    assert_eq!(truncate("abcdefghij", 8), "abcde...");
    assert_eq!(truncate("ééééééééé", 5), "éé...");
    assert_eq!(truncate("abcd", 2), "...");
}

#[test]
fn lockfile_notes() {
    assert_eq!(
        planned_lockfile_note("/p/package.json").as_deref(),
        Some("lockfile regeneration for npm, pnpm, yarn, and bun is planned but not implemented")
    );
    assert_eq!(
        lockfile_note_for_name("requirements.in").as_deref(),
        Some("lockfile regeneration for uv, Poetry, PDM, Pipenv, and pip-tools is planned but not implemented")
    );
    assert_eq!(planned_lockfile_note("/p/setup.cfg"), None);
    assert_eq!(lockfile_note_for_name("requirements.txt"), None);
}

#[test]
fn discovery_rules() {
    assert!(should_skip_dir("/p/Node_Modules"));
    assert!(skip_dir_name(".venv"));
    assert!(!should_skip_dir("/p/src"));
    assert!(ecosystem_matches(ManifestKind::PackageJson, EcosystemFilter::Node));
    assert!(!ecosystem_matches(ManifestKind::PackageJson, EcosystemFilter::Python));
    assert!(ecosystem_matches(ManifestKind::SetupCfg, EcosystemFilter::All));
    assert!(!ecosystem_matches(ManifestKind::Pipfile, EcosystemFilter::Node));
}

#[test]
fn parse_then_render_keeps_other_lines() {
    let content = "alpha>=1.0\nbeta==2.0  # pinned\ngamma\n";
    let manifest = requirements_manifest("/p/requirements.txt", content);
    let rendered = manifest.render(&[(1usize, "beta==3.0".to_string())]).unwrap();
    assert_eq!(rendered, "alpha>=1.0\nbeta==3.0  # pinned\ngamma\n");
    assert_eq!(manifest.render(&[]).unwrap(), content);
    assert_eq!(parse_requirements(content).len(), 3);
}

#[test]
fn answered_lookups_leave_no_row_unexecuted() {
    let a = requirements_manifest("/p/requirements.txt", "Flask>=2\nflask_login==0.6\ndemo @ https://x/y.whl\n");
    let b = node_manifest("/p/package.json", r#"{"dependencies": {"react": "^18.0.0"}}"#);
    let manifests = vec![a, b];
    let lookups: Vec<_> = lookup_keys(&manifests)
        .into_iter()
        .map(|key| (key, Ok("9.0.0".to_string())))
        .collect();
    let rows = build_rows(&manifests, &lookups, "/p");
    assert_eq!(rows.len(), 4);
    for row in &rows {
        assert_ne!(row.message.as_deref(), Some("registry lookup was not executed"));
    }
    assert_eq!(rows[2].status, ReportStatus::Skipped);
}

#[test]
fn filtered_manifest_still_renders() {
    let content = "alpha==1.0\nbeta==2.0\ngamma==3.0\n";
    let mut manifest = requirements_manifest("/p/requirements.txt", content);
    retain_selected(&mut manifest, &PackageFilter::new(&["GAMMA".to_string(), "alpha".to_string()]));
    assert_eq!(manifest.dependencies.len(), 2);
    let updates = vec![(1usize, "gamma==3.1".to_string()), (0usize, "alpha==1.1".to_string())];
    assert!(manifest.can_render(&updates));
    assert_eq!(manifest.render(&updates).unwrap(), "alpha==1.1\nbeta==2.0\ngamma==3.1\n");
}

#[test]
fn plain_names_are_their_own_file_names() {
    assert!(should_skip_dir("NODE_MODULES"));
    assert!(!should_skip_dir("src"));
    assert!(!should_skip_dir(".."));
    assert_eq!(
        planned_lockfile_note("Pipfile").as_deref(),
        Some("lockfile regeneration for uv, Poetry, PDM, Pipenv, and pip-tools is planned but not implemented")
    );
    assert_eq!(planned_lockfile_note("pipfile"), None);
    assert_eq!(planned_lockfile_note(".."), None);
}

#[test]
fn runs_need_manifests_and_dependencies() {
    assert_eq!(require_manifests(0).unwrap_err(), "no supported dependency manifests found");
    assert!(require_manifests(2).is_ok());
    let empty = requirements_manifest("/p/requirements.txt", "# nothing\n");
    let full = requirements_manifest("/p/dev.txt", "pytest>=8\n");
    assert_eq!(require_dependencies(&[]).unwrap_err(), "no matching dependencies found");
    let empty2 = requirements_manifest("/p/requirements.txt", "# nothing\n");
    assert_eq!(require_dependencies(&[empty]).unwrap_err(), "no matching dependencies found");
    assert!(require_dependencies(&[empty2, full]).is_ok());
    assert_eq!(update_step(0, false), UpdateStep::NothingToUpdate);
    assert_eq!(update_step(0, true), UpdateStep::NothingToUpdate);
    assert_eq!(update_step(3, true), UpdateStep::DryRun);
    assert_eq!(update_step(3, false), UpdateStep::Write);
}

#[test]
fn manifest_labels_are_relative_to_the_root() {
    let a = requirements_manifest("/srv/app/services/api/requirements.txt", "flask==2.0\n");
    let b = requirements_manifest("/elsewhere/requirements.txt", "flask==2.0\n");
    let rows = build_rows(&[a, b], &[], "/srv/app");
    assert_eq!(rows[0].manifest, "services/api/requirements.txt");
    assert_eq!(rows[1].manifest, "/elsewhere/requirements.txt");
}

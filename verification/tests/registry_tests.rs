use relay_sync::model::Ecosystem;
use relay_sync::registry::{
    encode_path_segment, normalize_lookup_name, parse_registry_response, registry_url,
    status_error, trim_trailing_slash,
};

#[test]
fn encodes_scoped_npm_names() {
    assert_eq!(encode_path_segment("@scope/package"), "%40scope%2Fpackage");
}

#[test]
fn normalizes_python_distribution_names() {
    assert_eq!(
        normalize_lookup_name(Ecosystem::Python, "My_Pkg.Name"),
        "my-pkg-name"
    );
}

#[test]
fn npm_names_keep_their_spelling() {
    assert_eq!(normalize_lookup_name(Ecosystem::Node, "My_Pkg.Name"), "My_Pkg.Name");
    // Normalizing twice changes nothing.
    let once = normalize_lookup_name(Ecosystem::Python, "A.B_c");
    assert_eq!(normalize_lookup_name(Ecosystem::Python, &once), once);
}

#[test]
fn encodes_non_ascii_bytes() {
    assert_eq!(encode_path_segment("é~a b"), "%C3%A9~a%20b");
    assert!(!encode_path_segment("a/b/c").contains('/'));
}

#[test]
fn builds_registry_urls() {
    assert_eq!(trim_trailing_slash("https://pypi.org/pypi//"), "https://pypi.org/pypi");
    assert_eq!(
        registry_url(Ecosystem::Python, "https://pypi.org/pypi", "requests"),
        "https://pypi.org/pypi/requests/json"
    );
    assert_eq!(
        registry_url(Ecosystem::Node, "https://registry.npmjs.org", "@scope/package"),
        "https://registry.npmjs.org/%40scope%2Fpackage"
    );
}

#[test]
fn reads_registry_responses() {
    assert_eq!(
        parse_registry_response(Ecosystem::Python, "requests", r#"{"info": {"version": "2.32.3"}}"#)
            .unwrap(),
        "2.32.3"
    );
    assert_eq!(
        parse_registry_response(Ecosystem::Node, "react", r#"{"dist-tags": {"latest": "19.0.0"}}"#)
            .unwrap(),
        "19.0.0"
    );
    assert_eq!(
        parse_registry_response(Ecosystem::Python, "requests", r#"{"info": {"version": 3}}"#)
            .unwrap_err(),
        "PyPI response for requests did not include info.version"
    );
    assert_eq!(
        parse_registry_response(Ecosystem::Node, "react", "{}").unwrap_err(),
        "npm response for react did not include dist-tags.latest"
    );
    assert!(parse_registry_response(Ecosystem::Node, "react", "<html>")
        .unwrap_err()
        .starts_with("error decoding response body: "));
}

#[test]
fn registry_statuses() {
    assert_eq!(status_error(200, "200 OK"), None);
    assert_eq!(status_error(404, "404 Not Found").as_deref(), Some("registry package not found"));
    assert_eq!(
        status_error(500, "500 Internal Server Error").as_deref(),
        Some("registry returned HTTP 500 Internal Server Error")
    );
}

//! The crate's version is a plain `x.y.z`.

#[test]
fn version_looks_like_a_semver() {
    let parts: Vec<&str> = tabnas_jsonic_cli::VERSION.split('.').collect();
    assert_eq!(
        parts.len(),
        3,
        "VERSION is not x.y.z: {}",
        tabnas_jsonic_cli::VERSION
    );
    for part in parts {
        assert!(
            !part.is_empty() && part.chars().all(|c| c.is_ascii_digit()),
            "VERSION segment is not numeric: {}",
            tabnas_jsonic_cli::VERSION
        );
    }
}

//! The build string.

use visa_service::build_info::{
    build_version, git_describe, repo_root, Described, BUILD_VERSION, PKG_VERSION,
};

#[test]
fn build_version_is_stamped() {
    let v = BUILD_VERSION;
    assert!(!v.is_empty(), "BUILD_VERSION is empty");
    assert!(
        v.contains(PKG_VERSION),
        "BUILD_VERSION does not contain the package version: {v}"
    );
    assert!(
        !v.ends_with("(unknown)"),
        "the suffix is the fallback: {v}"
    );
}

#[test]
fn build_id_wins_over_the_description() {
    assert_eq!(build_version("1.2.3", Some("ci-77"), "v1.2.3-4-gabc"), "1.2.3 (ci-77)");
    assert_eq!(build_version("1.2.3", None, "v1.2.3-4-gabc"), "1.2.3 (v1.2.3-4-gabc)");
    assert_eq!(build_version("0.1.0", None, "v0.1.0"), BUILD_VERSION);
}

#[test]
fn description_falls_back_with_a_warning() {
    let (name, warning) = git_describe(&Described::Printed(" v1.0-dirty\n".to_string()));
    assert_eq!(name, "v1.0-dirty");
    assert_eq!(warning, None);

    let (name, warning) = git_describe(&Described::Printed("\n".to_string()));
    assert_eq!(name, "unknown");
    assert_eq!(
        warning.as_deref(),
        Some("git describe printed nothing; version suffix is 'unknown'")
    );

    let (name, warning) = git_describe(&Described::Failed {
        status: "exit status: 128".to_string(),
        stderr: "fatal: not a git\nrepository\n".to_string(),
    });
    assert_eq!(name, "unknown");
    assert_eq!(
        warning.as_deref(),
        Some(
            "git describe failed (exit status: 128); version suffix is 'unknown': \
             fatal: not a git repository"
        )
    );

    let (name, warning) = git_describe(&Described::NotRun("no such file".to_string()));
    assert_eq!(name, "unknown");
    assert_eq!(
        warning.as_deref(),
        Some("could not run git (no such file); version suffix is 'unknown'")
    );
}

#[test]
fn nearest_repository_is_found() {
    let dirs = |flags: &[bool]| -> Vec<(String, bool)> {
        flags.iter().map(|f| ("d".to_string(), *f)).collect()
    };
    assert_eq!(repo_root(&dirs(&[false, true, true])), 1);
    assert_eq!(repo_root(&dirs(&[true, true])), 0);
    assert_eq!(repo_root(&dirs(&[false, false])), 0);
}

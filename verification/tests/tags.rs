//! Tag selection: version precedence decides, not dates or tag order.

use gitt::git::GitTag;
use gitt::version::{get_latest_repo_tag, IntoSemverGitTag, IntoSemverGitTags, Version};

fn tag(name: &str, date: &str) -> GitTag {
    GitTag {
        tag: name.to_string(),
        hash: format!("hash-{}", name),
        commit_hash: format!("commit-{}", name),
        date: date.to_string(),
        message: None,
    }
}

#[test]
fn version_precedence_beats_date() {
    // v1.9.9 was created later, v2.0.0 earlier: v2.0.0 still wins
    let tags = vec![
        tag("v1.9.9", "2024-06-01T10:00:00+00:00"),
        tag("v2.0.0", "2023-01-01T10:00:00+00:00"),
    ];
    let latest = get_latest_repo_tag(&tags).unwrap();
    assert_eq!(latest.version.to_string(), "2.0.0");
    assert_eq!(latest.tag.tag, "v2.0.0");
}

#[test]
fn unparseable_tags_are_skipped() {
    let tags = vec![
        tag("nightly", "2024-06-01T10:00:00+00:00"),
        tag("1.2.3", "2023-01-01T10:00:00+00:00"),
        tag("also-not-a-version", "2025-01-01T10:00:00+00:00"),
    ];
    let latest = get_latest_repo_tag(&tags).unwrap();
    assert_eq!(latest.version.to_string(), "1.2.3");
}

#[test]
fn no_parseable_tag_gives_none() {
    let tags = vec![tag("nightly", "2024-06-01T10:00:00+00:00")];
    assert!(get_latest_repo_tag(&tags).is_none());
}

#[test]
fn prerelease_precedes_release() {
    let tags = vec![
        tag("1.0.0", "2024-01-01T10:00:00+00:00"),
        tag("1.0.0-rc.1", "2024-02-01T10:00:00+00:00"),
    ];
    let latest = get_latest_repo_tag(&tags).unwrap();
    assert_eq!(latest.version.to_string(), "1.0.0");
}

#[test]
fn into_semver_parses_a_plain_tag() {
    let t = tag("1.4.2", "2024-01-01T10:00:00+00:00").into_semver().unwrap();
    assert_eq!(t.version.to_string(), "1.4.2");
}

#[test]
fn into_semver_rejects_a_v_prefixed_tag() {
    assert!(tag("v1.4.2", "2024-01-01T10:00:00+00:00").into_semver().is_err());
}

#[test]
fn into_semver_over_a_list() {
    let ts = vec![
        tag("1.0.0", "2024-01-01T10:00:00+00:00"),
        tag("1.1.0", "2024-02-01T10:00:00+00:00"),
    ]
    .into_semver()
    .unwrap();
    assert_eq!(ts.len(), 2);
    assert_eq!(ts[1].version.to_string(), "1.1.0");
}

#[test]
fn version_text_keeps_prerelease_and_build() {
    let v = Version {
        major: 1,
        minor: 2,
        patch: 3,
        pre: "alpha.7".to_string(),
        build: "001".to_string(),
    };
    assert_eq!(v.to_string(), "1.2.3-alpha.7+001");
}

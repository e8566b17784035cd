//! Changelog construction: tag boundaries, grouping, ordering, dates and
//! comparison links.

use gitt::changelog::build_releases;
use gitt::config::Config;
use gitt::git::{GitCommit, GitTag};

fn commit(id: &str, message: &str) -> GitCommit {
    GitCommit {
        id: id.to_string(),
        timestamp: "2024-05-01T10:00:00+00:00".to_string(),
        author: "ada".to_string(),
        message: message.to_string(),
    }
}

fn tag(name: &str, commit_hash: &str, date: &str) -> GitTag {
    GitTag {
        tag: name.to_string(),
        hash: format!("tagobj-{}", name),
        commit_hash: commit_hash.to_string(),
        date: date.to_string(),
        message: None,
    }
}

const ORIGIN: &str = "https://example.org/repo";

#[test]
fn one_pending_release_with_grouped_commits() {
    // newest first: a fix, then a feat
    let commits = vec![
        commit("c2aaaaa", "fix: mend the latch"),
        commit("c1bbbbb", "feat: add the latch"),
    ];
    let releases = build_releases(&commits, &vec![], &Config::default(), "0.2.0", "2024-05-02", ORIGIN);
    assert_eq!(releases.len(), 1);
    let r = &releases[0];
    assert_eq!(r.version, "0.2.0");
    assert_eq!(r.date, "2024-05-02");
    assert_eq!(r.history_url, "");
    // groups follow the configured section order: feat before fix
    assert_eq!(r.groups.len(), 2);
    assert_eq!(r.groups[0].key, "feat");
    assert_eq!(r.groups[0].title, "New features");
    assert_eq!(r.groups[1].key, "fix");
    assert_eq!(r.groups[1].title, "Bug fixes");
    // subjects display with an uppercase first letter and a commit link
    assert_eq!(r.groups[0].commits[0].subject, "Add the latch");
    assert_eq!(
        r.groups[0].commits[0].commit_link,
        "[#c1bbb](https://example.org/repo/commit/c1bbbbb)"
    );
}

#[test]
fn a_tagged_commit_opens_its_release() {
    // newest first: one unreleased fix, then the tagged release commit,
    // then an older feat that belongs to the tagged release
    let commits = vec![
        commit("c3", "fix: newest unreleased"),
        commit("c2", "fix: released fix"),
        commit("c1", "feat: released feature"),
    ];
    let tags = vec![tag("1.0.0", "c2", "2024-04-30T23:30:00-05:00")];
    let releases = build_releases(&commits, &tags, &Config::default(), "1.0.1", "2024-05-02", ORIGIN);
    assert_eq!(releases.len(), 2);
    assert_eq!(releases[0].version, "1.0.1");
    assert_eq!(releases[0].groups.len(), 1);
    assert_eq!(releases[0].groups[0].commits.len(), 1);
    // the tag date converts to its UTC day: -05:00 pushes it to May 1st
    assert_eq!(releases[1].version, "1.0.0");
    assert_eq!(releases[1].date, "2024-05-01");
    // the tagged commit and the older one both land in the tagged release
    assert_eq!(releases[1].groups.len(), 2);
    assert_eq!(releases[1].groups[0].key, "feat");
    assert_eq!(releases[1].groups[1].key, "fix");
    // neighbouring releases are linked
    assert_eq!(
        releases[0].history_url,
        "https://example.org/repo/compare/1.0.0...1.0.1"
    );
    assert_eq!(releases[1].history_url, "");
}

#[test]
fn unconventional_commit_goes_to_uncategorized() {
    let commits = vec![
        commit("c2", "oops forgot format\nsecond line"),
        commit("c1", "feat: fine"),
    ];
    let releases = build_releases(&commits, &vec![], &Config::default(), "0.1.0", "2024-05-02", ORIGIN);
    assert_eq!(releases.len(), 1);
    let r = &releases[0];
    // uncategorized sorts after every configured section
    assert_eq!(r.groups.len(), 2);
    assert_eq!(r.groups[0].key, "feat");
    assert_eq!(r.groups[1].key, "uncategorized");
    assert_eq!(r.groups[1].title, "Uncategorized");
    assert_eq!(r.groups[1].commits[0].subject, "oops forgot format");
    assert_eq!(r.groups[1].commits[0].commit_link, "");
}

#[test]
fn excluded_types_are_dropped_from_the_changelog() {
    let mut config = Config::default();
    // keep only feat in the changelog
    config.changelog.types = vec![("feat".to_string(), "New features".to_string())];
    let commits = vec![
        commit("c2", "fix: hidden"),
        commit("c1", "feat: shown"),
    ];
    let releases = build_releases(&commits, &vec![], &config, "0.1.0", "2024-05-02", ORIGIN);
    assert_eq!(releases[0].groups.len(), 1);
    assert_eq!(releases[0].groups[0].key, "feat");
}

#[test]
fn unparseable_tag_is_no_boundary() {
    let commits = vec![commit("c1", "fix: work")];
    let tags = vec![tag("nightly", "c1", "2024-04-30T10:00:00+00:00")];
    let releases = build_releases(&commits, &tags, &Config::default(), "0.1.1", "2024-05-02", ORIGIN);
    assert_eq!(releases.len(), 1);
}

#[test]
fn raw_date_is_kept_when_not_a_timestamp() {
    let commits = vec![commit("c1", "fix: work")];
    let tags = vec![tag("1.0.0", "c1", "sometime in spring")];
    let releases = build_releases(&commits, &tags, &Config::default(), "1.0.1", "2024-05-02", ORIGIN);
    assert_eq!(releases[1].date, "sometime in spring");
}

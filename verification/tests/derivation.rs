//! Version derivation: classification, increments, and failure on an
//! empty history.

use gitt::config::Config;
use gitt::error::DeriveError;
use gitt::git::GitCommit;
use gitt::version::{bump_repo_version, Version};

fn commit(message: &str) -> GitCommit {
    GitCommit {
        id: "abc123def".to_string(),
        timestamp: "2024-05-01T10:00:00+00:00".to_string(),
        author: "ada".to_string(),
        message: message.to_string(),
    }
}

#[test]
fn empty_history_fails_with_no_commits() {
    let commits: Vec<GitCommit> = vec![];
    let curr = Some(Version::new(1, 2, 3));
    let r = bump_repo_version(&commits, &curr, &Config::default());
    assert_eq!(r, Err(DeriveError::NoCommits));
}

#[test]
fn no_prior_version_yields_0_0_1() {
    let commits = vec![commit("feat!: breaking feature\n\nBREAKING CHANGE: all of it")];
    let r = bump_repo_version(&commits, &None, &Config::default()).unwrap();
    let (next, prior) = r;
    assert_eq!(next.to_string(), "0.0.1");
    assert!(prior.is_none());
}

#[test]
fn no_prior_version_yields_0_0_1_for_plain_commits() {
    let commits = vec![commit("chore: tidy")];
    let (next, _) = bump_repo_version(&commits, &None, &Config::default()).unwrap();
    assert_eq!(next.to_string(), "0.0.1");
}

#[test]
fn pre_one_minor_trigger_bumps_patch_only() {
    // curr = 0.3.0 and a feat commit: next is 0.3.1, not 0.4.0
    let commits = vec![commit("feat: new endpoint")];
    let curr = Some(Version::new(0, 3, 0));
    let (next, prior) = bump_repo_version(&commits, &curr, &Config::default()).unwrap();
    assert_eq!(next.to_string(), "0.3.1");
    assert_eq!(prior.unwrap().to_string(), "0.3.0");
}

#[test]
fn pre_one_breaking_bumps_minor() {
    let commits = vec![commit("feat!: new endpoint")];
    let curr = Some(Version::new(0, 3, 0));
    let (next, _) = bump_repo_version(&commits, &curr, &Config::default()).unwrap();
    assert_eq!(next.to_string(), "0.4.0");
}

#[test]
fn post_one_breaking_bumps_major() {
    let commits = vec![commit("fix: small\n\nBREAKING CHANGE: removed api")];
    let curr = Some(Version::new(2, 5, 7));
    let (next, _) = bump_repo_version(&commits, &curr, &Config::default()).unwrap();
    assert_eq!(next.to_string(), "3.0.0");
}

#[test]
fn post_one_minor_trigger_bumps_minor() {
    let commits = vec![commit("feat: more"), commit("fix: less")];
    let curr = Some(Version::new(2, 5, 7));
    let (next, _) = bump_repo_version(&commits, &curr, &Config::default()).unwrap();
    assert_eq!(next.to_string(), "2.6.0");
}

#[test]
fn post_one_plain_commits_bump_patch() {
    let commits = vec![commit("fix: less"), commit("docs: words")];
    let curr = Some(Version::new(2, 5, 7));
    let (next, _) = bump_repo_version(&commits, &curr, &Config::default()).unwrap();
    assert_eq!(next.to_string(), "2.5.8");
}

#[test]
fn unconventional_commits_are_skipped_not_fatal() {
    let commits = vec![commit("oops forgot format"), commit("fix: real work")];
    let curr = Some(Version::new(1, 0, 0));
    let (next, _) = bump_repo_version(&commits, &curr, &Config::default()).unwrap();
    assert_eq!(next.to_string(), "1.0.1");
}

#[test]
fn prerelease_and_build_are_stripped() {
    let commits = vec![commit("fix: work")];
    let curr = Some(Version {
        major: 1,
        minor: 2,
        patch: 3,
        pre: "alpha.1".to_string(),
        build: "c0ffee".to_string(),
    });
    let (next, _) = bump_repo_version(&commits, &curr, &Config::default()).unwrap();
    assert_eq!(next.to_string(), "1.2.4");
}

#[test]
fn derivation_is_idempotent() {
    let commits = vec![commit("feat: more"), commit("oops"), commit("fix!: gone")];
    let curr = Some(Version::new(1, 4, 2));
    let a = bump_repo_version(&commits, &curr, &Config::default()).unwrap();
    let b = bump_repo_version(&commits, &curr, &Config::default()).unwrap();
    assert_eq!(a.0.to_string(), b.0.to_string());
    assert_eq!(a.1.unwrap().to_string(), b.1.unwrap().to_string());
}

//! Testing of conventional commits parsing

use gitt::config::Config;
use gitt::conventional::ConventionalCommitMessage;

fn types() -> Vec<String> {
    Config::default().valid_types()
}

#[test]
fn oneliner_simple() {
    let msg = "fix: commit subject";

    let commit = ConventionalCommitMessage::parse(&msg, &types()).unwrap();

    assert_eq!(
        commit,
        ConventionalCommitMessage {
            commit_type: "fix".to_string(),
            scope: None,
            subject: "commit subject".to_string(),
            body: None,
            breaking_change: None,
            closed_issues: None
        }
    )
}

#[test]
fn oneliner_scope() {
    let msg = "fix(myscope): commit subject";

    let commit = ConventionalCommitMessage::parse(&msg, &types()).unwrap();

    assert_eq!(
        commit,
        ConventionalCommitMessage {
            commit_type: "fix".to_string(),
            scope: Some("myscope".to_string()),
            subject: "commit subject".to_string(),
            body: None,
            breaking_change: None,
            closed_issues: None
        }
    )
}

#[test]
fn oneliner_breaking() {
    let msg = "fix!: commit subject";

    let commit = ConventionalCommitMessage::parse(&msg, &types()).unwrap();

    assert_eq!(
        commit,
        ConventionalCommitMessage {
            commit_type: "fix".to_string(),
            scope: None,
            subject: "commit subject".to_string(),
            body: None,
            breaking_change: Some("".to_string()),
            closed_issues: None
        }
    )
}

#[test]
fn oneliner_scope_breaking() {
    let msg = "fix(myscope)!: commit subject";

    let commit = ConventionalCommitMessage::parse(&msg, &types()).unwrap();

    assert_eq!(
        commit,
        ConventionalCommitMessage {
            commit_type: "fix".to_string(),
            scope: Some("myscope".to_string()),
            subject: "commit subject".to_string(),
            body: None,
            breaking_change: Some("".to_string()),
            closed_issues: None
        }
    )
}

#[test]
fn body_simple() {
    let msg = "fix: commit subject\n\ncommit body";

    let commit = ConventionalCommitMessage::parse(&msg, &types()).unwrap();

    assert_eq!(
        commit,
        ConventionalCommitMessage {
            commit_type: "fix".to_string(),
            scope: None,
            subject: "commit subject".to_string(),
            body: Some("commit body".to_string()),
            breaking_change: None,
            closed_issues: None
        }
    )
}

#[test]
fn body_multiline_simple() {
    let msg = "fix: commit subject\n\ncommit body\ncommit body line 2";

    let commit = ConventionalCommitMessage::parse(&msg, &types()).unwrap();

    assert_eq!(
        commit,
        ConventionalCommitMessage {
            commit_type: "fix".to_string(),
            scope: None,
            subject: "commit subject".to_string(),
            body: Some("commit body\ncommit body line 2".to_string()),
            breaking_change: None,
            closed_issues: None
        }
    )
}

#[test]
fn body_multiline_breaking_change_no_issues() {
    let msg = "fix: commit subject\n\ncommit body\ncommit body line 2\n\nBREAKING CHANGE: this is a breaking change\non several line";

    let commit = ConventionalCommitMessage::parse(&msg, &types()).unwrap();

    assert_eq!(
        commit,
        ConventionalCommitMessage {
            commit_type: "fix".to_string(),
            scope: None,
            subject: "commit subject".to_string(),
            body: Some("commit body\ncommit body line 2".to_string()),
            breaking_change: Some("this is a breaking change\non several line".to_string()),
            closed_issues: None
        }
    )
}

#[test]
fn body_multiline_breaking_change_issues() {
    let msg = "fix: commit subject\n\ncommit body\ncommit body line 2\n\nBREAKING CHANGE: this is a breaking change\non several line\nCloses #1";

    let commit = ConventionalCommitMessage::parse(&msg, &types()).unwrap();

    assert_eq!(
        commit,
        ConventionalCommitMessage {
            commit_type: "fix".to_string(),
            scope: None,
            subject: "commit subject".to_string(),
            body: Some("commit body\ncommit body line 2".to_string()),
            breaking_change: Some("this is a breaking change\non several line".to_string()),
            closed_issues: Some(vec![1])
        }
    )
}

#[test]
fn body_multiline_issues() {
    let msg = "fix: commit subject\n\ncommit body\ncommit body line 2\n\nCloses #1";

    let commit = ConventionalCommitMessage::parse(&msg, &types()).unwrap();

    assert_eq!(
        commit,
        ConventionalCommitMessage {
            commit_type: "fix".to_string(),
            scope: None,
            subject: "commit subject".to_string(),
            body: Some("commit body\ncommit body line 2".to_string()),
            breaking_change: None,
            closed_issues: Some(vec![1])
        }
    )
}

#[test]
fn body_multiline_issues_2() {
    let msg = "fix: commit subject\n\ncommit body\ncommit body line 2\n\nCloses #1\nCloses #2";

    let commit = ConventionalCommitMessage::parse(&msg, &types()).unwrap();

    assert_eq!(
        commit,
        ConventionalCommitMessage {
            commit_type: "fix".to_string(),
            scope: None,
            subject: "commit subject".to_string(),
            body: Some("commit body\ncommit body line 2".to_string()),
            breaking_change: None,
            closed_issues: Some(vec![1, 2])
        }
    )
}

//! Testing of conventional commits formatting

use gitt::conventional::ConventionalCommitMessage;

#[test]
fn oneliner_no_scope() {
    let commit = ConventionalCommitMessage {
        commit_type: "fix".to_string(),
        scope: None,
        subject: "commit subject".to_string(),
        body: None,
        breaking_change: None,
        closed_issues: None,
    };

    let msg = "fix: commit subject";

    assert_eq!(commit.to_string(), msg);
}

#[test]
fn conventional_fmt_oneliner_scope() {
    let commit = ConventionalCommitMessage {
        commit_type: "fix".to_string(),
        scope: Some("myscope".to_string()),
        subject: "commit subject".to_string(),
        body: None,
        breaking_change: None,
        closed_issues: None,
    };

    let msg = "fix(myscope): commit subject";

    assert_eq!(commit.to_string(), msg);
}

#[test]
fn oneliner_scope_breaking_change() {
    let commit = ConventionalCommitMessage {
        commit_type: "fix".to_string(),
        scope: Some("myscope".to_string()),
        subject: "commit subject".to_string(),
        body: None,
        breaking_change: Some("breaking change".to_string()),
        closed_issues: None,
    };

    let msg = "fix(myscope)!: commit subject\n\nBREAKING CHANGE: breaking change";

    assert_eq!(commit.to_string(), msg);
}

#[test]
fn body() {
    let commit = ConventionalCommitMessage {
        commit_type: "fix".to_string(),
        scope: Some("myscope".to_string()),
        subject: "commit subject".to_string(),
        body: Some("Commit body\nAnother body line".to_string()),
        breaking_change: None,
        closed_issues: None,
    };

    let msg = "fix(myscope): commit subject\n\nCommit body\nAnother body line";

    assert_eq!(commit.to_string(), msg);
}

#[test]
fn body_with_issues() {
    let commit = ConventionalCommitMessage {
        commit_type: "fix".to_string(),
        scope: Some("myscope".to_string()),
        subject: "commit subject".to_string(),
        body: Some("Commit body\nAnother body line".to_string()),
        breaking_change: None,
        closed_issues: Some(vec![1, 2]),
    };

    let msg = "fix(myscope): commit subject\n\nCommit body\nAnother body line\n\nCloses #1\nCloses #2";

    assert_eq!(commit.to_string(), msg);
}

#[test]
fn body_with_change_and_issues() {
    let commit = ConventionalCommitMessage {
        commit_type: "fix".to_string(),
        scope: Some("myscope".to_string()),
        subject: "commit subject".to_string(),
        body: Some("Commit body\nAnother body line".to_string()),
        breaking_change: Some("A breaking change".to_string()),
        closed_issues: Some(vec![1, 2]),
    };

    let msg = "fix(myscope)!: commit subject\n\nCommit body\nAnother body line\n\nBREAKING CHANGE: A breaking change\nCloses #1\nCloses #2";

    assert_eq!(commit.to_string(), msg);
}

use gitt::commit::ConventionalCommit;
use gitt::config::Config;

#[test]
fn simple() {
    let msg = "fix: commit description\n";

    ConventionalCommit::parse(&msg, &Config::default()).unwrap();
}

#[test]
fn with_scope() {
    let msg = "fix(myscope): commit description\n";

    ConventionalCommit::parse(&msg, &Config::default()).unwrap();
}

#[test]
fn with_breaking_change() {
    let msg = "fix!: commit description\n";

    ConventionalCommit::parse(&msg, &Config::default()).unwrap();
}

#[test]
fn with_scope_breaking() {
    let msg = "fix(myscope)!: commit description\n";

    ConventionalCommit::parse(&msg, &Config::default()).unwrap();
}

#[test]
#[should_panic]
fn missing_description() {
    let msg = "fix\n";

    ConventionalCommit::parse(&msg, &Config::default()).unwrap();
}

#[test]
fn empty_scope() {
    let msg = "fix(): description\n";

    ConventionalCommit::parse(&msg, &Config::default()).unwrap();
}

#[test]
#[should_panic]
fn no_empty_after_scope() {
    let msg = "fix(myscope)err_here: description\n";

    ConventionalCommit::parse(&msg, &Config::default()).unwrap();
}

#[test]
fn draft_text_of_a_minimal_commit() {
    let commit = ConventionalCommit {
        commit_type: "fix".to_string(),
        scope: None,
        description: "commit subject".to_string(),
        body: None,
        breaking_change: None,
    };
    assert_eq!(commit.to_string(), "fix: commit subject\n\n\n");
}

#[test]
fn draft_text_with_scope_body_and_breaking_change() {
    let commit = ConventionalCommit {
        commit_type: "feat".to_string(),
        scope: Some("api".to_string()),
        description: "add endpoint".to_string(),
        body: Some("some body".to_string()),
        breaking_change: Some("removed the old one".to_string()),
    };
    assert_eq!(
        commit.to_string(),
        "feat(api): add endpoint\n\nsome body\n\nBREAKING CHANGE: removed the old one\n"
    );
}

#[test]
fn a_composed_commit_passes_the_lint() {
    let commit = ConventionalCommit {
        commit_type: "fix".to_string(),
        scope: Some("core".to_string()),
        description: "mend the latch".to_string(),
        body: Some("a body line".to_string()),
        breaking_change: None,
    };
    let msg = commit.to_string();
    let parsed = ConventionalCommit::parse(&msg, &Config::default()).unwrap();
    assert_eq!(parsed.commit_type, "fix");
    assert_eq!(parsed.scope, Some("core".to_string()));
    assert_eq!(parsed.description, "mend the latch");
    assert_eq!(parsed.body, Some("a body line".to_string()));
}

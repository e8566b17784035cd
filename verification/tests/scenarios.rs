//! End-to-end scenarios over the parser and its error taxonomy.

use gitt::config::Config;
use gitt::conventional::ConventionalCommitMessage;
use gitt::error::ParseError;

fn types() -> Vec<String> {
    Config::default().valid_types()
}

fn parse(s: &str) -> Result<ConventionalCommitMessage, ParseError> {
    ConventionalCommitMessage::parse(s, &types())
}

#[test]
fn full_message_parses_to_the_expected_record() {
    let msg = "feat(api)!: add endpoint\n\nadds a new endpoint\n\nBREAKING CHANGE: removes old endpoint\nCloses #12";
    let commit = parse(msg).unwrap();
    assert_eq!(
        commit,
        ConventionalCommitMessage {
            commit_type: "feat".to_string(),
            scope: Some("api".to_string()),
            subject: "add endpoint".to_string(),
            body: Some("adds a new endpoint".to_string()),
            breaking_change: Some("removes old endpoint".to_string()),
            closed_issues: Some(vec![12]),
        }
    );
}

#[test]
fn missing_colon_fails_with_missing_separator() {
    assert_eq!(parse("oops forgot format"), Err(ParseError::MissingSeparator));
}

#[test]
fn junk_after_scope_fails_with_malformed_prefix() {
    assert_eq!(
        parse("fix(myscope)err_here: description"),
        Err(ParseError::MalformedPrefix)
    );
}

#[test]
fn unknown_type_is_rejected() {
    assert_eq!(parse("zzz: what"), Err(ParseError::UnknownType));
}

#[test]
fn uppercase_scope_is_rejected() {
    assert_eq!(parse("fix(Myscope): a subject"), Err(ParseError::InvalidScopeCase));
}

#[test]
fn uppercase_subject_is_rejected() {
    assert_eq!(parse("fix: Subject"), Err(ParseError::InvalidSubjectCase));
}

#[test]
fn empty_subject_is_rejected() {
    assert_eq!(parse("fix: "), Err(ParseError::InvalidSubjectCase));
}

#[test]
fn body_needs_a_separating_empty_line() {
    assert_eq!(parse("fix: a subject\nbody right away"), Err(ParseError::MissingBodySeparator));
}

#[test]
fn footer_needs_a_separating_empty_line() {
    assert_eq!(
        parse("fix: a subject\n\nbody\nBREAKING CHANGE: x"),
        Err(ParseError::MissingFooterSeparator)
    );
    assert_eq!(
        parse("fix: a subject\n\nbody\nCloses #3"),
        Err(ParseError::MissingFooterSeparator)
    );
}

#[test]
fn second_breaking_change_footer_is_rejected() {
    assert_eq!(
        parse("fix: a subject\n\nBREAKING CHANGE: x\nBREAKING CHANGE: y"),
        Err(ParseError::DuplicateBreakingChange)
    );
}

#[test]
fn bad_issue_number_is_rejected() {
    assert_eq!(
        parse("fix: a subject\n\nCloses #twelve"),
        Err(ParseError::InvalidIssueNumber)
    );
    assert_eq!(
        parse("fix: a subject\n\nCloses #99999999999999999999"),
        Err(ParseError::InvalidIssueNumber)
    );
}

#[test]
fn prose_after_the_issue_footer_is_rejected() {
    assert_eq!(
        parse("fix: a subject\n\nCloses #1\nand more prose"),
        Err(ParseError::UnexpectedLine)
    );
}

#[test]
fn empty_input_fails_with_missing_separator() {
    assert_eq!(parse(""), Err(ParseError::MissingSeparator));
}

#[test]
fn breaking_marker_with_footer_text_keeps_the_footer_text() {
    let commit = parse("feat!: change\n\nBREAKING CHANGE: the whole api").unwrap();
    assert_eq!(commit.breaking_change, Some("the whole api".to_string()));
}

#[test]
fn breaking_marker_alone_keeps_an_empty_note() {
    let commit = parse("feat!: change").unwrap();
    assert_eq!(commit.breaking_change, Some("".to_string()));
}

#[test]
fn round_trip_of_a_full_record() {
    let commit = ConventionalCommitMessage {
        commit_type: "feat".to_string(),
        scope: Some("api".to_string()),
        subject: "add endpoint".to_string(),
        body: Some("adds a new endpoint\nwith two lines".to_string()),
        breaking_change: Some("removes old endpoint\nsecond line".to_string()),
        closed_issues: Some(vec![12, 7, 12]),
    };
    let text = commit.to_string();
    let back = parse(&text).unwrap();
    assert_eq!(back, commit);
}

#[test]
fn round_trip_of_a_minimal_record() {
    let commit = ConventionalCommitMessage {
        commit_type: "chore".to_string(),
        scope: None,
        subject: "tidy".to_string(),
        body: None,
        breaking_change: None,
        closed_issues: None,
    };
    assert_eq!(parse(&commit.to_string()).unwrap(), commit);
}

//! Parsing of the text the git collaborators hand over.

use gitt::git::{assemble_tags, parse_git_log};
use gitt::utils::StringExt;

#[test]
fn log_output_parses_into_commits() {
    let out = "hash:aaa111\nts:2024-05-01T10:00:00+00:00\nauthor:Ada\nmessage:feat: add endpoint\n\nwith a body\n----------\nhash:bbb222\nts:2024-04-01T10:00:00+00:00\nauthor:Grace\nmessage:fix: mend it\n----------\n";
    let commits = parse_git_log(out);
    assert_eq!(commits.len(), 2);
    assert_eq!(commits[0].id, "aaa111");
    assert_eq!(commits[0].timestamp, "2024-05-01T10:00:00+00:00");
    assert_eq!(commits[0].author, "Ada");
    assert_eq!(commits[0].message, "feat: add endpoint\n\nwith a body");
    assert_eq!(commits[1].id, "bbb222");
    assert_eq!(commits[1].message, "fix: mend it");
}

#[test]
fn tag_output_assembles_with_annotated_dereference() {
    let tag_list = "1.0.0|2024-01-01T10:00:00+00:00|tagobj111\n1.1.0|2024-02-01T10:00:00+00:00|commit222\n";
    // the annotated tag 1.0.0 dereferences to its commit; 1.1.0 is
    // lightweight and keeps its own hash
    let show_ref = "commit111 refs/tags/1.0.0^{}\nother refs/tags/1.1.0\n";
    let tags = assemble_tags(tag_list, show_ref);
    assert_eq!(tags.len(), 2);
    assert_eq!(tags[0].tag, "1.0.0");
    assert_eq!(tags[0].hash, "tagobj111");
    assert_eq!(tags[0].commit_hash, "commit111");
    assert_eq!(tags[0].date, "2024-01-01T10:00:00+00:00");
    assert_eq!(tags[1].commit_hash, "commit222");
}

#[test]
fn malformed_tag_lines_are_skipped() {
    let tags = assemble_tags("no separators here\n1.0.0|2024-01-01T10:00:00+00:00|h1\n", "");
    assert_eq!(tags.len(), 1);
    assert_eq!(tags[0].tag, "1.0.0");
}

#[test]
fn string_case_helpers() {
    assert!("fix".is_lowercase());
    assert!(!"Fix".is_lowercase());
    assert!("fix".starts_with_lowercase());
    assert!(!"Fix".starts_with_lowercase());
    assert!(!"".starts_with_lowercase());
    assert_eq!("Hello there".to_lowercase_first(), "hello there");
}

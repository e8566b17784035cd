//! The conventional commit a user composes interactively: like a parsed
//! message, but with a free description and no issue list.

use vstd::prelude::*;

use crate::config::Config;
use crate::conventional::{parse_msg, ConventionalCommitMessage, MsgView};
use crate::error::ParseError;
use vstd::string::StringExecFns;

verus! {

/// A conventional commit under composition.
pub struct ConventionalCommit {
    /// Commit type.
    pub commit_type: String,
    /// Commit scope.
    pub scope: Option<String>,
    /// Commit description.
    pub description: String,
    /// Commit body.
    pub body: Option<String>,
    /// Breaking change.
    pub breaking_change: Option<String>,
}

/// The view of a commit under composition.
#[verifier::ext_equal]
pub ghost struct CommitV {
    pub commit_type: Seq<char>,
    pub scope: Option<Seq<char>>,
    pub description: Seq<char>,
    pub body: Option<Seq<char>>,
    pub breaking_change: Option<Seq<char>>,
}

impl View for ConventionalCommit {
    type V = CommitV;

    open spec fn view(&self) -> CommitV {
        CommitV {
            commit_type: self.commit_type@,
            scope: match self.scope {
                Some(s) => Some(s@),
                None => None,
            },
            description: self.description@,
            body: match self.body {
                Some(s) => Some(s@),
                None => None,
            },
            breaking_change: match self.breaking_change {
                Some(s) => Some(s@),
                None => None,
            },
        }
    }
}

/// The draft rendering of a commit under composition:
/// `type(scope)?: description`, the body and the breaking-change footer
/// each led in by one empty line, and a final line feed.
pub open spec fn draft_text(c: CommitV) -> Seq<char> {
    c.commit_type + (match c.scope {
        Some(sc) => seq!['('] + sc + seq![')'],
        None => Seq::empty(),
    }) + seq![':', ' '] + c.description + seq!['\n'] + (match c.body {
        Some(b) => seq!['\n'] + b,
        None => Seq::empty(),
    }) + seq!['\n'] + (match c.breaking_change {
        Some(t) => seq!['\n'] + "BREAKING CHANGE: "@ + t,
        None => Seq::empty(),
    }) + seq!['\n']
}

impl ConventionalCommit {
    /// The draft text of the commit.
    pub fn to_string(&self) -> (r: String)
        ensures
            r@ == draft_text(self@),
    {
        proof {
            reveal_strlit("(");
            reveal_strlit(")");
            reveal_strlit(": ");
            reveal_strlit("\n");
            reveal_strlit("\n\n");
            reveal_strlit("\nBREAKING CHANGE: ");
            reveal_strlit("BREAKING CHANGE: ");
        }
        let mut r = String::new();
        r.append(self.commit_type.as_str());
        match &self.scope {
            Some(sc) => {
                r.append("(");
                r.append(sc.as_str());
                r.append(")");
            },
            None => {},
        }
        r.append(": ");
        r.append(self.description.as_str());
        r.append("\n");
        match &self.body {
            Some(b) => {
                r.append("\n");
                r.append(b.as_str());
            },
            None => {},
        }
        r.append("\n");
        match &self.breaking_change {
            Some(t) => {
                r.append("\n");
                r.append("BREAKING CHANGE: ");
                r.append(t.as_str());
            },
            None => {},
        }
        r.append("\n");
        proof {
            assert(r@ =~= draft_text(self@));
        }
        r
    }

    /// Parses a commit message against the configured commit types; the
    /// issue list of the message is not kept.
    pub fn parse(s: &str, cfg: &Config) -> (r: Result<Self, ParseError>)
        ensures
            (match r {
                Ok(c) => parse_msg(s@, crate::config::keys_view(cfg.commit.types@)) matches Ok(m)
                    && c@ == commit_of_msg(m),
                Err(e) => parse_msg(s@, crate::config::keys_view(cfg.commit.types@))
                    == Err::<MsgView, ParseError>(e),
            }),
    {
        let valid = cfg.valid_types();
        let valid_slice = valid.as_slice();
        proof {
            assert(valid_slice.deep_view() =~~= crate::config::strings_view(valid@));
        }
        match ConventionalCommitMessage::parse(s, valid_slice) {
            Ok(m) => Ok(
                ConventionalCommit {
                    commit_type: m.commit_type,
                    scope: m.scope,
                    description: m.subject,
                    body: m.body,
                    breaking_change: m.breaking_change,
                },
            ),
            Err(e) => Err(e),
        }
    }
}

/// The commit a parsed message reduces to.
pub open spec fn commit_of_msg(m: MsgView) -> CommitV {
    CommitV {
        commit_type: m.commit_type,
        scope: m.scope,
        description: m.subject,
        body: m.body,
        breaking_change: m.breaking_change,
    }
}

} // verus!

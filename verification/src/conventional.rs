//! Conventional commit messages: parsing and canonical formatting.
//!
//! A message is parsed in one forward pass over its lines. The first line
//! carries the `type(scope)?!?: subject` prefix; the remaining lines run
//! through a section machine (after-subject separator, body, breaking-change
//! footer, closed-issue footer).

use vstd::prelude::*;

use crate::error::ParseError;
use crate::text::{
    all_digits, char_is_lowercase, chars_to_string, dec_str, digits_val, eq_chars, find_char,
    find_char_in, has_prefix, is_lowercase_char, is_space, is_space_char, is_word_char,
    join_chars, join_lines, join_tail, lemma_dec_str_val, lemma_find_char, lemma_join_head_tail, lemma_join_split_lines, lemma_join_tail_concat,
    lemma_join_tail_rel, lemma_join_tail_single, lemma_prefix_concat, lemma_prefix_first, lemma_split_join_lines,
    lemma_split_lines_clean, lemma_trim_space_prefix, lemma_trim_stable, parse_u32_from,
    split_lines, split_to_lines, starts_with_chars, str_chars, sub_chars, trim,
    trim_chars, u32_to_dec, word_char, clean_line,
};
use vstd::string::StringExecFns;

verus! {

/// The `BREAKING CHANGE:` footer marker.
pub open spec fn bc_marker() -> Seq<char> {
    "BREAKING CHANGE:"@
}

/// The `Closes #` footer marker.
pub open spec fn closes_marker() -> Seq<char> {
    "Closes #"@
}

/// The characters of the two footer markers, spelled out.
pub proof fn lemma_markers()
    ensures
        bc_marker() =~= seq![
            'B', 'R', 'E', 'A', 'K', 'I', 'N', 'G', ' ', 'C', 'H', 'A', 'N', 'G', 'E', ':',
        ],
        closes_marker() =~= seq!['C', 'l', 'o', 's', 'e', 's', ' ', '#'],
{
    reveal_strlit("BREAKING CHANGE:");
    reveal_strlit("Closes #");
}

/// A scope may hold word characters and blanks.
pub open spec fn is_scope_char(c: char) -> bool {
    is_word_char(c) || is_space_char(c)
}

/// Length of the leading run of word characters.
pub open spec fn word_run(s: Seq<char>) -> nat
    decreases s.len(),
{
    if s.len() > 0 && is_word_char(s[0]) {
        1 + word_run(s.subrange(1, s.len() as int))
    } else {
        0
    }
}

pub proof fn lemma_word_run(s: Seq<char>)
    ensures
        word_run(s) <= s.len(),
        forall|j: int| 0 <= j < word_run(s) ==> is_word_char(s[j]),
        word_run(s) < s.len() ==> !is_word_char(s[word_run(s) as int]),
    decreases s.len(),
{
    if s.len() > 0 && is_word_char(s[0]) {
        let t = s.subrange(1, s.len() as int);
        lemma_word_run(t);
        assert forall|j: int| 0 <= j < word_run(s) implies is_word_char(s[j]) by {
            if j > 0 {
                assert(t[j - 1] == s[j]);
            }
        }
    }
}

pub proof fn lemma_word_run_at(s: Seq<char>, k: int)
    requires
        0 <= k <= s.len(),
        forall|j: int| 0 <= j < k ==> is_word_char(s[j]),
        k < s.len() ==> !is_word_char(s[k]),
    ensures
        word_run(s) == k,
    decreases k,
{
    if k == 0 {
    } else {
        let t = s.subrange(1, s.len() as int);
        assert forall|j: int| 0 <= j < k - 1 implies is_word_char(t[j]) by {
            assert(t[j] == s[j + 1]);
        }
        if k - 1 < t.len() {
            assert(t[k - 1] == s[k]);
        }
        lemma_word_run_at(t, k - 1);
    }
}

/// The prefix grammar `type(scope)?!?`: the commit type, the raw scope
/// text between the parentheses if a scope segment is present, and whether
/// the breaking marker `!` stands before the colon. `None` when the prefix
/// does not match the grammar.
pub open spec fn prefix_parse(p: Seq<char>) -> Option<(Seq<char>, Option<Seq<char>>, bool)> {
    let te = word_run(p) as int;
    if te == 0 {
        None
    } else {
        let typ = p.subrange(0, te);
        if te == p.len() {
            Some((typ, None, false))
        } else if p[te] == '!' {
            if te + 1 == p.len() {
                Some((typ, None, true))
            } else {
                None
            }
        } else if p[te] == '(' {
            let rest = p.subrange(te + 1, p.len() as int);
            let ci = find_char(rest, ')') as int;
            if ci >= rest.len() {
                None
            } else {
                let content = rest.subrange(0, ci);
                let after = te + 1 + ci + 1;
                if exists|j: int| 0 <= j < content.len() && !is_scope_char(#[trigger] content[j]) {
                    None
                } else if after == p.len() {
                    Some((typ, Some(content), false))
                } else if p[after] == '!' && after + 1 == p.len() {
                    Some((typ, Some(content), true))
                } else {
                    None
                }
            }
        } else {
            None
        }
    }
}

/// Whether `x` is one of the valid commit types.
pub open spec fn seq_contains_str(types: Seq<Seq<char>>, x: Seq<char>) -> bool {
    exists|i: int| 0 <= i < types.len() && types[i] == x
}

/// What the first line of a message yields.
pub ghost struct HeadView {
    pub commit_type: Seq<char>,
    pub scope: Option<Seq<char>>,
    pub subject: Seq<char>,
    pub bang: bool,
}

/// Parsing the first line: prefix up to the first `:`, then the subject.
pub open spec fn parse_first_line(line: Seq<char>, types: Seq<Seq<char>>) -> Result<
    HeadView,
    ParseError,
> {
    let ci = find_char(line, ':') as int;
    if ci >= line.len() {
        Err(ParseError::MissingSeparator)
    } else {
        let prefix = trim(line.subrange(0, ci));
        let subject = trim(line.subrange(ci + 1, line.len() as int));
        match prefix_parse(prefix) {
            None => Err(ParseError::MalformedPrefix),
            Some((typ, scope_src, bang)) => {
                let sc = match scope_src {
                    Some(c) => trim(c),
                    None => Seq::empty(),
                };
                if !seq_contains_str(types, typ) {
                    Err(ParseError::UnknownType)
                } else if sc.len() > 0 && !char_is_lowercase(sc[0]) {
                    Err(ParseError::InvalidScopeCase)
                } else if !(subject.len() > 0 && char_is_lowercase(subject[0])) {
                    Err(ParseError::InvalidSubjectCase)
                } else {
                    Ok(
                        HeadView {
                            commit_type: typ,
                            scope: if sc.len() > 0 {
                                Some(sc)
                            } else {
                                None
                            },
                            subject,
                            bang,
                        },
                    )
                }
            },
        }
    }
}

/// The sections of the line machine after the first line.
pub ghost enum Section {
    AfterSubject,
    Body,
    FooterBreaking,
    FooterIssue,
}

/// The accumulator of the line machine. A breaking-change footer has been
/// seen exactly when `breaking_lines` is non-empty.
pub ghost struct ParseState {
    pub section: Section,
    pub body_lines: Seq<Seq<char>>,
    pub breaking_lines: Seq<Seq<char>>,
    pub issues: Seq<u32>,
}

/// The initial accumulator: right after the subject line, nothing seen.
pub open spec fn init_state() -> ParseState {
    ParseState {
        section: Section::AfterSubject,
        body_lines: seq![],
        breaking_lines: seq![],
        issues: seq![],
    }
}

/// The breaking-change text on its footer line: after the marker, trimmed.
pub open spec fn bc_text(line: Seq<char>) -> Seq<char> {
    trim(line.subrange(bc_marker().len() as int, line.len() as int))
}

/// The issue number on a `Closes #` line: the rest of the line must be one
/// or more decimal digits whose value fits an unsigned 32-bit integer.
pub open spec fn issue_num(line: Seq<char>) -> Option<u32> {
    let rest = line.subrange(closes_marker().len() as int, line.len() as int);
    if rest.len() > 0 && all_digits(rest) && digits_val(rest) <= u32::MAX as nat {
        Some(digits_val(rest) as u32)
    } else {
        None
    }
}

/// One step of the line machine.
pub open spec fn parse_step(st: ParseState, line: Seq<char>) -> Result<ParseState, ParseError> {
    match st.section {
        Section::AfterSubject => {
            if line.len() == 0 {
                Ok(ParseState { section: Section::Body, ..st })
            } else {
                Err(ParseError::MissingBodySeparator)
            }
        },
        Section::Body => {
            if has_prefix(line, bc_marker()) {
                if st.body_lines.len() == 0 {
                    Ok(
                        ParseState {
                            section: Section::FooterBreaking,
                            breaking_lines: seq![bc_text(line)],
                            ..st
                        },
                    )
                } else if st.body_lines.last().len() == 0 {
                    Ok(
                        ParseState {
                            section: Section::FooterBreaking,
                            body_lines: st.body_lines.drop_last(),
                            breaking_lines: seq![bc_text(line)],
                            ..st
                        },
                    )
                } else {
                    Err(ParseError::MissingFooterSeparator)
                }
            } else if has_prefix(line, closes_marker()) {
                if st.body_lines.len() == 0 {
                    match issue_num(line) {
                        Some(n) => Ok(
                            ParseState {
                                section: Section::FooterIssue,
                                issues: st.issues.push(n),
                                ..st
                            },
                        ),
                        None => Err(ParseError::InvalidIssueNumber),
                    }
                } else if st.body_lines.last().len() == 0 {
                    match issue_num(line) {
                        Some(n) => Ok(
                            ParseState {
                                section: Section::FooterIssue,
                                body_lines: st.body_lines.drop_last(),
                                issues: st.issues.push(n),
                                ..st
                            },
                        ),
                        None => Err(ParseError::InvalidIssueNumber),
                    }
                } else {
                    Err(ParseError::MissingFooterSeparator)
                }
            } else {
                Ok(ParseState { body_lines: st.body_lines.push(line), ..st })
            }
        },
        Section::FooterBreaking => {
            if has_prefix(line, bc_marker()) {
                Err(ParseError::DuplicateBreakingChange)
            } else if has_prefix(line, closes_marker()) {
                match issue_num(line) {
                    Some(n) => Ok(
                        ParseState { section: Section::FooterIssue, issues: st.issues.push(n), ..st },
                    ),
                    None => Err(ParseError::InvalidIssueNumber),
                }
            } else {
                Ok(ParseState { breaking_lines: st.breaking_lines.push(line), ..st })
            }
        },
        Section::FooterIssue => {
            if has_prefix(line, closes_marker()) {
                match issue_num(line) {
                    Some(n) => Ok(ParseState { issues: st.issues.push(n), ..st }),
                    None => Err(ParseError::InvalidIssueNumber),
                }
            } else if has_prefix(line, bc_marker()) && st.breaking_lines.len() > 0 {
                Err(ParseError::DuplicateBreakingChange)
            } else {
                Err(ParseError::UnexpectedLine)
            }
        },
    }
}

/// The line machine run over a sequence of lines.
pub open spec fn parse_rest(lines: Seq<Seq<char>>, st: ParseState) -> Result<
    ParseState,
    ParseError,
>
    decreases lines.len(),
{
    if lines.len() == 0 {
        Ok(st)
    } else {
        match parse_step(st, lines[0]) {
            Ok(st2) => parse_rest(lines.subrange(1, lines.len() as int), st2),
            Err(e) => Err(e),
        }
    }
}

/// Lines with trailing empty lines removed: the synthetic separators that
/// blank lines left at the end of the body.
pub open spec fn drop_trailing_empty(ls: Seq<Seq<char>>) -> Seq<Seq<char>>
    decreases ls.len(),
{
    if ls.len() > 0 && ls.last().len() == 0 {
        drop_trailing_empty(ls.drop_last())
    } else {
        ls
    }
}

/// The view of a parsed message.
pub ghost struct MsgView {
    pub commit_type: Seq<char>,
    pub scope: Option<Seq<char>>,
    pub subject: Seq<char>,
    pub body: Option<Seq<char>>,
    pub breaking_change: Option<Seq<char>>,
    pub closed_issues: Option<Seq<u32>>,
}

/// The record a finished run of the line machine yields.
pub open spec fn finish_parse(head: HeadView, st: ParseState) -> MsgView {
    let bl = drop_trailing_empty(st.body_lines);
    MsgView {
        commit_type: head.commit_type,
        scope: head.scope,
        subject: head.subject,
        body: if bl.len() == 0 {
            None
        } else {
            Some(join_lines(bl))
        },
        breaking_change: if st.breaking_lines.len() > 0 {
            Some(join_lines(st.breaking_lines))
        } else if head.bang {
            Some(Seq::empty())
        } else {
            None
        },
        closed_issues: if st.issues.len() == 0 {
            None
        } else {
            Some(st.issues)
        },
    }
}

/// What parsing the whole message text yields.
pub open spec fn parse_msg(s: Seq<char>, types: Seq<Seq<char>>) -> Result<MsgView, ParseError> {
    let lines = split_lines(s);
    if lines.len() == 0 {
        Err(ParseError::MissingSeparator)
    } else {
        match parse_first_line(lines[0], types) {
            Err(e) => Err(e),
            Ok(head) => match parse_rest(lines.subrange(1, lines.len() as int), init_state()) {
                Err(e) => Err(e),
                Ok(st) => Ok(finish_parse(head, st)),
            },
        }
    }
}

/// The canonical first line: `type(scope)?!?: subject`.
pub open spec fn format_prefix(m: MsgView) -> Seq<char> {
    m.commit_type + (match m.scope {
        Some(sc) => seq!['('] + sc + seq![')'],
        None => Seq::empty(),
    }) + (if m.breaking_change is Some {
        seq!['!']
    } else {
        Seq::<char>::empty()
    }) + seq![':', ' '] + m.subject
}

/// The `Closes #` lines of the issue footer, each led in by a line feed.
pub open spec fn issues_str(issues: Seq<u32>) -> Seq<char>
    decreases issues.len(),
{
    if issues.len() == 0 {
        Seq::empty()
    } else {
        issues_str(issues.drop_last()) + seq!['\n'] + closes_marker() + dec_str(
            issues.last() as nat,
        )
    }
}

/// The canonical rendering of a message: prefix line; body after one empty
/// line; `BREAKING CHANGE:` footer after one empty line; one `Closes #`
/// line per issue, with an extra leading empty line only when no
/// breaking-change footer introduced the footer block.
pub open spec fn format_msg(m: MsgView) -> Seq<char> {
    format_prefix(m) + (match m.body {
        Some(b) => seq!['\n', '\n'] + b,
        None => Seq::empty(),
    }) + (match m.breaking_change {
        Some(t) => seq!['\n', '\n'] + bc_marker() + seq![' '] + t,
        None => Seq::empty(),
    }) + (match m.closed_issues {
        Some(issues) => if issues.len() > 0 {
            (if m.breaking_change is None {
                seq!['\n']
            } else {
                Seq::<char>::empty()
            }) + issues_str(issues)
        } else {
            Seq::empty()
        },
        None => Seq::empty(),
    })
}

/// A parsed conventional commit message.
#[derive(Debug, PartialEq, Default)]
pub struct ConventionalCommitMessage {
    /// Commit type.
    pub commit_type: String,
    /// Commit scope.
    pub scope: Option<String>,
    /// Commit subject.
    pub subject: String,
    /// Commit body.
    pub body: Option<String>,
    /// Breaking change description.
    pub breaking_change: Option<String>,
    /// Closed issues.
    pub closed_issues: Option<Vec<u32>>,
}

impl View for ConventionalCommitMessage {
    type V = MsgView;

    open spec fn view(&self) -> MsgView {
        MsgView {
            commit_type: self.commit_type@,
            scope: match self.scope {
                Some(s) => Some(s@),
                None => None,
            },
            subject: self.subject@,
            body: match self.body {
                Some(s) => Some(s@),
                None => None,
            },
            breaking_change: match self.breaking_change {
                Some(s) => Some(s@),
                None => None,
            },
            closed_issues: match self.closed_issues {
                Some(v) => Some(v@),
                None => None,
            },
        }
    }
}

/// What the first line yields, with its owned pieces.
struct Head {
    commit_type: Vec<char>,
    scope: Option<Vec<char>>,
    subject: Vec<char>,
    bang: bool,
}

impl Head {
    spec fn view_spec(&self) -> HeadView {
        HeadView {
            commit_type: self.commit_type@,
            scope: match self.scope {
                Some(sc) => Some(sc@),
                None => None,
            },
            subject: self.subject@,
            bang: self.bang,
        }
    }
}

/// Whether the characters of `x` spell one of the valid types.
fn contains_type(types: &[String], x: &Vec<char>) -> (r: bool)
    ensures
        r == seq_contains_str(types.deep_view(), x@),
{
    let mut j: usize = 0;
    while j < types.len()
        invariant
            j <= types@.len(),
            types.deep_view().len() == types@.len(),
            forall|k: int| 0 <= k < j ==> types.deep_view()[k] != x@,
        decreases types@.len() - j,
    {
        let tv = str_chars(types[j].as_str());
        proof {
            assert(types.deep_view()[j as int] == types@[j as int]@);
        }
        if eq_chars(&tv, x) {
            return true;
        }
        j = j + 1;
    }
    false
}

/// Parses the first line of a message.
#[verifier::loop_isolation(false)]
fn parse_head(line: &Vec<char>, valid_types: &[String]) -> (r: Result<Head, ParseError>)
    ensures
        match r {
            Ok(h) => parse_first_line(line@, valid_types.deep_view()) == Ok::<
                HeadView,
                ParseError,
            >(h.view_spec()),
            Err(e) => parse_first_line(line@, valid_types.deep_view()) == Err::<
                HeadView,
                ParseError,
            >(e),
        },
{
    let ci = find_char_in(line, ':');
    if ci == line.len() {
        return Err(ParseError::MissingSeparator);
    }
    let prefix = trim_chars(&sub_chars(line, 0, ci));
    let subject = trim_chars(&sub_chars(line, ci + 1, line.len()));
    let ghost pspec = trim(line@.subrange(0, ci as int));
    proof {
        assert(prefix@ == pspec);
        assert(subject@ == trim(line@.subrange(ci as int + 1, line@.len() as int)));
    }

    // prefix grammar: type(scope)?!?
    let mut te: usize = 0;
    while te < prefix.len() && word_char(prefix[te])
        invariant
            te <= prefix@.len(),
            forall|j: int| 0 <= j < te ==> is_word_char(prefix@[j]),
        decreases prefix@.len() - te,
    {
        te = te + 1;
    }
    proof {
        lemma_word_run_at(prefix@, te as int);
    }
    if te == 0 {
        return Err(ParseError::MalformedPrefix);
    }
    let typ = sub_chars(&prefix, 0, te);
    let mut scope_src: Option<Vec<char>> = None;
    let mut bang = false;
    if te == prefix.len() {
    } else if prefix[te] == '!' {
        if te + 1 == prefix.len() {
            bang = true;
        } else {
            return Err(ParseError::MalformedPrefix);
        }
    } else if prefix[te] == '(' {
        let rest = sub_chars(&prefix, te + 1, prefix.len());
        let ci2 = find_char_in(&rest, ')');
        if ci2 == rest.len() {
            return Err(ParseError::MalformedPrefix);
        }
        let content = sub_chars(&rest, 0, ci2);
        let mut k: usize = 0;
        while k < content.len()
            invariant
                k <= content@.len(),
                forall|j: int| 0 <= j < k ==> is_scope_char(#[trigger] content@[j]),
            decreases content@.len() - k,
        {
            if !(word_char(content[k]) || is_space(content[k])) {
                proof {
                    assert(exists|j: int|
                        0 <= j < content@.len() && !is_scope_char(#[trigger] content@[j])) by {
                        assert(!is_scope_char(content@[k as int]));
                    }
                }
                return Err(ParseError::MalformedPrefix);
            }
            k = k + 1;
        }
        let after = te + 1 + ci2 + 1;
        if after == prefix.len() {
            scope_src = Some(content);
        } else if prefix[after] == '!' && after + 1 == prefix.len() {
            scope_src = Some(content);
            bang = true;
        } else {
            return Err(ParseError::MalformedPrefix);
        }
    } else {
        return Err(ParseError::MalformedPrefix);
    }
    proof {
        let want = match &scope_src {
            Some(c) => Some(c@),
            None => None::<Seq<char>>,
        };
        assert(prefix_parse(pspec) == Some((typ@, want, bang)));
    }

    if !contains_type(valid_types, &typ) {
        return Err(ParseError::UnknownType);
    }
    let sc_trim: Vec<char> = match &scope_src {
        Some(c) => trim_chars(c),
        None => Vec::new(),
    };
    proof {
        match &scope_src {
            Some(c) => {
                assert(sc_trim@ == trim(c@));
            },
            None => {
                assert(sc_trim@ =~= Seq::<char>::empty());
            },
        }
    }
    if sc_trim.len() > 0 && !is_lowercase_char(sc_trim[0]) {
        return Err(ParseError::InvalidScopeCase);
    }
    if !(subject.len() > 0 && is_lowercase_char(subject[0])) {
        return Err(ParseError::InvalidSubjectCase);
    }
    let scope = if sc_trim.len() > 0 {
        Some(sc_trim)
    } else {
        None
    };
    Ok(Head { commit_type: typ, scope, subject, bang })
}

/// The sections, for the executable machine.
enum Sect {
    AfterSubject,
    Body,
    FooterBreaking,
    FooterIssue,
}

spec fn sect_view(s: Sect) -> Section {
    match s {
        Sect::AfterSubject => Section::AfterSubject,
        Sect::Body => Section::Body,
        Sect::FooterBreaking => Section::FooterBreaking,
        Sect::FooterIssue => Section::FooterIssue,
    }
}

spec fn st_of(sect: Sect, body: Seq<Seq<char>>, breaking: Seq<Seq<char>>, issues: Seq<u32>)
    -> ParseState {
    ParseState { section: sect_view(sect), body_lines: body, breaking_lines: breaking, issues }
}

proof fn lemma_parse_rest_unfold(lines: Seq<Seq<char>>, i: int, st: ParseState)
    requires
        0 <= i < lines.len(),
    ensures
        parse_rest(lines.subrange(i, lines.len() as int), st) == (match parse_step(st, lines[i]) {
            Ok(st2) => parse_rest(lines.subrange(i + 1, lines.len() as int), st2),
            Err(e) => Err(e),
        }),
{
    let sub = lines.subrange(i, lines.len() as int);
    assert(sub[0] == lines[i]);
    assert(sub.subrange(1, sub.len() as int) =~= lines.subrange(i + 1, lines.len() as int));
}

impl ConventionalCommitMessage {
    /// Parses a string into a conventional commit message, against the
    /// given set of valid commit types.
    #[verifier::loop_isolation(false)]
    pub fn parse(s: &str, valid_types: &[String]) -> (r: Result<Self, ParseError>)
        ensures
            (match r {
                Ok(m) => parse_msg(s@, valid_types.deep_view()) == Ok::<MsgView, ParseError>(m@),
                Err(e) => parse_msg(s@, valid_types.deep_view()) == Err::<MsgView, ParseError>(e),
            }),
    {
        let chars = str_chars(s);
        let lines = split_to_lines(&chars);
        let ghost lseq = lines.deep_view();
        proof {
            assert(lseq == split_lines(s@));
        }
        if lines.len() == 0 {
            return Err(ParseError::MissingSeparator);
        }
        proof {
            assert(lines@[0].deep_view() == lseq[0]);
            assert(lines@[0]@ =~= lines@[0].deep_view());
        }
        let head = match parse_head(&lines[0], valid_types) {
            Ok(h) => h,
            Err(e) => {
                return Err(e);
            },
        };
        let bcm = str_chars("BREAKING CHANGE:");
        let clm = str_chars("Closes #");
        let mut sect = Sect::AfterSubject;
        let mut body_lines: Vec<Vec<char>> = Vec::new();
        let mut breaking_lines: Vec<Vec<char>> = Vec::new();
        let mut issues: Vec<u32> = Vec::new();
        let ghost rest0 = lseq.subrange(1, lseq.len() as int);
        proof {
            assert(st_of(Sect::AfterSubject, body_lines.deep_view(), breaking_lines.deep_view(),
                issues@) == init_state()) by {
                assert(body_lines.deep_view() =~~= Seq::<Seq<char>>::empty());
                assert(breaking_lines.deep_view() =~~= Seq::<Seq<char>>::empty());
                assert(issues@ =~= Seq::<u32>::empty());
            }
        }
        let mut i: usize = 1;
        while i < lines.len()
            invariant
                1 <= i <= lseq.len(),
                lseq == lines.deep_view(),
                lines@.len() == lseq.len(),
                bcm@ == bc_marker(),
                clm@ == closes_marker(),
                rest0 == lseq.subrange(1, lseq.len() as int),
                parse_rest(rest0, init_state()) == parse_rest(
                    lseq.subrange(i as int, lseq.len() as int),
                    st_of(sect, body_lines.deep_view(), breaking_lines.deep_view(), issues@),
                ),
            decreases lseq.len() - i,
        {
            let ghost st_pre = st_of(sect, body_lines.deep_view(), breaking_lines.deep_view(),
                issues@);
            let ghost lv = lseq[i as int];
            proof {
                assert(lines@[i as int].deep_view() == lseq[i as int]);
                assert(lines@[i as int]@ =~= lines@[i as int].deep_view());
                lemma_parse_rest_unfold(lseq, i as int, st_pre);
            }
            let line = &lines[i];
            match sect {
                Sect::AfterSubject => {
                    if line.len() == 0 {
                        sect = Sect::Body;
                    } else {
                        proof {
                            assert(parse_step(st_pre, lv) == Err::<ParseState, ParseError>(
                                ParseError::MissingBodySeparator));
                            assert(parse_rest(rest0, init_state()) == Err::<
                                ParseState,
                                ParseError,
                            >(ParseError::MissingBodySeparator));
                            assert(parse_msg(s@, valid_types.deep_view()) == Err::<
                                MsgView,
                                ParseError,
                            >(ParseError::MissingBodySeparator));
                        }
                        return Err(ParseError::MissingBodySeparator);
                    }
                },
                Sect::Body => {
                    if starts_with_chars(line, &bcm) {
                        let ghost bl_pre = body_lines.deep_view();
                        if body_lines.len() == 0 {
                        } else if body_lines[body_lines.len() - 1].len() == 0 {
                            body_lines.pop();
                            proof {
                                assert(body_lines.deep_view() =~~= bl_pre.drop_last());
                            }
                        } else {
                            proof {
                                assert(bl_pre.last() == body_lines@[bl_pre.len() - 1]@);
                            }
                            return Err(ParseError::MissingFooterSeparator);
                        }
                        let txt = trim_chars(&sub_chars(line, bcm.len(), line.len()));
                        proof {
                            assert(txt@ == bc_text(lv));
                        }
                        let mut fresh: Vec<Vec<char>> = Vec::new();
                        fresh.push(txt);
                        breaking_lines = fresh;
                        proof {
                            assert(breaking_lines.deep_view() =~~= seq![bc_text(lv)]);
                        }
                        sect = Sect::FooterBreaking;
                    } else if starts_with_chars(line, &clm) {
                        let ghost bl_pre = body_lines.deep_view();
                        if body_lines.len() == 0 {
                        } else if body_lines[body_lines.len() - 1].len() == 0 {
                            body_lines.pop();
                            proof {
                                assert(body_lines.deep_view() =~~= bl_pre.drop_last());
                            }
                        } else {
                            proof {
                                assert(bl_pre.last() == body_lines@[bl_pre.len() - 1]@);
                            }
                            return Err(ParseError::MissingFooterSeparator);
                        }
                        match parse_u32_from(line, clm.len()) {
                            Some(n) => {
                                issues.push(n);
                                sect = Sect::FooterIssue;
                                proof {
                                    assert(issue_num(lv) == Some(n));
                                }
                            },
                            None => {
                                proof {
                                    assert(issue_num(lv) is None);
                                }
                                return Err(ParseError::InvalidIssueNumber);
                            },
                        }
                    } else {
                        let owned = sub_chars(line, 0, line.len());
                        let ghost bl_pre = body_lines.deep_view();
                        proof {
                            assert(owned@ =~= lv);
                        }
                        body_lines.push(owned);
                        proof {
                            assert(body_lines.deep_view() =~~= bl_pre.push(lv));
                        }
                    }
                },
                Sect::FooterBreaking => {
                    if starts_with_chars(line, &bcm) {
                        return Err(ParseError::DuplicateBreakingChange);
                    } else if starts_with_chars(line, &clm) {
                        match parse_u32_from(line, clm.len()) {
                            Some(n) => {
                                issues.push(n);
                                sect = Sect::FooterIssue;
                                proof {
                                    assert(issue_num(lv) == Some(n));
                                }
                            },
                            None => {
                                proof {
                                    assert(issue_num(lv) is None);
                                }
                                return Err(ParseError::InvalidIssueNumber);
                            },
                        }
                    } else {
                        let owned = sub_chars(line, 0, line.len());
                        let ghost br_pre = breaking_lines.deep_view();
                        proof {
                            assert(owned@ =~= lv);
                        }
                        breaking_lines.push(owned);
                        proof {
                            assert(breaking_lines.deep_view() =~~= br_pre.push(lv));
                        }
                    }
                },
                Sect::FooterIssue => {
                    if starts_with_chars(line, &clm) {
                        match parse_u32_from(line, clm.len()) {
                            Some(n) => {
                                issues.push(n);
                                proof {
                                    assert(issue_num(lv) == Some(n));
                                }
                            },
                            None => {
                                proof {
                                    assert(issue_num(lv) is None);
                                }
                                return Err(ParseError::InvalidIssueNumber);
                            },
                        }
                    } else if starts_with_chars(line, &bcm) {
                        if breaking_lines.len() > 0 {
                            return Err(ParseError::DuplicateBreakingChange);
                        } else {
                            return Err(ParseError::UnexpectedLine);
                        }
                    } else {
                        return Err(ParseError::UnexpectedLine);
                    }
                },
            }
            proof {
                assert(parse_step(st_pre, lv) == Ok::<ParseState, ParseError>(st_of(sect,
                    body_lines.deep_view(), breaking_lines.deep_view(), issues@)));
            }
            i = i + 1;
        }
        let ghost st_fin = st_of(sect, body_lines.deep_view(), breaking_lines.deep_view(),
            issues@);
        proof {
            assert(lseq.subrange(i as int, lseq.len() as int) =~~= Seq::<Seq<char>>::empty());
            assert(parse_rest(rest0, init_state()) == Ok::<ParseState, ParseError>(st_fin));
        }

        // drop the synthetic separators left at the end of the body
        let ghost bl0 = body_lines.deep_view();
        while body_lines.len() > 0 && body_lines[body_lines.len() - 1].len() == 0
            invariant
                drop_trailing_empty(bl0) == drop_trailing_empty(body_lines.deep_view()),
            decreases body_lines@.len(),
        {
            let ghost pre = body_lines.deep_view();
            proof {
                assert(pre.last() == body_lines@[pre.len() - 1]@);
                assert(pre.last().len() == 0);
            }
            body_lines.pop();
            proof {
                assert(body_lines.deep_view() =~~= pre.drop_last());
            }
        }
        proof {
            let cur = body_lines.deep_view();
            if cur.len() > 0 {
                assert(cur.last() == body_lines@[cur.len() - 1]@);
            }
            assert(drop_trailing_empty(cur) == cur);
        }

        let body = if body_lines.len() == 0 {
            None
        } else {
            Some(chars_to_string(&join_chars(&body_lines)))
        };
        let breaking_change = if breaking_lines.len() > 0 {
            Some(chars_to_string(&join_chars(&breaking_lines)))
        } else if head.bang {
            Some(String::new())
        } else {
            None
        };
        let closed_issues = if issues.len() == 0 {
            None
        } else {
            Some(issues)
        };
        let m = ConventionalCommitMessage {
            commit_type: chars_to_string(&head.commit_type),
            scope: match &head.scope {
                Some(sc) => Some(chars_to_string(sc)),
                None => None,
            },
            subject: chars_to_string(&head.subject),
            body,
            breaking_change,
            closed_issues,
        };
        proof {
            let hv = head.view_spec();
            let want = finish_parse(hv, st_fin);
            assert(m@.commit_type == want.commit_type);
            assert(m@.scope == want.scope);
            assert(m@.subject == want.subject);
            assert(m@.body == want.body);
            assert(m@.breaking_change == want.breaking_change);
            assert(m@.closed_issues == want.closed_issues);
            assert(m@ == want);
        }
        Ok(m)
    }

    /// The canonical text of the message: prefix line, body, breaking-change
    /// footer and closed-issue lines, in normalized order.
    #[verifier::loop_isolation(false)]
    #[verifier::rlimit(80)]
    pub fn to_string(&self) -> (r: String)
        ensures
            r@ == format_msg(self@),
    {
        proof {
            reveal_strlit(": ");
            reveal_strlit("(");
            reveal_strlit(")");
            reveal_strlit("!");
            reveal_strlit("\n\n");
            reveal_strlit("\n");
            reveal_strlit(" ");
        }
        let mut r = String::new();
        r.append(self.commit_type.as_str());
        match &self.scope {
            Some(sc) => {
                r.append("(");
                r.append(sc.as_str());
                r.append(")");
            },
            None => {},
        }
        if self.breaking_change.is_some() {
            r.append("!");
        }
        r.append(": ");
        r.append(self.subject.as_str());
        proof {
            assert(r@ =~= format_prefix(self@));
        }
        match &self.body {
            Some(b) => {
                r.append("\n\n");
                r.append(b.as_str());
            },
            None => {},
        }
        match &self.breaking_change {
            Some(t) => {
                r.append("\n\n");
                r.append("BREAKING CHANGE:");
                r.append(" ");
                r.append(t.as_str());
            },
            None => {},
        }
        let ghost before_issues = r@;
        match &self.closed_issues {
            Some(issues) => {
                if issues.len() > 0 {
                    if self.breaking_change.is_none() {
                        r.append("\n");
                    }
                    let ghost base = r@;
                    let mut k: usize = 0;
                    while k < issues.len()
                        invariant
                            k <= issues@.len(),
                            r@ == base + issues_str(issues@.subrange(0, k as int)),
                        decreases issues@.len() - k,
                    {
                        proof {
                            reveal_strlit("\n");
                        }
                        r.append("\n");
                        r.append("Closes #");
                        let digits = u32_to_dec(issues[k]);
                        let ds = chars_to_string(&digits);
                        r.append(ds.as_str());
                        proof {
                            let p = issues@.subrange(0, k as int);
                            let q = issues@.subrange(0, k as int + 1);
                            assert(q.drop_last() =~= p);
                            assert(q.last() == issues@[k as int]);
                            assert(r@ =~= base + (issues_str(p) + seq!['\n'] + closes_marker()
                                + dec_str(issues@[k as int] as nat)));
                            assert(r@ =~= base + issues_str(q));
                        }
                        k = k + 1;
                    }
                    proof {
                        assert(issues@.subrange(0, issues@.len() as int) =~= issues@);
                    }
                }
            },
            None => {},
        }
        proof {
            assert(r@ =~= format_msg(self@));
        }
        r
    }
}

/// A line that no footer marker opens.
pub open spec fn plain_line(l: Seq<char>) -> bool {
    !has_prefix(l, bc_marker()) && !has_prefix(l, closes_marker())
}

/// Free text that splitting and joining give back unchanged when it is
/// embedded between line feeds: no carriage return before a line feed or
/// at the end, and no final line feed.
pub open spec fn embeddable_text(b: Seq<char>) -> bool {
    &&& (forall|j: int| 0 < j < b.len() && #[trigger] b[j] == '\n' ==> b[j - 1] != '\r')
    &&& (b.len() > 0 ==> b[b.len() - 1] != '\n' && b[b.len() - 1] != '\r')
}

/// A well-formed message with normalized footer order: exactly what the
/// canonical formatter emits and the parser accepts back unchanged.
pub open spec fn wellformed_msg(m: MsgView) -> bool {
    &&& m.commit_type.len() > 0
    &&& (forall|j: int| 0 <= j < m.commit_type.len() ==> is_word_char(#[trigger] m.commit_type[j]))
    &&& (match m.scope {
        Some(sc) => {
            &&& sc.len() > 0
            &&& char_is_lowercase(sc[0])
            &&& trim(sc) == sc
            &&& (forall|j: int| 0 <= j < sc.len() ==> is_scope_char(#[trigger] sc[j]) && sc[j]
                != '\n')
        },
        None => true,
    })
    &&& m.subject.len() > 0
    &&& char_is_lowercase(m.subject[0])
    &&& trim(m.subject) == m.subject
    &&& (forall|j: int| 0 <= j < m.subject.len() ==> m.subject[j] != '\n')
    &&& (match m.body {
        Some(b) => {
            &&& b.len() > 0
            &&& embeddable_text(b)
            &&& (forall|i: int| 0 <= i < split_lines(b).len() ==> plain_line(
                #[trigger] split_lines(b)[i],
            ))
        },
        None => true,
    })
    &&& (match m.breaking_change {
        Some(bc) => {
            &&& embeddable_text(bc)
            &&& (bc.len() > 0 ==> trim(split_lines(bc)[0]) == split_lines(bc)[0])
            &&& (forall|i: int| 1 <= i < split_lines(bc).len() ==> plain_line(
                #[trigger] split_lines(bc)[i],
            ))
        },
        None => true,
    })
    &&& (match m.closed_issues {
        Some(issues) => issues.len() > 0,
        None => true,
    })
}

/// The lines of the breaking-change footer: the marker with the first text
/// line, then the remaining text lines.
pub open spec fn bc_lines(bc: Seq<char>) -> Seq<Seq<char>> {
    if bc.len() == 0 {
        seq![bc_marker() + seq![' ']]
    } else {
        seq![bc_marker() + seq![' '] + split_lines(bc)[0]] + split_lines(bc).subrange(
            1,
            split_lines(bc).len() as int,
        )
    }
}

/// One `Closes #` line per issue.
pub open spec fn issue_lines(issues: Seq<u32>) -> Seq<Seq<char>> {
    Seq::new(issues.len(), |i: int| closes_marker() + dec_str(issues[i] as nat))
}

/// The body section of the formatted message, as lines.
pub open spec fn body_block(m: MsgView) -> Seq<Seq<char>> {
    match m.body {
        Some(b) => seq![Seq::<char>::empty()] + split_lines(b),
        None => seq![],
    }
}

/// The breaking-change section of the formatted message, as lines.
pub open spec fn bc_block(m: MsgView) -> Seq<Seq<char>> {
    match m.breaking_change {
        Some(bc) => seq![Seq::<char>::empty()] + bc_lines(bc),
        None => seq![],
    }
}

/// The issue section of the formatted message, as lines.
pub open spec fn issue_block(m: MsgView) -> Seq<Seq<char>> {
    match m.closed_issues {
        Some(issues) => if issues.len() > 0 {
            (if m.breaking_change is None {
                seq![Seq::<char>::empty()]
            } else {
                seq![]
            }) + issue_lines(issues)
        } else {
            seq![]
        },
        None => seq![],
    }
}

/// The formatted message, as lines.
pub open spec fn format_lines(m: MsgView) -> Seq<Seq<char>> {
    seq![format_prefix(m)] + body_block(m) + bc_block(m) + issue_block(m)
}

proof fn lemma_issue_tail(issues: Seq<u32>)
    ensures
        join_tail(issue_lines(issues)) == issues_str(issues),
    decreases issues.len(),
{
    if issues.len() == 0 {
        assert(issue_lines(issues) =~~= Seq::<Seq<char>>::empty());
    } else {
        let pre = issues.drop_last();
        lemma_issue_tail(pre);
        assert(issue_lines(pre).push(closes_marker() + dec_str(issues.last() as nat))
            =~~= issue_lines(issues));
        lemma_join_tail_concat(issue_lines(pre), seq![closes_marker() + dec_str(
            issues.last() as nat)]);
        assert(issue_lines(pre) + seq![closes_marker() + dec_str(issues.last() as nat)]
            =~~= issue_lines(issues));
        lemma_join_tail_single(closes_marker() + dec_str(issues.last() as nat));
        assert(join_tail(seq![closes_marker() + dec_str(issues.last() as nat)])
            =~= seq!['\n'] + closes_marker() + dec_str(issues.last() as nat));
        assert(join_tail(issue_lines(issues)) =~= issues_str(issues));
    }
}

/// The formatter's text is the join of its lines.
#[verifier::rlimit(100)]
proof fn lemma_format_as_lines(m: MsgView)
    requires
        wellformed_msg(m),
    ensures
        format_msg(m) == join_lines(format_lines(m)),
{
    let ls = format_lines(m);
    lemma_join_head_tail(ls);
    assert(ls[0] == format_prefix(m));
    let tail = body_block(m) + bc_block(m) + issue_block(m);
    assert(ls.subrange(1, ls.len() as int) =~~= tail);
    lemma_join_tail_concat(body_block(m), bc_block(m));
    lemma_join_tail_concat(body_block(m) + bc_block(m), issue_block(m));
    assert((body_block(m) + bc_block(m)) + issue_block(m) =~~= tail);
    assert(join_tail(tail) == join_tail(body_block(m)) + join_tail(bc_block(m)) + join_tail(
        issue_block(m)));

    // body section
    match m.body {
        Some(b) => {
            lemma_join_split_lines(b);
            let bl = split_lines(b);
            assert(bl.len() > 0) by {
                lemma_find_char(b, '\n');
            }
            lemma_join_tail_concat(seq![Seq::<char>::empty()], bl);
            assert(seq![Seq::<char>::empty()] + bl =~~= body_block(m));
            lemma_join_tail_rel(bl);
            lemma_join_tail_single(Seq::<char>::empty());
            assert(join_tail(seq![Seq::<char>::empty()]) =~= seq!['\n']);
            assert(join_tail(body_block(m)) =~= seq!['\n', '\n'] + b);
        },
        None => {
            assert(body_block(m) =~~= Seq::<Seq<char>>::empty());
            assert(join_tail(body_block(m)) =~= Seq::<char>::empty());
        },
    }

    // breaking-change section
    match m.breaking_change {
        Some(bc) => {
            lemma_join_tail_concat(seq![Seq::<char>::empty()], bc_lines(bc));
            assert(seq![Seq::<char>::empty()] + bc_lines(bc) =~~= bc_block(m));
            lemma_join_tail_rel(bc_lines(bc));
            lemma_join_tail_single(Seq::<char>::empty());
            assert(join_tail(seq![Seq::<char>::empty()]) =~= seq!['\n']);
            if bc.len() == 0 {
                assert(join_lines(bc_lines(bc)) == bc_marker() + seq![' ']);
                assert(join_tail(bc_block(m)) =~= seq!['\n', '\n'] + bc_marker() + seq![' ']
                    + bc);
            } else {
                lemma_join_split_lines(bc);
                let tl = split_lines(bc);
                assert(tl.len() > 0) by {
                    lemma_find_char(bc, '\n');
                }
                lemma_join_head_tail(tl);
                lemma_join_head_tail(bc_lines(bc));
                assert(bc_lines(bc)[0] == bc_marker() + seq![' '] + tl[0]);
                assert(bc_lines(bc).subrange(1, bc_lines(bc).len() as int) =~~= tl.subrange(
                    1,
                    tl.len() as int,
                ));
                assert(join_lines(bc_lines(bc)) =~= bc_marker() + seq![' '] + join_lines(tl));
                assert(join_tail(bc_block(m)) =~= seq!['\n', '\n'] + bc_marker() + seq![' ']
                    + bc);
            }
        },
        None => {
            assert(bc_block(m) =~~= Seq::<Seq<char>>::empty());
            assert(join_tail(bc_block(m)) =~= Seq::<char>::empty());
        },
    }

    // issue section
    match m.closed_issues {
        Some(issues) => {
            if issues.len() > 0 {
                lemma_issue_tail(issues);
                if m.breaking_change is None {
                    lemma_join_tail_single(Seq::<char>::empty());
                    lemma_join_tail_concat(seq![Seq::<char>::empty()], issue_lines(issues));
                    assert(seq![Seq::<char>::empty()] + issue_lines(issues) =~~= issue_block(m));
                    assert(join_tail(issue_block(m)) =~= seq!['\n'] + issues_str(issues));
                } else {
                    assert(issue_block(m) =~~= issue_lines(issues));
                    assert(join_tail(issue_block(m)) =~= issues_str(issues));
                }
            } else {
                assert(issue_block(m) =~~= Seq::<Seq<char>>::empty());
                assert(join_tail(issue_block(m)) =~= Seq::<char>::empty());
            }
        },
        None => {
            assert(issue_block(m) =~~= Seq::<Seq<char>>::empty());
            assert(join_tail(issue_block(m)) =~= Seq::<char>::empty());
        },
    }

    assert(format_msg(m) =~= join_lines(format_lines(m)));
}

/// Every formatted line is clean, and the last one is non-empty.
#[verifier::rlimit(100)]
proof fn lemma_format_lines_clean(m: MsgView)
    requires
        wellformed_msg(m),
    ensures
        forall|i: int| 0 <= i < format_lines(m).len() ==> clean_line(#[trigger] format_lines(m)[i]),
        format_lines(m).len() > 0,
        format_lines(m)[format_lines(m).len() - 1].len() > 0,
{
    lemma_markers();
    let pfx = format_prefix(m);
    assert(clean_line(pfx)) by {
        let scope_part = match m.scope {
            Some(sc) => seq!['('] + sc + seq![')'],
            None => Seq::<char>::empty(),
        };
        assert forall|j: int| 0 <= j < scope_part.len() implies scope_part[j] != '\n' by {
            match m.scope {
                Some(sc) => {
                    if 0 < j < scope_part.len() - 1 {
                        assert(scope_part[j] == sc[j - 1]);
                    }
                },
                None => {},
            }
        }
        let bang_part = if m.breaking_change is Some {
            seq!['!']
        } else {
            Seq::<char>::empty()
        };
        let head = m.commit_type + scope_part + bang_part + seq![':', ' '];
        assert forall|j: int| 0 <= j < head.len() implies head[j] != '\n' by {
            if j < m.commit_type.len() {
                assert(head[j] == m.commit_type[j]);
                assert(is_word_char(m.commit_type[j]));
            } else if j < m.commit_type.len() + scope_part.len() {
                assert(head[j] == scope_part[j - m.commit_type.len()]);
            }
        }
        assert(pfx =~= head + m.subject);
        assert forall|j: int| 0 <= j < pfx.len() implies pfx[j] != '\n' by {
            if j >= head.len() {
                assert(pfx[j] == m.subject[j - head.len()]);
            } else {
                assert(pfx[j] == head[j]);
            }
        }
        assert(pfx[pfx.len() - 1] == m.subject[m.subject.len() - 1]);
        assert(!is_space_char(m.subject[m.subject.len() - 1])) by {
            if is_space_char(m.subject[m.subject.len() - 1]) {
                crate::text::lemma_trim_shrinks(m.subject);
            }
        }
    }

    let bb = body_block(m);
    assert forall|i: int| 0 <= i < bb.len() implies clean_line(#[trigger] bb[i]) by {
        match m.body {
            Some(b) => {
                lemma_split_lines_clean(b);
                if i > 0 {
                    assert(bb[i] == split_lines(b)[i - 1]);
                }
            },
            None => {},
        }
    }

    let cb = bc_block(m);
    assert forall|i: int| 0 <= i < cb.len() implies clean_line(#[trigger] cb[i]) by {
        match m.breaking_change {
            Some(bc) => {
                lemma_split_lines_clean(bc);
                if i == 1 {
                    let first = bc_lines(bc)[0];
                    let tl0 = if bc.len() == 0 {
                        Seq::<char>::empty()
                    } else {
                        split_lines(bc)[0]
                    };
                    assert(first =~= bc_marker() + seq![' '] + tl0);
                    assert forall|j: int| 0 <= j < first.len() implies first[j] != '\n' by {
                        if j < bc_marker().len() {
                            assert(first[j] == bc_marker()[j]);
                        } else if j == bc_marker().len() {
                            assert(first[j] == ' ');
                        } else {
                            assert(first[j] == tl0[j - bc_marker().len() - 1]);
                        }
                    }
                    assert(first[first.len() - 1] != '\r') by {
                        if tl0.len() == 0 {
                            assert(first[first.len() - 1] == ' ');
                        } else {
                            assert(first[first.len() - 1] == tl0[tl0.len() - 1]);
                        }
                    }
                    assert(cb[i] == first);
                } else if i > 1 {
                    assert(cb[i] == split_lines(bc)[i - 1]);
                }
            },
            None => {},
        }
    }

    let ib = issue_block(m);
    assert forall|i: int| 0 <= i < ib.len() implies clean_line(#[trigger] ib[i]) by {
        match m.closed_issues {
            Some(issues) => {
                let lead = if m.breaking_change is None {
                    1int
                } else {
                    0int
                };
                if i >= lead {
                    let n = issues[i - lead] as nat;
                    lemma_dec_str_val(n);
                    let line = closes_marker() + dec_str(n);
                    assert(ib[i] == line);
                    assert forall|j: int| 0 <= j < line.len() implies line[j] != '\n' by {
                        if j >= closes_marker().len() {
                            assert(line[j] == dec_str(n)[j - closes_marker().len()]);
                            assert(crate::text::is_digit(line[j]));
                        } else {
                            assert(line[j] == closes_marker()[j]);
                        }
                    }
                    assert(line[line.len() - 1] == dec_str(n)[dec_str(n).len() - 1]);
                    assert(crate::text::is_digit(line[line.len() - 1]));
                }
            },
            None => {},
        }
    }

    let ls = format_lines(m);
    assert forall|i: int| 0 <= i < ls.len() implies clean_line(#[trigger] ls[i]) by {
        if i == 0 {
            assert(ls[i] == pfx);
        } else if i < 1 + bb.len() {
            assert(ls[i] == bb[i - 1]);
        } else if i < 1 + bb.len() + cb.len() {
            assert(ls[i] == cb[i - 1 - bb.len()]);
        } else {
            assert(ls[i] == ib[i - 1 - bb.len() - cb.len()]);
        }
    }

    // the last line is non-empty
    if ib.len() > 0 {
        let n = (match m.closed_issues {
            Some(issues) => issues[issues.len() - 1],
            None => 0u32,
        }) as nat;
        lemma_dec_str_val(n);
        assert(ls[ls.len() - 1] == ib[ib.len() - 1]);
        assert(ib[ib.len() - 1] =~= closes_marker() + dec_str(n));
    } else if cb.len() > 0 {
        assert(ls[ls.len() - 1] == cb[cb.len() - 1]);
        match m.breaking_change {
            Some(bc) => {
                lemma_split_lines_clean(bc);
                if bc.len() == 0 {
                    assert(cb[cb.len() - 1] =~= bc_marker() + seq![' ']);
                } else if split_lines(bc).len() == 1 {
                    assert(cb[cb.len() - 1] == bc_lines(bc)[0]);
                    assert(bc_lines(bc)[0].len() > 0);
                } else {
                    assert(cb[cb.len() - 1] == split_lines(bc)[split_lines(bc).len() - 1]);
                }
            },
            None => {},
        }
    } else if bb.len() > 0 {
        assert(ls[ls.len() - 1] == bb[bb.len() - 1]);
        match m.body {
            Some(b) => {
                lemma_split_lines_clean(b);
                assert(bb[bb.len() - 1] == split_lines(b)[split_lines(b).len() - 1]);
            },
            None => {},
        }
    } else {
        assert(ls[ls.len() - 1] == pfx);
        assert(pfx.len() > 0);
    }
}

proof fn lemma_parse_rest_single(line: Seq<char>, st: ParseState)
    ensures
        parse_rest(seq![line], st) == (match parse_step(st, line) {
            Ok(st2) => Ok::<ParseState, ParseError>(st2),
            Err(e) => Err::<ParseState, ParseError>(e),
        }),
{
    assert(seq![line][0] == line);
    match parse_step(st, line) {
        Ok(st2) => {
            assert(seq![line].subrange(1, 1) =~~= Seq::<Seq<char>>::empty());
            assert(parse_rest(seq![line].subrange(1, 1), st2) == Ok::<ParseState, ParseError>(
                st2));
        },
        Err(e) => {},
    }
}

proof fn lemma_parse_rest_concat(a: Seq<Seq<char>>, b: Seq<Seq<char>>, st: ParseState)
    ensures
        parse_rest(a + b, st) == (match parse_rest(a, st) {
            Ok(st2) => parse_rest(b, st2),
            Err(e) => Err::<ParseState, ParseError>(e),
        }),
    decreases a.len(),
{
    if a.len() == 0 {
        assert(a + b =~~= b);
    } else {
        assert((a + b)[0] == a[0]);
        match parse_step(st, a[0]) {
            Ok(st2) => {
                lemma_parse_rest_concat(a.subrange(1, a.len() as int), b, st2);
                assert((a + b).subrange(1, (a + b).len() as int) =~~= a.subrange(
                    1,
                    a.len() as int,
                ) + b);
            },
            Err(e) => {
                assert((a + b).len() > 0);
            },
        }
    }
}

/// Plain lines in the body section accumulate in order.
proof fn lemma_body_run(bl: Seq<Seq<char>>, st: ParseState)
    requires
        st.section is Body,
        forall|i: int| 0 <= i < bl.len() ==> plain_line(#[trigger] bl[i]),
    ensures
        parse_rest(bl, st) == Ok::<ParseState, ParseError>(
            (ParseState { body_lines: st.body_lines + bl, ..st }),
        ),
    decreases bl.len(),
{
    if bl.len() == 0 {
        assert(st.body_lines + bl =~~= st.body_lines);
        assert((ParseState { body_lines: st.body_lines + bl, ..st }) == st);
    } else {
        let st2 = ParseState { body_lines: st.body_lines.push(bl[0]), ..st };
        assert(parse_step(st, bl[0]) == Ok::<ParseState, ParseError>(st2));
        lemma_body_run(bl.subrange(1, bl.len() as int), st2);
        assert(st2.body_lines + bl.subrange(1, bl.len() as int) =~~= st.body_lines + bl);
    }
}

/// Plain lines in the breaking-change footer accumulate as continuation.
proof fn lemma_bc_run(cl: Seq<Seq<char>>, st: ParseState)
    requires
        st.section is FooterBreaking,
        forall|i: int| 0 <= i < cl.len() ==> plain_line(#[trigger] cl[i]),
    ensures
        parse_rest(cl, st) == Ok::<ParseState, ParseError>(
            (ParseState { breaking_lines: st.breaking_lines + cl, ..st }),
        ),
    decreases cl.len(),
{
    if cl.len() == 0 {
        assert(st.breaking_lines + cl =~~= st.breaking_lines);
        assert((ParseState { breaking_lines: st.breaking_lines + cl, ..st }) == st);
    } else {
        let st2 = ParseState { breaking_lines: st.breaking_lines.push(cl[0]), ..st };
        assert(parse_step(st, cl[0]) == Ok::<ParseState, ParseError>(st2));
        lemma_bc_run(cl.subrange(1, cl.len() as int), st2);
        assert(st2.breaking_lines + cl.subrange(1, cl.len() as int) =~~= st.breaking_lines + cl);
    }
}

/// In the issue footer, each `Closes #` line appends its number.
proof fn lemma_issue_run(issues: Seq<u32>, st: ParseState)
    requires
        st.section is FooterIssue,
    ensures
        parse_rest(issue_lines(issues), st) == Ok::<ParseState, ParseError>(
            (ParseState { issues: st.issues + issues, ..st }),
        ),
    decreases issues.len(),
{
    lemma_markers();
    if issues.len() == 0 {
        assert(issue_lines(issues) =~~= Seq::<Seq<char>>::empty());
        assert(st.issues + issues =~~= st.issues);
        assert((ParseState { issues: st.issues + issues, ..st }) == st);
    } else {
        let n = issues[0];
        let line = closes_marker() + dec_str(n as nat);
        assert(issue_lines(issues)[0] == line);
        lemma_prefix_concat(closes_marker(), dec_str(n as nat));
        lemma_dec_str_val(n as nat);
        assert(line.subrange(closes_marker().len() as int, line.len() as int) =~= dec_str(
            n as nat));
        assert(issue_num(line) == Some(n));
        let st2 = ParseState { issues: st.issues.push(n), ..st };
        assert(parse_step(st, line) == Ok::<ParseState, ParseError>(st2));
        lemma_issue_run(issues.subrange(1, issues.len() as int), st2);
        assert(issue_lines(issues).subrange(1, issue_lines(issues).len() as int)
            =~~= issue_lines(issues.subrange(1, issues.len() as int)));
        assert(st2.issues + issues.subrange(1, issues.len() as int) =~~= st.issues + issues);
    }
}

/// The empty line is no footer line.
proof fn lemma_empty_line_plain()
    ensures
        plain_line(Seq::<char>::empty()),
{
    lemma_markers();
}

/// A `Closes #` line is no breaking-change line, and conversely.
proof fn lemma_markers_distinct(tail1: Seq<char>, tail2: Seq<char>)
    ensures
        !has_prefix(closes_marker() + tail1, bc_marker()),
        !has_prefix(bc_marker() + tail2, closes_marker()),
{
    lemma_markers();
    if has_prefix(closes_marker() + tail1, bc_marker()) {
        lemma_prefix_first(closes_marker() + tail1, bc_marker());
        assert((closes_marker() + tail1)[0] == 'C');
    }
    if has_prefix(bc_marker() + tail2, closes_marker()) {
        lemma_prefix_first(bc_marker() + tail2, closes_marker());
        assert((bc_marker() + tail2)[0] == 'B');
    }
}

/// The first line of the canonical rendering parses back to the record's
/// head fields.
#[verifier::rlimit(100)]
proof fn lemma_head_round(m: MsgView, types: Seq<Seq<char>>)
    requires
        wellformed_msg(m),
        seq_contains_str(types, m.commit_type),
    ensures
        parse_first_line(format_prefix(m), types) == Ok::<HeadView, ParseError>(
            (HeadView {
                commit_type: m.commit_type,
                scope: m.scope,
                subject: m.subject,
                bang: m.breaking_change is Some,
            }),
        ),
{
    let typ = m.commit_type;
    let scope_part = match m.scope {
        Some(sc) => seq!['('] + sc + seq![')'],
        None => Seq::<char>::empty(),
    };
    let bang = m.breaking_change is Some;
    let bang_part = if bang {
        seq!['!']
    } else {
        Seq::<char>::empty()
    };
    let p = typ + scope_part + bang_part;
    let line = format_prefix(m);
    assert(line =~= p + seq![':', ' '] + m.subject);

    // the first colon stands right after the prefix
    assert forall|j: int| 0 <= j < p.len() implies p[j] != ':' by {
        if j < typ.len() {
            assert(p[j] == typ[j] && is_word_char(typ[j]));
        } else if j < typ.len() + scope_part.len() {
            assert(p[j] == scope_part[j - typ.len()]);
            match m.scope {
                Some(sc) => {
                    if 0 < j - typ.len() < scope_part.len() - 1 {
                        assert(scope_part[j - typ.len()] == sc[j - typ.len() - 1]);
                        assert(is_scope_char(sc[j - typ.len() - 1]));
                    }
                },
                None => {},
            }
        } else {
            assert(p[j] == '!');
        }
    }
    assert forall|j: int| 0 <= j < p.len() implies line[j] != ':' by {
        assert(line[j] == p[j]);
    }
    assert(line[p.len() as int] == ':');
    crate::text::lemma_find_char_at_pub(line, ':', p.len() as int);
    let ci = p.len() as int;
    assert(find_char(line, ':') == ci);
    assert(ci < line.len());

    // the prefix is trim-stable
    assert(line.subrange(0, ci) =~= p);
    assert(p[0] == typ[0] && is_word_char(typ[0]));
    assert(!is_space_char(p[p.len() - 1])) by {
        if bang {
            assert(p[p.len() - 1] == '!');
        } else {
            match m.scope {
                Some(sc) => {
                    assert(p[p.len() - 1] == scope_part[scope_part.len() - 1]);
                    assert(scope_part[scope_part.len() - 1] == ')');
                },
                None => {
                    assert(p[p.len() - 1] == typ[typ.len() - 1]);
                    assert(is_word_char(typ[typ.len() - 1]));
                },
            }
        }
    }
    lemma_trim_stable(p);

    // the subject is recovered after the colon and the blank
    assert(line.subrange(ci + 1, line.len() as int) =~= seq![' '] + m.subject);
    lemma_trim_space_prefix(m.subject);

    // the prefix grammar gives back type, scope and marker
    assert forall|j: int| 0 <= j < typ.len() implies is_word_char(p[j]) by {
        assert(p[j] == typ[j]);
    }
    if typ.len() < p.len() {
        assert(!is_word_char(p[typ.len() as int])) by {
            match m.scope {
                Some(sc) => {
                    assert(p[typ.len() as int] == '(');
                },
                None => {
                    assert(p[typ.len() as int] == '!');
                },
            }
        }
    }
    lemma_word_run_at(p, typ.len() as int);
    let te = typ.len() as int;
    assert(p.subrange(0, te) =~= typ);

    match m.scope {
        Some(sc) => {
            assert(p[te] == '(');
            assert(p[te] != '!');
            let rest = p.subrange(te + 1, p.len() as int);
            assert(rest =~= sc + seq![')'] + bang_part);
            assert forall|j: int| 0 <= j < sc.len() implies rest[j] != ')' by {
                assert(rest[j] == sc[j]);
                assert(is_scope_char(sc[j]));
            }
            assert(rest[sc.len() as int] == ')');
            crate::text::lemma_find_char_at_pub(rest, ')', sc.len() as int);
            let content = rest.subrange(0, sc.len() as int);
            assert(content =~= sc);
            assert(!(exists|j: int| 0 <= j < content.len() && !is_scope_char(
                #[trigger] content[j]))) by {
                assert forall|j: int| 0 <= j < content.len() implies is_scope_char(
                    #[trigger] content[j]) by {
                    assert(content[j] == sc[j]);
                }
            }
            let after = te + 1 + sc.len() + 1;
            if bang {
                assert(p[after] == '!');
                assert(after + 1 == p.len());
            } else {
                assert(after == p.len());
            }
            assert(prefix_parse(p) == Some((typ, Some(sc), bang)));
            assert(trim(sc) == sc);
        },
        None => {
            if bang {
                assert(p[te] == '!');
                assert(te + 1 == p.len());
            } else {
                assert(te == p.len());
            }
            assert(prefix_parse(p) == Some((typ, None::<Seq<char>>, bang)));
        },
    }
}

/// The body lines the machine ends with.
pub open spec fn expected_body_lines(m: MsgView) -> Seq<Seq<char>> {
    match m.body {
        Some(b) => split_lines(b),
        None => seq![],
    }
}

/// The breaking-change lines the machine ends with.
pub open spec fn expected_bc_lines(m: MsgView) -> Seq<Seq<char>> {
    match m.breaking_change {
        Some(bc) => if bc.len() == 0 {
            seq![Seq::<char>::empty()]
        } else {
            split_lines(bc)
        },
        None => seq![],
    }
}

/// The issues the machine ends with.
pub open spec fn expected_issues(m: MsgView) -> Seq<u32> {
    match m.closed_issues {
        Some(issues) => issues,
        None => seq![],
    }
}

/// Running the machine over the formatted sections gives back the
/// message's own parts.
#[verifier::rlimit(100)]
proof fn lemma_machine_run(m: MsgView)
    requires
        wellformed_msg(m),
    ensures
        parse_rest(body_block(m) + bc_block(m) + issue_block(m), init_state()) is Ok,
        parse_rest(body_block(m) + bc_block(m) + issue_block(m), init_state())->Ok_0.body_lines
            == expected_body_lines(m),
        parse_rest(body_block(m) + bc_block(m) + issue_block(m), init_state())->Ok_0.breaking_lines
            == expected_bc_lines(m),
        parse_rest(body_block(m) + bc_block(m) + issue_block(m), init_state())->Ok_0.issues
            == expected_issues(m),
{
    lemma_markers();
    lemma_empty_line_plain();
    let st0 = init_state();
    let empty_line = Seq::<char>::empty();

    // body section
    let st1 = match m.body {
        Some(b) => (ParseState {
            section: Section::Body,
            body_lines: split_lines(b),
            breaking_lines: seq![],
            issues: seq![],
        }),
        None => st0,
    };
    assert(parse_rest(body_block(m), st0) == Ok::<ParseState, ParseError>(st1)) by {
        match m.body {
            Some(b) => {
                let bb = body_block(m);
                assert(bb[0] == empty_line);
                let sta = ParseState { section: Section::Body, ..st0 };
                assert(parse_step(st0, empty_line) == Ok::<ParseState, ParseError>(sta));
                lemma_body_run(split_lines(b), sta);
                assert(bb.subrange(1, bb.len() as int) =~~= split_lines(b));
                assert(sta.body_lines + split_lines(b) =~~= split_lines(b));
                assert(parse_rest(bb, st0) == parse_rest(split_lines(b), sta));
            },
            None => {
                assert(body_block(m) =~~= Seq::<Seq<char>>::empty());
            },
        }
    }

    // breaking-change section
    let st2 = match m.breaking_change {
        Some(bc) => (ParseState {
            section: Section::FooterBreaking,
            body_lines: expected_body_lines(m),
            breaking_lines: expected_bc_lines(m),
            issues: seq![],
        }),
        None => st1,
    };
    assert(parse_rest(bc_block(m), st1) == Ok::<ParseState, ParseError>(st2)) by {
        match m.breaking_change {
            Some(bc) => {
                let cb = bc_block(m);
                assert(cb[0] == empty_line);
                // the separating empty line
                let sta = match m.body {
                    Some(b) => (ParseState {
                        body_lines: st1.body_lines.push(empty_line), ..st1
                    }),
                    None => (ParseState { section: Section::Body, ..st1 }),
                };
                assert(parse_step(st1, empty_line) == Ok::<ParseState, ParseError>(sta)) by {
                    match m.body {
                        Some(b) => {
                            assert(st1.section is Body);
                            assert(plain_line(empty_line));
                        },
                        None => {},
                    }
                }
                // the marker line
                let tl0 = if bc.len() == 0 {
                    Seq::<char>::empty()
                } else {
                    split_lines(bc)[0]
                };
                let marker_line = bc_marker() + seq![' '] + tl0;
                assert(cb[1] == bc_lines(bc)[0] && bc_lines(bc)[0] == marker_line);
                lemma_prefix_concat(bc_marker(), seq![' '] + tl0);
                assert(has_prefix(marker_line, bc_marker())) by {
                    assert(bc_marker() + (seq![' '] + tl0) =~= marker_line);
                }
                assert(bc_text(marker_line) == tl0) by {
                    assert(marker_line.subrange(bc_marker().len() as int,
                        marker_line.len() as int) =~= seq![' '] + tl0);
                    if bc.len() == 0 {
                        assert(trim(tl0) == tl0);
                    }
                    lemma_trim_space_prefix(tl0);
                }
                let stb = ParseState {
                    section: Section::FooterBreaking,
                    body_lines: expected_body_lines(m),
                    breaking_lines: seq![tl0],
                    issues: seq![],
                };
                assert(parse_step(sta, marker_line) == Ok::<ParseState, ParseError>(stb)) by {
                    match m.body {
                        Some(b) => {
                            assert(sta.body_lines.len() > 0);
                            assert(sta.body_lines.last() == empty_line);
                            assert(sta.body_lines.drop_last() =~~= split_lines(b));
                        },
                        None => {
                            assert(sta.body_lines.len() == 0);
                        },
                    }
                }
                // the continuation lines
                let conts = if bc.len() == 0 {
                    Seq::<Seq<char>>::empty()
                } else {
                    split_lines(bc).subrange(1, split_lines(bc).len() as int)
                };
                assert(cb.subrange(2, cb.len() as int) =~~= conts);
                lemma_bc_run(conts, stb);
                assert(stb.breaking_lines + conts =~~= expected_bc_lines(m)) by {
                    if bc.len() > 0 {
                        assert(split_lines(bc).len() > 0) by {
                            lemma_find_char(bc, '\n');
                        }
                        assert(seq![tl0] + conts =~~= split_lines(bc));
                    }
                }
                // chain the three steps
                assert(cb =~~= seq![empty_line] + (seq![marker_line] + conts));
                lemma_parse_rest_concat(seq![empty_line], seq![marker_line] + conts, st1);
                lemma_parse_rest_single(empty_line, st1);
                assert(parse_rest(seq![empty_line], st1) == Ok::<ParseState, ParseError>(sta));
                lemma_parse_rest_concat(seq![marker_line], conts, sta);
                lemma_parse_rest_single(marker_line, sta);
                assert(parse_rest(seq![marker_line], sta) == Ok::<ParseState, ParseError>(stb));
                assert(parse_rest(cb, st1) == parse_rest(seq![marker_line] + conts, sta));
                assert(st2 == ParseState { breaking_lines: stb.breaking_lines + conts, ..stb });
            },
            None => {
                assert(bc_block(m) =~~= Seq::<Seq<char>>::empty());
            },
        }
    }

    // issue section
    let st3 = match m.closed_issues {
        Some(issues) => if issues.len() > 0 {
            (ParseState {
                section: Section::FooterIssue,
                body_lines: expected_body_lines(m),
                breaking_lines: expected_bc_lines(m),
                issues,
            })
        } else {
            st2
        },
        None => st2,
    };
    assert(parse_rest(issue_block(m), st2) == Ok::<ParseState, ParseError>(st3)) by {
        match m.closed_issues {
            Some(issues) => {
                if issues.len() > 0 {
                    let ib = issue_block(m);
                    let n0 = issues[0];
                    let first = closes_marker() + dec_str(n0 as nat);
                    lemma_prefix_concat(closes_marker(), dec_str(n0 as nat));
                    lemma_markers_distinct(dec_str(n0 as nat), Seq::empty());
                    lemma_dec_str_val(n0 as nat);
                    assert(first.subrange(closes_marker().len() as int, first.len() as int)
                        =~= dec_str(n0 as nat));
                    assert(issue_num(first) == Some(n0));
                    let rest_lines = issue_lines(issues).subrange(
                        1,
                        issue_lines(issues).len() as int,
                    );
                    assert(rest_lines =~~= issue_lines(issues.subrange(1, issues.len() as int)));
                    if m.breaking_change is Some {
                        // straight from the breaking footer
                        assert(ib =~~= issue_lines(issues));
                        assert(ib[0] == first);
                        let stc = ParseState {
                            section: Section::FooterIssue,
                            issues: st2.issues.push(n0),
                            ..st2
                        };
                        assert(parse_step(st2, first) == Ok::<ParseState, ParseError>(stc));
                        lemma_issue_run(issues.subrange(1, issues.len() as int), stc);
                        assert(ib.subrange(1, ib.len() as int) =~~= rest_lines);
                        assert(stc.issues + issues.subrange(1, issues.len() as int)
                            =~~= issues);
                        assert(st3 == ParseState {
                            issues: stc.issues + issues.subrange(1, issues.len() as int),
                            ..stc
                        });
                    } else {
                        // one separating empty line first
                        assert(ib =~~= seq![empty_line] + issue_lines(issues));
                        let sta = match m.body {
                            Some(b) => (ParseState {
                                body_lines: st2.body_lines.push(empty_line), ..st2
                            }),
                            None => (ParseState { section: Section::Body, ..st2 }),
                        };
                        assert(parse_step(st2, empty_line) == Ok::<ParseState, ParseError>(sta))
                            by {
                            match m.body {
                                Some(b) => {
                                    assert(st2.section is Body);
                                    assert(plain_line(empty_line));
                                },
                                None => {},
                            }
                        }
                        let stc = ParseState {
                            section: Section::FooterIssue,
                            body_lines: expected_body_lines(m),
                            breaking_lines: seq![],
                            issues: seq![n0],
                        };
                        assert(parse_step(sta, first) == Ok::<ParseState, ParseError>(stc)) by {
                            match m.body {
                                Some(b) => {
                                    assert(sta.body_lines.len() > 0);
                                    assert(sta.body_lines.last() == empty_line);
                                    assert(sta.body_lines.drop_last() =~~= split_lines(b));
                                    assert(st2.issues.push(n0) =~= seq![n0]);
                                },
                                None => {
                                    assert(sta.body_lines.len() == 0);
                                    assert(st2.issues.push(n0) =~= seq![n0]);
                                },
                            }
                        }
                        lemma_issue_run(issues.subrange(1, issues.len() as int), stc);
                        assert(stc.issues + issues.subrange(1, issues.len() as int)
                            =~~= issues);
                        lemma_parse_rest_concat(seq![empty_line], issue_lines(issues), st2);
                        lemma_parse_rest_single(empty_line, st2);
                        assert(parse_rest(seq![empty_line], st2) == Ok::<
                            ParseState,
                            ParseError,
                        >(sta));
                        lemma_parse_rest_concat(seq![first], rest_lines, sta);
                        lemma_parse_rest_single(first, sta);
                        assert(parse_rest(seq![first], sta) == Ok::<ParseState, ParseError>(stc));
                        assert(issue_lines(issues) =~~= seq![first] + rest_lines);
                        assert(st3 == ParseState {
                            issues: stc.issues + issues.subrange(1, issues.len() as int),
                            ..stc
                        });
                    }
                } else {
                    assert(issue_block(m) =~~= Seq::<Seq<char>>::empty());
                }
            },
            None => {
                assert(issue_block(m) =~~= Seq::<Seq<char>>::empty());
            },
        }
    }

    lemma_parse_rest_concat(body_block(m), bc_block(m), st0);
    lemma_parse_rest_concat(body_block(m) + bc_block(m), issue_block(m), st0);
    assert(parse_rest(body_block(m) + bc_block(m), st0) == Ok::<ParseState, ParseError>(st2));
    assert(parse_rest((body_block(m) + bc_block(m)) + issue_block(m), st0) == Ok::<
        ParseState,
        ParseError,
    >(st3));
    assert(body_block(m) + bc_block(m) + issue_block(m) =~~= (body_block(m) + bc_block(m))
        + issue_block(m));
    assert(st3.body_lines == expected_body_lines(m));
    assert(st3.breaking_lines == expected_bc_lines(m));
    assert(st3.issues == expected_issues(m));
}

/// Round trip: the canonical rendering of a well-formed message, parsed
/// against a type set that holds its commit type, yields the message back
/// unchanged.
#[verifier::rlimit(100)]
pub proof fn lemma_format_parse_round_trip(m: MsgView, types: Seq<Seq<char>>)
    requires
        wellformed_msg(m),
        seq_contains_str(types, m.commit_type),
    ensures
        parse_msg(format_msg(m), types) == Ok::<MsgView, ParseError>(m),
{
    lemma_format_as_lines(m);
    lemma_format_lines_clean(m);
    lemma_split_join_lines(format_lines(m));
    let ls = format_lines(m);
    assert(split_lines(format_msg(m)) == ls);
    assert(ls[0] == format_prefix(m));
    lemma_head_round(m, types);
    let hv = HeadView {
        commit_type: m.commit_type,
        scope: m.scope,
        subject: m.subject,
        bang: m.breaking_change is Some,
    };
    lemma_machine_run(m);
    assert(ls.subrange(1, ls.len() as int) =~~= body_block(m) + bc_block(m) + issue_block(m));
    let st = parse_rest(body_block(m) + bc_block(m) + issue_block(m), init_state())->Ok_0;

    // the finished record equals the message
    let fin = finish_parse(hv, st);
    assert(fin.commit_type == m.commit_type);
    assert(fin.scope == m.scope);
    assert(fin.subject == m.subject);
    assert(fin.body == m.body) by {
        match m.body {
            Some(b) => {
                lemma_split_lines_clean(b);
                let bl = split_lines(b);
                assert(bl[bl.len() - 1].len() > 0);
                assert(drop_trailing_empty(bl) == bl);
                lemma_join_split_lines(b);
            },
            None => {
                assert(drop_trailing_empty(st.body_lines).len() == 0);
            },
        }
    }
    assert(fin.breaking_change == m.breaking_change) by {
        match m.breaking_change {
            Some(bc) => {
                if bc.len() == 0 {
                    assert(st.breaking_lines == seq![Seq::<char>::empty()]);
                    assert(join_lines(st.breaking_lines) == Seq::<char>::empty());
                } else {
                    assert(split_lines(bc).len() > 0) by {
                        lemma_find_char(bc, '\n');
                    }
                    lemma_join_split_lines(bc);
                }
            },
            None => {
                assert(st.breaking_lines.len() == 0);
            },
        }
    }
    assert(fin.closed_issues == m.closed_issues) by {
        match m.closed_issues {
            Some(issues) => {
                assert(issues.len() > 0);
            },
            None => {},
        }
    }
    assert(fin == m);
}

/// Invariants of every parsed record: the commit type is one of the valid
/// types, and the subject is non-empty and starts lowercase.
pub proof fn lemma_parse_invariants(s: Seq<char>, types: Seq<Seq<char>>, m: MsgView)
    requires
        parse_msg(s, types) == Ok::<MsgView, ParseError>(m),
    ensures
        seq_contains_str(types, m.commit_type),
        m.subject.len() > 0,
        char_is_lowercase(m.subject[0]),
{
    let lines = split_lines(s);
    match parse_first_line(lines[0], types) {
        Ok(head) => {
            assert(m.commit_type == head.commit_type);
            assert(m.subject == head.subject);
        },
        Err(_) => {
            assert(false);
        },
    }
}

} // verus!

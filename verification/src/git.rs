//! The records the git collaborators hand to the core: commits and tags,
//! as plain values. Timestamps and dates stay the ISO-8601 text that
//! `git log --date=iso-strict` and `git tag --format` print.

use vstd::prelude::*;

use crate::text::{
    chars_to_string, find_char, has_prefix, join_lines, split_lines, split_to_lines, str_chars,
    starts_with_chars, sub_chars,
};

verus! {

/// A git commit.
#[derive(Debug, Clone, Default)]
pub struct GitCommit {
    /// Commit id (hash).
    pub id: String,
    /// Commit timestamp, ISO-8601 text.
    pub timestamp: String,
    /// Author.
    pub author: String,
    /// Message.
    pub message: String,
}

/// A git tag. For an annotated tag, `commit_hash` is the hash of the
/// commit the tag points at, not the tag object's own hash.
#[derive(Debug, Clone, Eq)]
pub struct GitTag {
    /// Tag name.
    pub tag: String,
    /// Tag hash.
    pub hash: String,
    /// Tag commit hash.
    pub commit_hash: String,
    /// Tag date, ISO-8601 text.
    pub date: String,
    /// Tag message.
    pub message: Option<String>,
}

impl PartialEq for GitTag {
    /// Two tags are the same tag when their names agree.
    fn eq(&self, other: &Self) -> (r: bool) {
        self.tag == other.tag
    }
}

impl vstd::std_specs::cmp::PartialEqSpecImpl for GitTag {
    open spec fn obeys_eq_spec() -> bool {
        true
    }

    open spec fn eq_spec(&self, other: &Self) -> bool {
        self.tag@ == other.tag@
    }
}

/// An exact copy of a commit record.
pub fn copy_commit(c: &GitCommit) -> (r: GitCommit)
    ensures
        r == *c,
{
    GitCommit {
        id: c.id.clone(),
        timestamp: c.timestamp.clone(),
        author: c.author.clone(),
        message: c.message.clone(),
    }
}

/// An exact copy of a tag record.
pub fn copy_tag(t: &GitTag) -> (r: GitTag)
    ensures
        r == *t,
{
    GitTag {
        tag: t.tag.clone(),
        hash: t.hash.clone(),
        commit_hash: t.commit_hash.clone(),
        date: t.date.clone(),
        message: match &t.message {
            Some(m) => Some(m.clone()),
            None => None,
        },
    }
}

/// The view of a commit record.
#[verifier::ext_equal]
pub ghost struct GitCommitV {
    pub id: Seq<char>,
    pub timestamp: Seq<char>,
    pub author: Seq<char>,
    pub message: Seq<char>,
}

impl View for GitCommit {
    type V = GitCommitV;

    open spec fn view(&self) -> GitCommitV {
        GitCommitV {
            id: self.id@,
            timestamp: self.timestamp@,
            author: self.author@,
            message: self.message@,
        }
    }
}

impl DeepView for GitCommit {
    type V = GitCommitV;

    open spec fn deep_view(&self) -> GitCommitV {
        self.view()
    }
}

/// The state of the log scan: the commits flushed so far and the record
/// under construction, its message as collected lines.
#[verifier::ext_equal]
pub ghost struct LogScanV {
    pub done: Seq<GitCommitV>,
    pub id: Seq<char>,
    pub timestamp: Seq<char>,
    pub author: Seq<char>,
    pub msg_lines: Seq<Seq<char>>,
}

/// The empty record under construction.
pub open spec fn log_scan_init(done: Seq<GitCommitV>) -> LogScanV {
    LogScanV {
        done,
        id: Seq::empty(),
        timestamp: Seq::empty(),
        author: Seq::empty(),
        msg_lines: seq![],
    }
}

/// The text after a field marker.
pub open spec fn after_marker(line: Seq<char>, marker: Seq<char>) -> Seq<char> {
    line.subrange(marker.len() as int, line.len() as int)
}

/// One line of `git log` output with the
/// `hash:%H%nts:%ad%nauthor:%an%nmessage:%B----------` format: field
/// markers set the fields, a separator line flushes the record, and any
/// other line continues the message.
pub open spec fn log_scan_step(st: LogScanV, line: Seq<char>) -> LogScanV {
    if has_prefix(line, "hash:"@) {
        LogScanV { id: after_marker(line, "hash:"@), ..st }
    } else if has_prefix(line, "ts:"@) {
        LogScanV { timestamp: after_marker(line, "ts:"@), ..st }
    } else if has_prefix(line, "author:"@) {
        LogScanV { author: after_marker(line, "author:"@), ..st }
    } else if has_prefix(line, "message:"@) {
        LogScanV { msg_lines: st.msg_lines.push(after_marker(line, "message:"@)), ..st }
    } else if has_prefix(line, "----------"@) {
        log_scan_init(
            st.done.push(
                GitCommitV {
                    id: st.id,
                    timestamp: st.timestamp,
                    author: st.author,
                    message: join_lines(st.msg_lines),
                },
            ),
        )
    } else {
        LogScanV { msg_lines: st.msg_lines.push(line), ..st }
    }
}

/// The scan over all lines.
pub open spec fn log_scan(lines: Seq<Seq<char>>, i: int, st: LogScanV) -> LogScanV
    decreases lines.len() - i,
{
    if i < 0 || i >= lines.len() {
        st
    } else {
        log_scan(lines, i + 1, log_scan_step(st, lines[i]))
    }
}

/// The commits that `git log` output holds. Message lines are joined with
/// line feeds, so the message keeps its embedded newlines.
pub open spec fn parsed_log(s: Seq<char>) -> Seq<GitCommitV> {
    log_scan(split_lines(s), 0, log_scan_init(seq![])).done
}

/// Parses `git log` output, as printed with the
/// `hash:%H%nts:%ad%nauthor:%an%nmessage:%B----------` format and
/// ISO-strict dates, into commit records.
#[verifier::loop_isolation(false)]
pub fn parse_git_log(s: &str) -> (r: Vec<GitCommit>)
    ensures
        r.deep_view() == parsed_log(s@),
{
    proof {
        reveal_strlit("hash:");
        reveal_strlit("ts:");
        reveal_strlit("author:");
        reveal_strlit("message:");
        reveal_strlit("----------");
    }
    let cs = str_chars(s);
    let lines = split_to_lines(&cs);
    let ghost lseq = lines.deep_view();
    let m_hash = str_chars("hash:");
    let m_ts = str_chars("ts:");
    let m_author = str_chars("author:");
    let m_message = str_chars("message:");
    let m_sep = str_chars("----------");

    let mut done: Vec<GitCommit> = Vec::new();
    let mut id = String::new();
    let mut timestamp = String::new();
    let mut author = String::new();
    let mut msg_lines: Vec<Vec<char>> = Vec::new();
    proof {
        assert(done.deep_view() =~~= Seq::<GitCommitV>::empty());
        assert(msg_lines.deep_view() =~~= Seq::<Seq<char>>::empty());
        assert(log_scan_state(done.deep_view(), id@, timestamp@, author@, msg_lines.deep_view())
            =~~= log_scan_init(seq![]));
    }
    let mut i: usize = 0;
    while i < lines.len()
        invariant
            i <= lseq.len(),
            log_scan(lseq, 0, log_scan_init(seq![])) == log_scan(
                lseq,
                i as int,
                log_scan_state(done.deep_view(), id@, timestamp@, author@,
                    msg_lines.deep_view()),
            ),
        decreases lseq.len() - i,
    {
        let ghost st_pre = log_scan_state(done.deep_view(), id@, timestamp@, author@,
            msg_lines.deep_view());
        let ghost lv = lseq[i as int];
        proof {
            assert(lines@[i as int]@ =~= lines@[i as int].deep_view());
        }
        let line = &lines[i];
        if starts_with_chars(line, &m_hash) {
            let rest = sub_chars(line, m_hash.len(), line.len());
            id = chars_to_string(&rest);
        } else if starts_with_chars(line, &m_ts) {
            let rest = sub_chars(line, m_ts.len(), line.len());
            timestamp = chars_to_string(&rest);
        } else if starts_with_chars(line, &m_author) {
            let rest = sub_chars(line, m_author.len(), line.len());
            author = chars_to_string(&rest);
        } else if starts_with_chars(line, &m_message) {
            let ghost pre = msg_lines.deep_view();
            let rest = sub_chars(line, m_message.len(), line.len());
            msg_lines.push(rest);
            proof {
                assert(msg_lines.deep_view() =~~= pre.push(after_marker(lv, "message:"@)));
            }
        } else if starts_with_chars(line, &m_sep) {
            let ghost pre = done.deep_view();
            let message = chars_to_string(&crate::text::join_chars(&msg_lines));
            done.push(GitCommit { id, timestamp, author, message });
            proof {
                assert(done.deep_view() =~~= pre.push(
                    GitCommitV {
                        id: st_pre.id,
                        timestamp: st_pre.timestamp,
                        author: st_pre.author,
                        message: join_lines(st_pre.msg_lines),
                    },
                ));
            }
            id = String::new();
            timestamp = String::new();
            author = String::new();
            msg_lines = Vec::new();
            proof {
                assert(msg_lines.deep_view() =~~= Seq::<Seq<char>>::empty());
            }
        } else {
            let ghost pre = msg_lines.deep_view();
            let owned = sub_chars(line, 0, line.len());
            proof {
                assert(owned@ =~= lv);
            }
            msg_lines.push(owned);
            proof {
                assert(msg_lines.deep_view() =~~= pre.push(lv));
            }
        }
        proof {
            let st_post = log_scan_state(done.deep_view(), id@, timestamp@, author@,
                msg_lines.deep_view());
            assert(log_scan_step(st_pre, lv) =~~= st_post);
            lemma_log_scan_unfold(lseq, i as int, st_pre);
        }
        i = i + 1;
    }
    proof {
        assert(parsed_log(s@) == done.deep_view());
    }
    done
}

/// A scan state from its parts.
pub open spec fn log_scan_state(
    done: Seq<GitCommitV>,
    id: Seq<char>,
    timestamp: Seq<char>,
    author: Seq<char>,
    msg_lines: Seq<Seq<char>>,
) -> LogScanV {
    LogScanV { done, id, timestamp, author, msg_lines }
}

proof fn lemma_log_scan_unfold(lines: Seq<Seq<char>>, i: int, st: LogScanV)
    requires
        0 <= i < lines.len(),
    ensures
        log_scan(lines, i, st) == log_scan(lines, i + 1, log_scan_step(st, lines[i])),
{
}

/// What one line of `git tag --list` output with the
/// `%(refname:short)|%(creatordate:iso-strict)|%(objectname)` format
/// holds: the tag name, the date and the hash; `None` when the line does
/// not have its two separators.
pub open spec fn tag_line_parts(line: Seq<char>) -> Option<(Seq<char>, Seq<char>, Seq<char>)> {
    let a = find_char(line, '|') as int;
    if a >= line.len() {
        None
    } else {
        let rest = line.subrange(a + 1, line.len() as int);
        let b = find_char(rest, '|') as int;
        if b >= rest.len() {
            None
        } else {
            Some(
                (
                    line.subrange(0, a),
                    rest.subrange(0, b),
                    rest.subrange(b + 1, rest.len() as int),
                ),
            )
        }
    }
}

/// Splits one line of tag-list output into name, date and hash.
pub fn parse_tag_line(line: &str) -> (r: Option<(String, String, String)>)
    ensures
        (match r {
            Some(p) => tag_line_parts(line@) == Some((p.0@, p.1@, p.2@)),
            None => tag_line_parts(line@) is None,
        }),
{
    let cs = str_chars(line);
    let a = crate::text::find_char_in(&cs, '|');
    if a == cs.len() {
        return None;
    }
    let rest = sub_chars(&cs, a + 1, cs.len());
    let b = crate::text::find_char_in(&rest, '|');
    if b == rest.len() {
        return None;
    }
    let name = sub_chars(&cs, 0, a);
    let date = sub_chars(&rest, 0, b);
    let hash = sub_chars(&rest, b + 1, rest.len());
    Some((chars_to_string(&name), chars_to_string(&date), chars_to_string(&hash)))
}

/// The view of a tag record.
#[verifier::ext_equal]
pub ghost struct GitTagV {
    pub tag: Seq<char>,
    pub hash: Seq<char>,
    pub commit_hash: Seq<char>,
    pub date: Seq<char>,
    pub message: Option<Seq<char>>,
}

impl View for GitTag {
    type V = GitTagV;

    open spec fn view(&self) -> GitTagV {
        GitTagV {
            tag: self.tag@,
            hash: self.hash@,
            commit_hash: self.commit_hash@,
            date: self.date@,
            message: match self.message {
                Some(m) => Some(m@),
                None => None,
            },
        }
    }
}

impl DeepView for GitTag {
    type V = GitTagV;

    open spec fn deep_view(&self) -> GitTagV {
        self.view()
    }
}

/// Whether `x` ends the sequence.
pub open spec fn has_suffix(s: Seq<char>, x: Seq<char>) -> bool {
    x.len() <= s.len() && s.subrange(s.len() - x.len(), s.len() as int) == x
}

/// What one line of `git show-ref --tags --dereference` output holds when
/// it is a dereferenced annotated tag, `HASH refs/tags/NAME^{}`: the tag's
/// short name and the commit hash; `None` for any other line.
pub open spec fn deref_line_parts(line: Seq<char>) -> Option<(Seq<char>, Seq<char>)> {
    let sp = find_char(line, ' ') as int;
    if sp >= line.len() {
        None
    } else {
        let hash = line.subrange(0, sp);
        let r = line.subrange(sp + 1, line.len() as int);
        if has_prefix(r, "refs/tags/"@) && has_suffix(r, "^{}"@) && "refs/tags/"@.len() + "^{}"@.len()
            <= r.len() {
            Some((r.subrange("refs/tags/"@.len() as int, r.len() - "^{}"@.len()), hash))
        } else {
            None
        }
    }
}

/// The dereferenced annotated tags that show-ref output names, in order.
pub open spec fn deref_pairs(lines: Seq<Seq<char>>, i: int) -> Seq<(Seq<char>, Seq<char>)>
    decreases lines.len() - i,
{
    if i < 0 || i >= lines.len() {
        Seq::empty()
    } else {
        (match deref_line_parts(lines[i]) {
            Some(p) => seq![p],
            None => Seq::empty(),
        }) + deref_pairs(lines, i + 1)
    }
}

/// The first commit hash recorded for a tag name, if any.
pub open spec fn lookup_pair(pairs: Seq<(Seq<char>, Seq<char>)>, name: Seq<char>) -> Option<
    Seq<char>,
>
    decreases pairs.len(),
{
    if pairs.len() == 0 {
        None
    } else if pairs[0].0 == name {
        Some(pairs[0].1)
    } else {
        lookup_pair(pairs.subrange(1, pairs.len() as int), name)
    }
}

/// The tag a list line yields, given the dereferenced annotated tags: an
/// annotated tag's commit hash comes from its dereferenced entry, a
/// lightweight tag's is its own hash.
pub open spec fn tag_of_line(line: Seq<char>, pairs: Seq<(Seq<char>, Seq<char>)>) -> Option<
    GitTagV,
> {
    match tag_line_parts(line) {
        Some(p) => Some(
            GitTagV {
                tag: p.0,
                hash: p.2,
                commit_hash: match lookup_pair(pairs, p.0) {
                    Some(h) => h,
                    None => p.2,
                },
                date: p.1,
                message: None,
            },
        ),
        None => None,
    }
}

/// The tags of the tag-list output, in order; malformed lines are skipped.
pub open spec fn tags_of_output(lines: Seq<Seq<char>>, i: int, pairs: Seq<(Seq<char>, Seq<char>)>)
    -> Seq<GitTagV>
    decreases lines.len() - i,
{
    if i < 0 || i >= lines.len() {
        Seq::empty()
    } else {
        (match tag_of_line(lines[i], pairs) {
            Some(tv) => seq![tv],
            None => Seq::empty(),
        }) + tags_of_output(lines, i + 1, pairs)
    }
}

/// Assembles the tag records from the output of `git tag --list` with the
/// `%(refname:short)|%(creatordate:iso-strict)|%(objectname)` format and
/// the output of `git show-ref --tags --dereference`.
#[verifier::loop_isolation(false)]
pub fn assemble_tags(tag_list: &str, show_ref: &str) -> (r: Vec<GitTag>)
    ensures
        r.deep_view() == tags_of_output(
            split_lines(tag_list@),
            0,
            deref_pairs(split_lines(show_ref@), 0),
        ),
{
    proof {
        reveal_strlit("refs/tags/");
        reveal_strlit("^{}");
    }
    // collect the dereferenced annotated tags
    let ref_cs = str_chars(show_ref);
    let ref_lines = split_to_lines(&ref_cs);
    let ghost rlines = ref_lines.deep_view();
    let ghost pairs = deref_pairs(rlines, 0);
    let m_tags = str_chars("refs/tags/");
    let m_deref = str_chars("^{}");
    let mut derefs: Vec<(String, String)> = Vec::new();
    let mut i: usize = 0;
    while i < ref_lines.len()
        invariant
            i <= rlines.len(),
            pairs_of(derefs@) + deref_pairs(rlines, i as int) == pairs,
        decreases rlines.len() - i,
    {
        let ghost pre = pairs_of(derefs@);
        let ghost lv = rlines[i as int];
        proof {
            assert(ref_lines@[i as int]@ =~= ref_lines@[i as int].deep_view());
        }
        let line = &ref_lines[i];
        let sp = crate::text::find_char_in(line, ' ');
        if sp < line.len() {
            let hash = sub_chars(line, 0, sp);
            let rest = sub_chars(line, sp + 1, line.len());
            if starts_with_chars(&rest, &m_tags) && rest.len() >= m_tags.len() + m_deref.len() {
                let tail = sub_chars(&rest, rest.len() - m_deref.len(), rest.len());
                if crate::text::eq_chars(&tail, &m_deref) {
                    let name = sub_chars(&rest, m_tags.len(), rest.len() - m_deref.len());
                    derefs.push((chars_to_string(&name), chars_to_string(&hash)));
                    proof {
                        assert(has_suffix(rest@, "^{}"@));
                        assert(deref_line_parts(lv) == Some((name@, hash@)));
                        assert(pairs_of(derefs@) =~~= pre.push((name@, hash@)));
                    }
                } else {
                    proof {
                        assert(!has_suffix(rest@, "^{}"@));
                        assert(deref_line_parts(lv) is None);
                    }
                }
            } else {
                proof {
                    assert(deref_line_parts(lv) is None) by {
                        if has_prefix(rest@, "refs/tags/"@) && has_suffix(rest@, "^{}"@) {
                            assert(rest@.len() >= m_tags@.len() + m_deref@.len() || true);
                        }
                    }
                }
            }
        }
        proof {
            assert((match deref_line_parts(lv) {
                Some(p) => seq![p],
                None => Seq::<(Seq<char>, Seq<char>)>::empty(),
            }) + deref_pairs(rlines, i as int + 1) =~~= deref_pairs(rlines, i as int));
            assert(pairs_of(derefs@) + deref_pairs(rlines, i as int + 1) =~~= pairs);
        }
        i = i + 1;
    }
    proof {
        assert(deref_pairs(rlines, rlines.len() as int) =~~= Seq::<(Seq<char>, Seq<char>)>::empty());
        assert(pairs_of(derefs@) =~~= pairs);
    }

    // assemble the tags
    let cs = str_chars(tag_list);
    let lines = split_to_lines(&cs);
    let ghost tlines = lines.deep_view();
    let mut r: Vec<GitTag> = Vec::new();
    let mut k: usize = 0;
    proof {
        assert(r.deep_view() =~~= Seq::<GitTagV>::empty());
    }
    while k < lines.len()
        invariant
            k <= tlines.len(),
            r.deep_view() + tags_of_output(tlines, k as int, pairs) == tags_of_output(
                tlines,
                0,
                pairs,
            ),
        decreases tlines.len() - k,
    {
        let ghost pre = r.deep_view();
        let ghost lv = tlines[k as int];
        proof {
            assert(lines@[k as int]@ =~= lines@[k as int].deep_view());
        }
        let line_s = chars_to_string(&lines[k]);
        match parse_tag_line(line_s.as_str()) {
            Some(p) => {
                let commit_hash = match lookup_deref(&derefs, p.0.as_str()) {
                    Some(h) => h,
                    None => p.2.clone(),
                };
                let tag = GitTag {
                    tag: p.0,
                    hash: p.2,
                    commit_hash,
                    date: p.1,
                    message: None,
                };
                proof {
                    assert(tag_of_line(lv, pairs) == Some(tag.deep_view()));
                }
                r.push(tag);
                proof {
                    assert(r.deep_view() =~~= pre.push(tag_of_line(lv, pairs)->Some_0));
                }
            },
            None => {
                proof {
                    assert(tag_of_line(lv, pairs) is None);
                }
            },
        }
        proof {
            assert((match tag_of_line(lv, pairs) {
                Some(tv) => seq![tv],
                None => Seq::<GitTagV>::empty(),
            }) + tags_of_output(tlines, k as int + 1, pairs) =~~= tags_of_output(
                tlines,
                k as int,
                pairs,
            ));
            assert(r.deep_view() + tags_of_output(tlines, k as int + 1, pairs)
                =~~= tags_of_output(tlines, 0, pairs));
        }
        k = k + 1;
    }
    proof {
        assert(tags_of_output(tlines, tlines.len() as int, pairs) =~~= Seq::<GitTagV>::empty());
        assert(r.deep_view() =~~= tags_of_output(tlines, 0, pairs));
    }
    r
}

/// The views of collected name-hash pairs.
pub open spec fn pairs_of(v: Seq<(String, String)>) -> Seq<(Seq<char>, Seq<char>)> {
    Seq::new(v.len(), |i: int| (v[i].0@, v[i].1@))
}

/// The first commit hash collected for a tag name.
fn lookup_deref(derefs: &Vec<(String, String)>, name: &str) -> (r: Option<String>)
    ensures
        (match r {
            Some(h) => lookup_pair(pairs_of(derefs@), name@) == Some(h@),
            None => lookup_pair(pairs_of(derefs@), name@) is None,
        }),
{
    let mut i: usize = 0;
    while i < derefs.len()
        invariant
            i <= derefs@.len(),
            forall|j: int| 0 <= j < i ==> pairs_of(derefs@)[j].0 != name@,
        decreases derefs@.len() - i,
    {
        if crate::config::str_eq(derefs[i].0.as_str(), name) {
            proof {
                assert(pairs_of(derefs@)[i as int].0 == name@);
                lemma_lookup_pair_at(pairs_of(derefs@), name@, i as int);
            }
            return Some(derefs[i].1.clone());
        }
        proof {
            assert(pairs_of(derefs@)[i as int].0 == derefs@[i as int].0@);
        }
        i = i + 1;
    }
    proof {
        lemma_lookup_pair_absent(pairs_of(derefs@), name@);
    }
    None
}

proof fn lemma_lookup_pair_at(pairs: Seq<(Seq<char>, Seq<char>)>, name: Seq<char>, k: int)
    requires
        0 <= k < pairs.len(),
        forall|j: int| 0 <= j < k ==> (#[trigger] pairs[j]).0 != name,
        pairs[k].0 == name,
    ensures
        lookup_pair(pairs, name) == Some(pairs[k].1),
    decreases k,
{
    if k == 0 {
    } else {
        let t = pairs.subrange(1, pairs.len() as int);
        assert forall|j: int| 0 <= j < k - 1 implies (#[trigger] t[j]).0 != name by {
            assert(t[j] == pairs[j + 1]);
        }
        assert(t[k - 1] == pairs[k]);
        lemma_lookup_pair_at(t, name, k - 1);
    }
}

proof fn lemma_lookup_pair_absent(pairs: Seq<(Seq<char>, Seq<char>)>, name: Seq<char>)
    requires
        forall|j: int| 0 <= j < pairs.len() ==> (#[trigger] pairs[j]).0 != name,
    ensures
        lookup_pair(pairs, name) is None,
    decreases pairs.len(),
{
    if pairs.len() > 0 {
        let t = pairs.subrange(1, pairs.len() as int);
        assert forall|j: int| 0 <= j < t.len() implies (#[trigger] t[j]).0 != name by {
            assert(t[j] == pairs[j + 1]);
        }
        lemma_lookup_pair_absent(t, name);
    }
}

} // verus!

//! Changelog construction: the commit history, walked newest first, is cut
//! into releases at the commits that release tags point at; each commit is
//! parsed and bucketed under its type's changelog section, unparseable
//! commits under a synthetic `uncategorized` section; groups take the
//! order the changelog configuration declares, and neighbouring releases
//! are linked by comparison URLs.

use vstd::prelude::*;

use crate::config::{keys_view, pairs_view, Config};
use crate::conventional::{parse_msg, seq_contains_str, ConventionalCommitMessage};
use crate::git::{GitCommit, GitTag};
use crate::text::{
    char_upper_string, chars_to_string, split_lines, split_to_lines, str_chars, sub_chars,
    upper_of,
};
use crate::version::{tag_parseable, tag_version, tuple_version, version_str};
use vstd::string::StringExecFns;

verus! {

/// One line of a release group.
pub struct ChangeLogCommit {
    /// Commit type key.
    pub commit_type: String,
    /// Display prefix, currently empty.
    pub prefix: String,
    /// Display subject.
    pub subject: String,
    /// Markdown link to the commit, empty for uncategorized entries.
    pub commit_link: String,
}

/// The entries of one commit type within a release.
pub struct ChangeLogReleaseGroup {
    /// Commit type key.
    pub key: String,
    /// Section title.
    pub title: String,
    /// Entries, newest first.
    pub commits: Vec<ChangeLogCommit>,
}

/// One release of the changelog.
pub struct ChangeLogRelease {
    /// Release version text.
    pub version: String,
    /// Release date, `YYYY-MM-DD`.
    pub date: String,
    /// Comparison link to the previous release.
    pub history_url: String,
    /// Commit groups, in configured section order.
    pub groups: Vec<ChangeLogReleaseGroup>,
}

/// View of an entry.
#[verifier::ext_equal]
pub ghost struct EntryV {
    pub commit_type: Seq<char>,
    pub prefix: Seq<char>,
    pub subject: Seq<char>,
    pub commit_link: Seq<char>,
}

/// View of a group.
#[verifier::ext_equal]
pub ghost struct GroupV {
    pub key: Seq<char>,
    pub title: Seq<char>,
    pub commits: Seq<EntryV>,
}

/// View of a release.
#[verifier::ext_equal]
pub ghost struct ReleaseV {
    pub version: Seq<char>,
    pub date: Seq<char>,
    pub history_url: Seq<char>,
    pub groups: Seq<GroupV>,
}

impl View for ChangeLogCommit {
    type V = EntryV;

    open spec fn view(&self) -> EntryV {
        EntryV {
            commit_type: self.commit_type@,
            prefix: self.prefix@,
            subject: self.subject@,
            commit_link: self.commit_link@,
        }
    }
}

impl DeepView for ChangeLogCommit {
    type V = EntryV;

    open spec fn deep_view(&self) -> EntryV {
        self.view()
    }
}

impl View for ChangeLogReleaseGroup {
    type V = GroupV;

    open spec fn view(&self) -> GroupV {
        GroupV { key: self.key@, title: self.title@, commits: self.commits.deep_view() }
    }
}

impl DeepView for ChangeLogReleaseGroup {
    type V = GroupV;

    open spec fn deep_view(&self) -> GroupV {
        self.view()
    }
}

impl View for ChangeLogRelease {
    type V = ReleaseV;

    open spec fn view(&self) -> ReleaseV {
        ReleaseV {
            version: self.version@,
            date: self.date@,
            history_url: self.history_url@,
            groups: self.groups.deep_view(),
        }
    }
}

impl DeepView for ChangeLogRelease {
    type V = ReleaseV;

    open spec fn deep_view(&self) -> ReleaseV {
        self.view()
    }
}

/// What chrono computes for an RFC 3339 timestamp: the calendar date of
/// the instant in UTC, as `YYYY-MM-DD` text; `None` when the text does
/// not parse as RFC 3339.
pub uninterp spec fn utc_day_of(s: Seq<char>) -> Option<Seq<char>>;

/// Relies on chrono: DateTime::parse_from_rfc3339, then with_timezone to
/// Utc, then format("%Y-%m-%d"): the UTC day of the given timestamp, a
/// function of the text alone.
#[verifier::external_body]
fn utc_day(s: &str) -> (r: Option<String>)
    ensures
        (match r {
            Some(d) => utc_day_of(s@) == Some(d@),
            None => utc_day_of(s@) is None,
        }),
{
    match chrono::DateTime::parse_from_rfc3339(s) {
        Ok(d) => Some(d.with_timezone(&chrono::Utc).format("%Y-%m-%d").to_string()),
        Err(_) => None,
    }
}

/// The day a tag date displays as: its UTC day, or the raw text when it
/// is not an RFC 3339 timestamp.
pub open spec fn day_display(s: Seq<char>) -> Seq<char> {
    match utc_day_of(s) {
        Some(d) => d,
        None => s,
    }
}

fn display_day(s: &str) -> (r: String)
    ensures
        r@ == day_display(s@),
{
    match utc_day(s) {
        Some(d) => d,
        None => s.to_owned(),
    }
}

/// A subject with its first character mapped to uppercase.
pub open spec fn upper_first(s: Seq<char>) -> Seq<char> {
    if s.len() == 0 {
        s
    } else {
        upper_of(s[0]) + s.subrange(1, s.len() as int)
    }
}

fn uppercase_first(s: &String) -> (r: String)
    ensures
        r@ == upper_first(s@),
{
    let cs = str_chars(s.as_str());
    if cs.len() == 0 {
        return String::new();
    }
    let mut r = char_upper_string(cs[0]);
    let rest = sub_chars(&cs, 1, cs.len());
    let rest_s = chars_to_string(&rest);
    r.append(rest_s.as_str());
    r
}

/// The markdown link of a commit: `[#<hash5>](<origin>/commit/<id>)`,
/// where `<hash5>` is the first five characters of the id.
pub open spec fn commit_link_of(origin: Seq<char>, id: Seq<char>) -> Seq<char> {
    let short = if id.len() <= 5 {
        id
    } else {
        id.subrange(0, 5)
    };
    "[#"@ + short + "]("@ + origin + "/commit/"@ + id + ")"@
}

fn make_commit_link(origin: &str, id: &str) -> (r: String)
    ensures
        r@ == commit_link_of(origin@, id@),
{
    let idc = str_chars(id);
    let short = if idc.len() <= 5 {
        sub_chars(&idc, 0, idc.len())
    } else {
        sub_chars(&idc, 0, 5)
    };
    let short_s = chars_to_string(&short);
    let mut r = "[#".to_owned();
    r.append(short_s.as_str());
    r.append("](");
    r.append(origin);
    r.append("/commit/");
    r.append(id);
    proof {
        assert(idc@ =~= id@);
        if id@.len() <= 5 {
            assert(short@ =~= id@);
        }
    }
    r.append(")");
    r
}

/// The first line of a raw message; empty when the message is empty.
pub open spec fn first_line_of(s: Seq<char>) -> Seq<char> {
    if split_lines(s).len() > 0 {
        split_lines(s)[0]
    } else {
        Seq::empty()
    }
}

fn message_first_line(s: &str) -> (r: String)
    ensures
        r@ == first_line_of(s@),
{
    let cs = str_chars(s);
    let lines = split_to_lines(&cs);
    if lines.len() > 0 {
        proof {
            assert(lines@[0]@ =~= lines.deep_view()[0]);
        }
        chars_to_string(&lines[0])
    } else {
        String::new()
    }
}

/// The first release tag pointing at the given commit, if any.
pub open spec fn find_release_tag(tags: Seq<GitTag>, id: Seq<char>) -> Option<GitTag>
    decreases tags.len(),
{
    if tags.len() == 0 {
        None
    } else if tag_parseable(tags[0]) && tags[0].commit_hash@ == id {
        Some(tags[0])
    } else {
        find_release_tag(tags.subrange(1, tags.len() as int), id)
    }
}

/// The title the changelog sections give a commit type; `None` when the
/// type is not included in the changelog.
pub open spec fn title_for(sections: Seq<(Seq<char>, Seq<char>)>, key: Seq<char>) -> Option<
    Seq<char>,
>
    decreases sections.len(),
{
    if sections.len() == 0 {
        None
    } else if sections[0].0 == key {
        Some(sections[0].1)
    } else {
        title_for(sections.subrange(1, sections.len() as int), key)
    }
}

/// Where a commit goes: its group key, the group title, and the entry; or
/// nothing when its type is excluded from the changelog. An unparseable
/// commit goes to the synthetic `uncategorized` group, with the first
/// line of its raw message as display text and no commit link.
pub open spec fn commit_event(
    c: GitCommit,
    types: Seq<Seq<char>>,
    sections: Seq<(Seq<char>, Seq<char>)>,
    origin: Seq<char>,
) -> Option<(Seq<char>, Seq<char>, EntryV)> {
    match parse_msg(c.message@, types) {
        Ok(m) => match title_for(sections, m.commit_type) {
            Some(title) => Some(
                (
                    m.commit_type,
                    title,
                    EntryV {
                        commit_type: m.commit_type,
                        prefix: Seq::empty(),
                        subject: upper_first(m.subject),
                        commit_link: commit_link_of(origin, c.id@),
                    },
                ),
            ),
            None => None,
        },
        Err(_) => Some(
            (
                "uncategorized"@,
                "Uncategorized"@,
                EntryV {
                    commit_type: "uncategorized"@,
                    prefix: Seq::empty(),
                    subject: first_line_of(c.message@),
                    commit_link: Seq::empty(),
                },
            ),
        ),
    }
}

/// Index of the group with the given key, or the group count if none.
pub open spec fn find_group(groups: Seq<GroupV>, key: Seq<char>) -> int
    decreases groups.len(),
{
    if groups.len() == 0 {
        0
    } else if groups[0].key == key {
        0
    } else {
        1 + find_group(groups.subrange(1, groups.len() as int), key)
    }
}

/// An entry appended to the current (last) release: to its group with the
/// given key, or to a fresh group at the end.
pub open spec fn append_entry(
    rels: Seq<ReleaseV>,
    key: Seq<char>,
    title: Seq<char>,
    e: EntryV,
) -> Seq<ReleaseV>
    recommends
        rels.len() > 0,
{
    let last = rels[rels.len() - 1];
    let gi = find_group(last.groups, key);
    let groups = if gi < last.groups.len() {
        last.groups.update(
            gi,
            GroupV { commits: last.groups[gi].commits.push(e), ..last.groups[gi] },
        )
    } else {
        last.groups.push(GroupV { key, title, commits: seq![e] })
    };
    rels.update(rels.len() - 1, ReleaseV { groups, ..last })
}

/// A fresh, empty release opened at a tag boundary.
pub open spec fn release_at(t: GitTag) -> ReleaseV {
    ReleaseV {
        version: version_str(tuple_version(tag_version(t))),
        date: day_display(t.date@),
        history_url: Seq::empty(),
        groups: seq![],
    }
}

/// One step of the changelog walk: a tagged commit first seals the
/// current release and opens the tag's own; then the commit is bucketed.
pub open spec fn build_step(
    rels: Seq<ReleaseV>,
    c: GitCommit,
    tags: Seq<GitTag>,
    types: Seq<Seq<char>>,
    sections: Seq<(Seq<char>, Seq<char>)>,
    origin: Seq<char>,
) -> Seq<ReleaseV> {
    let rels1 = match find_release_tag(tags, c.id@) {
        Some(t) => rels.push(release_at(t)),
        None => rels,
    };
    match commit_event(c, types, sections, origin) {
        Some((key, title, e)) => append_entry(rels1, key, title, e),
        None => rels1,
    }
}

/// The changelog walk over the history, newest first.
pub open spec fn build_fold(
    commits: Seq<GitCommit>,
    i: int,
    rels: Seq<ReleaseV>,
    tags: Seq<GitTag>,
    types: Seq<Seq<char>>,
    sections: Seq<(Seq<char>, Seq<char>)>,
    origin: Seq<char>,
) -> Seq<ReleaseV>
    decreases commits.len() - i,
{
    if i < 0 || i >= commits.len() {
        rels
    } else {
        build_fold(
            commits,
            i + 1,
            build_step(rels, commits[i], tags, types, sections, origin),
            tags,
            types,
            sections,
            origin,
        )
    }
}

/// The pending release the walk starts with.
pub open spec fn initial_release(next_version: Seq<char>, today: Seq<char>) -> ReleaseV {
    ReleaseV { version: next_version, date: today, history_url: Seq::empty(), groups: seq![] }
}

/// The comparison link between two neighbouring releases.
pub open spec fn compare_url(origin: Seq<char>, from: Seq<char>, to: Seq<char>) -> Seq<char> {
    origin + "/compare/"@ + from + "..."@ + (if to == "Unreleased"@ {
        "HEAD"@
    } else {
        to
    })
}

/// The groups a release displays: one group per configured section, in
/// section order, then the `uncategorized` group last unless the sections
/// already name it.
pub open spec fn groups_in_order(groups: Seq<GroupV>, keys: Seq<Seq<char>>, i: int) -> Seq<GroupV>
    decreases keys.len() - i,
{
    if i < 0 || i >= keys.len() {
        Seq::empty()
    } else {
        (if find_group(groups, keys[i]) < groups.len() {
            seq![groups[find_group(groups, keys[i])]]
        } else {
            Seq::empty()
        }) + groups_in_order(groups, keys, i + 1)
    }
}

/// All groups of a release, ordered.
pub open spec fn ordered_groups(groups: Seq<GroupV>, keys: Seq<Seq<char>>) -> Seq<GroupV> {
    groups_in_order(groups, keys, 0) + (if !seq_contains_str(keys, "uncategorized"@)
        && find_group(groups, "uncategorized"@) < groups.len() {
        seq![groups[find_group(groups, "uncategorized"@)]]
    } else {
        Seq::empty()
    })
}

/// The finished changelog: every release ordered, and every release but
/// the oldest linked to its successor by a comparison URL.
pub open spec fn finalize_releases(
    rels: Seq<ReleaseV>,
    keys: Seq<Seq<char>>,
    origin: Seq<char>,
) -> Seq<ReleaseV> {
    Seq::new(
        rels.len(),
        |i: int|
            ReleaseV {
                version: rels[i].version,
                date: rels[i].date,
                history_url: if i < rels.len() - 1 {
                    compare_url(origin, rels[i + 1].version, rels[i].version)
                } else {
                    rels[i].history_url
                },
                groups: ordered_groups(rels[i].groups, keys),
            },
    )
}

/// What building the changelog yields.
pub open spec fn build_releases_spec(
    commits: Seq<GitCommit>,
    tags: Seq<GitTag>,
    types: Seq<Seq<char>>,
    sections: Seq<(Seq<char>, Seq<char>)>,
    origin: Seq<char>,
    next_version: Seq<char>,
    today: Seq<char>,
) -> Seq<ReleaseV> {
    finalize_releases(
        build_fold(
            commits,
            0,
            seq![initial_release(next_version, today)],
            tags,
            types,
            sections,
            origin,
        ),
        keys_of_sections(sections),
        origin,
    )
}

/// The keys of the changelog sections, in order.
pub open spec fn keys_of_sections(sections: Seq<(Seq<char>, Seq<char>)>) -> Seq<Seq<char>> {
    Seq::new(sections.len(), |i: int| sections[i].0)
}

/// An exact copy of an entry.
fn copy_entry(e: &ChangeLogCommit) -> (r: ChangeLogCommit)
    ensures
        r@ == e@,
{
    ChangeLogCommit {
        commit_type: e.commit_type.clone(),
        prefix: e.prefix.clone(),
        subject: e.subject.clone(),
        commit_link: e.commit_link.clone(),
    }
}

/// An exact copy of a group.
fn copy_group(g: &ChangeLogReleaseGroup) -> (r: ChangeLogReleaseGroup)
    ensures
        r@ == g@,
{
    let mut commits: Vec<ChangeLogCommit> = Vec::new();
    let mut i: usize = 0;
    proof {
        assert(commits.deep_view() =~~= g.commits.deep_view().subrange(0, 0));
    }
    while i < g.commits.len()
        invariant
            i <= g.commits@.len(),
            commits@.len() == i,
            commits.deep_view() == g.commits.deep_view().subrange(0, i as int),
        decreases g.commits@.len() - i,
    {
        let ghost prev = commits.deep_view();
        let ce = copy_entry(&g.commits[i]);
        proof {
            assert(ce@ == g.commits.deep_view()[i as int]);
        }
        commits.push(ce);
        i = i + 1;
        proof {
            assert forall|j: int| 0 <= j < i implies commits.deep_view()[j]
                == g.commits.deep_view().subrange(0, i as int)[j] by {
                if j < i - 1 {
                    assert(commits.deep_view()[j] == prev[j]);
                } else {
                    assert(commits@[j] == ce);
                }
            }
            assert(commits.deep_view() =~~= g.commits.deep_view().subrange(0, i as int));
        }
    }
    proof {
        assert(commits.deep_view() =~~= g.commits.deep_view());
    }
    ChangeLogReleaseGroup { key: g.key.clone(), title: g.title.clone(), commits }
}

/// Index of the first group with the given key, or the group count.
fn find_group_in(groups: &Vec<ChangeLogReleaseGroup>, key: &str) -> (r: usize)
    ensures
        r == find_group(groups.deep_view(), key@),
        r <= groups@.len(),
{
    let mut i: usize = 0;
    while i < groups.len()
        invariant
            i <= groups@.len(),
            groups.deep_view().len() == groups@.len(),
            forall|j: int| 0 <= j < i ==> (#[trigger] groups.deep_view()[j]).key != key@,
        decreases groups@.len() - i,
    {
        if crate::config::str_eq(groups[i].key.as_str(), key) {
            proof {
                assert(groups.deep_view()[i as int].key == key@);
                lemma_find_group_at(groups.deep_view(), key@, i as int);
            }
            return i;
        }
        proof {
            assert(groups.deep_view()[i as int].key == groups@[i as int].key@);
        }
        i = i + 1;
    }
    proof {
        lemma_find_group_absent(groups.deep_view(), key@);
    }
    i
}

proof fn lemma_find_group_at(groups: Seq<GroupV>, key: Seq<char>, k: int)
    requires
        0 <= k < groups.len(),
        forall|j: int| 0 <= j < k ==> (#[trigger] groups[j]).key != key,
        groups[k].key == key,
    ensures
        find_group(groups, key) == k,
    decreases k,
{
    if k == 0 {
    } else {
        let t = groups.subrange(1, groups.len() as int);
        assert forall|j: int| 0 <= j < k - 1 implies (#[trigger] t[j]).key != key by {
            assert(t[j] == groups[j + 1]);
        }
        assert(t[k - 1] == groups[k]);
        lemma_find_group_at(t, key, k - 1);
    }
}

proof fn lemma_find_group_absent(groups: Seq<GroupV>, key: Seq<char>)
    requires
        forall|j: int| 0 <= j < groups.len() ==> (#[trigger] groups[j]).key != key,
    ensures
        find_group(groups, key) == groups.len(),
    decreases groups.len(),
{
    if groups.len() > 0 {
        let t = groups.subrange(1, groups.len() as int);
        assert forall|j: int| 0 <= j < t.len() implies (#[trigger] t[j]).key != key by {
            assert(t[j] == groups[j + 1]);
        }
        lemma_find_group_absent(t, key);
    }
}

/// Appends an entry to the current (last) release.
fn push_entry(rels: &mut Vec<ChangeLogRelease>, key: String, title: String, e: ChangeLogCommit)
    requires
        old(rels)@.len() > 0,
    ensures
        final(rels).deep_view() == append_entry(old(rels).deep_view(), key@, title@, e@),
        final(rels)@.len() == old(rels)@.len(),
{
    let ghost rels0 = rels.deep_view();
    let mut last = match rels.pop() {
        Some(l) => l,
        None => {
            proof {
                assert(false);
            }
            unreached()
        },
    };
    let ghost last0 = last.deep_view();
    proof {
        assert(last0 == rels0[rels0.len() - 1]);
        assert(rels.deep_view() =~~= rels0.subrange(0, rels0.len() - 1));
    }
    let gi = find_group_in(&last.groups, key.as_str());
    if gi < last.groups.len() {
        let ghost groups0 = last.groups.deep_view();
        let mut g = last.groups.remove(gi);
        g.commits.push(e);
        proof {
            assert(g.deep_view().commits =~~= groups0[gi as int].commits.push(e@));
        }
        last.groups.insert(gi, g);
        proof {
            assert(last.groups.deep_view() =~~= groups0.update(
                gi as int,
                GroupV { commits: groups0[gi as int].commits.push(e@), ..groups0[gi as int] },
            ));
        }
    } else {
        let ghost groups0 = last.groups.deep_view();
        let mut commits: Vec<ChangeLogCommit> = Vec::new();
        commits.push(e);
        proof {
            assert(commits.deep_view() =~~= seq![e@]);
        }
        last.groups.push(ChangeLogReleaseGroup { key, title, commits });
        proof {
            assert(last.groups.deep_view() =~~= groups0.push(
                GroupV { key: key@, title: title@, commits: seq![e@] },
            ));
        }
    }
    rels.push(last);
    proof {
        assert(rels.deep_view() =~~= append_entry(rels0, key@, title@, e@));
    }
}

/// Index of the first release tag pointing at the commit, or the tag
/// count when none does; with its parsed version.
fn find_boundary(tags: &Vec<GitTag>, id: &String) -> (r: Option<(crate::version::Version, usize)>)
    ensures
        (match r {
            Some(p) => p.1 < tags@.len() && find_release_tag(tags@, id@) == Some(
                tags@[p.1 as int],
            ) && crate::version::version_tuple(p.0@) == tag_version(tags@[p.1 as int]),
            None => find_release_tag(tags@, id@) is None,
        }),
{
    let mut i: usize = 0;
    while i < tags.len()
        invariant
            i <= tags@.len(),
            forall|j: int| 0 <= j < i ==> !(tag_parseable(#[trigger] tags@[j])
                && tags@[j].commit_hash@ == id@),
        decreases tags@.len() - i,
    {
        if tags[i].commit_hash == *id {
            match crate::version::parse_tag_version(&tags[i]) {
                Some(v) => {
                    proof {
                        lemma_find_release_tag_at(tags@, id@, i as int);
                    }
                    return Some((v, i));
                },
                None => {},
            }
        }
        i = i + 1;
    }
    proof {
        lemma_find_release_tag_absent(tags@, id@);
    }
    None
}

proof fn lemma_find_release_tag_at(tags: Seq<GitTag>, id: Seq<char>, k: int)
    requires
        0 <= k < tags.len(),
        forall|j: int| 0 <= j < k ==> !(tag_parseable(#[trigger] tags[j]) && tags[j].commit_hash@
            == id),
        tag_parseable(tags[k]) && tags[k].commit_hash@ == id,
    ensures
        find_release_tag(tags, id) == Some(tags[k]),
    decreases k,
{
    if k == 0 {
    } else {
        let t = tags.subrange(1, tags.len() as int);
        assert forall|j: int| 0 <= j < k - 1 implies !(tag_parseable(#[trigger] t[j])
            && t[j].commit_hash@ == id) by {
            assert(t[j] == tags[j + 1]);
        }
        assert(t[k - 1] == tags[k]);
        lemma_find_release_tag_at(t, id, k - 1);
    }
}

proof fn lemma_find_release_tag_absent(tags: Seq<GitTag>, id: Seq<char>)
    requires
        forall|j: int| 0 <= j < tags.len() ==> !(tag_parseable(#[trigger] tags[j])
            && tags[j].commit_hash@ == id),
    ensures
        find_release_tag(tags, id) is None,
    decreases tags.len(),
{
    if tags.len() > 0 {
        let t = tags.subrange(1, tags.len() as int);
        assert forall|j: int| 0 <= j < t.len() implies !(tag_parseable(#[trigger] t[j])
            && t[j].commit_hash@ == id) by {
            assert(t[j] == tags[j + 1]);
        }
        lemma_find_release_tag_absent(t, id);
    }
}

/// The changelog section title for a commit type, when it is included.
fn section_title(sections: &Vec<(String, String)>, key: &str) -> (r: Option<String>)
    ensures
        (match r {
            Some(title) => title_for(pairs_view(sections@), key@) == Some(title@),
            None => title_for(pairs_view(sections@), key@) is None,
        }),
{
    let mut i: usize = 0;
    while i < sections.len()
        invariant
            i <= sections@.len(),
            forall|j: int| 0 <= j < i ==> pairs_view(sections@)[j].0 != key@,
        decreases sections@.len() - i,
    {
        if crate::config::str_eq(sections[i].0.as_str(), key) {
            proof {
                assert(pairs_view(sections@)[i as int].0 == key@);
                lemma_title_for_at(pairs_view(sections@), key@, i as int);
            }
            return Some(sections[i].1.clone());
        }
        proof {
            assert(pairs_view(sections@)[i as int].0 == sections@[i as int].0@);
        }
        i = i + 1;
    }
    proof {
        lemma_title_for_absent(pairs_view(sections@), key@);
    }
    None
}

proof fn lemma_title_for_at(sections: Seq<(Seq<char>, Seq<char>)>, key: Seq<char>, k: int)
    requires
        0 <= k < sections.len(),
        forall|j: int| 0 <= j < k ==> (#[trigger] sections[j]).0 != key,
        sections[k].0 == key,
    ensures
        title_for(sections, key) == Some(sections[k].1),
    decreases k,
{
    if k == 0 {
    } else {
        let t = sections.subrange(1, sections.len() as int);
        assert forall|j: int| 0 <= j < k - 1 implies (#[trigger] t[j]).0 != key by {
            assert(t[j] == sections[j + 1]);
        }
        assert(t[k - 1] == sections[k]);
        lemma_title_for_at(t, key, k - 1);
    }
}

proof fn lemma_title_for_absent(sections: Seq<(Seq<char>, Seq<char>)>, key: Seq<char>)
    requires
        forall|j: int| 0 <= j < sections.len() ==> (#[trigger] sections[j]).0 != key,
    ensures
        title_for(sections, key) is None,
    decreases sections.len(),
{
    if sections.len() > 0 {
        let t = sections.subrange(1, sections.len() as int);
        assert forall|j: int| 0 <= j < t.len() implies (#[trigger] t[j]).0 != key by {
            assert(t[j] == sections[j + 1]);
        }
        lemma_title_for_absent(t, key);
    }
}

proof fn lemma_build_fold_unfold(
    commits: Seq<GitCommit>,
    i: int,
    rels: Seq<ReleaseV>,
    tags: Seq<GitTag>,
    types: Seq<Seq<char>>,
    sections: Seq<(Seq<char>, Seq<char>)>,
    origin: Seq<char>,
)
    requires
        0 <= i < commits.len(),
    ensures
        build_fold(commits, i, rels, tags, types, sections, origin) == build_fold(
            commits,
            i + 1,
            build_step(rels, commits[i], tags, types, sections, origin),
            tags,
            types,
            sections,
            origin,
        ),
{
}

/// Builds the changelog releases from the history (newest first), the
/// tags, the configuration, the version the pending release will take,
/// today's date for that release, and the origin URL for links.
#[verifier::loop_isolation(false)]
#[verifier::rlimit(100)]
pub fn build_releases(
    commits: &Vec<GitCommit>,
    tags: &Vec<GitTag>,
    config: &Config,
    next_version: &str,
    today: &str,
    origin_url: &str,
) -> (r: Vec<ChangeLogRelease>)
    ensures
        r.deep_view() == build_releases_spec(
            commits@,
            tags@,
            keys_view(config.commit.types@),
            pairs_view(config.changelog.types@),
            origin_url@,
            next_version@,
            today@,
        ),
{
    let ghost types = keys_view(config.commit.types@);
    let ghost sections = pairs_view(config.changelog.types@);
    let ghost origin = origin_url@;
    let valid = config.valid_types();
    let valid_slice = valid.as_slice();
    proof {
        assert(valid_slice.deep_view() =~~= crate::config::strings_view(valid@));
    }

    let mut rels: Vec<ChangeLogRelease> = Vec::new();
    rels.push(
        ChangeLogRelease {
            version: next_version.to_owned(),
            date: today.to_owned(),
            history_url: String::new(),
            groups: Vec::new(),
        },
    );
    proof {
        assert(rels.deep_view() =~~= seq![initial_release(next_version@, today@)]);
    }
    let ghost init = seq![initial_release(next_version@, today@)];

    let mut i: usize = 0;
    while i < commits.len()
        invariant
            i <= commits@.len(),
            rels@.len() > 0,
            build_fold(commits@, 0, init, tags@, types, sections, origin) == build_fold(
                commits@,
                i as int,
                rels.deep_view(),
                tags@,
                types,
                sections,
                origin,
            ),
        decreases commits@.len() - i,
    {
        let ghost rels_pre = rels.deep_view();
        let c = &commits[i];

        // a tagged commit seals the current release and opens its own
        match find_boundary(tags, &c.id) {
            Some((v, j)) => {
                let date = display_day(tags[j].date.as_str());
                let nr = ChangeLogRelease {
                    version: v.to_string(),
                    date,
                    history_url: String::new(),
                    groups: Vec::new(),
                };
                proof {
                    let t = tags@[j as int];
                    assert(v@ == tuple_version(tag_version(t)));
                    assert(nr.deep_view() == release_at(t)) by {
                        assert(nr.deep_view().groups =~~= Seq::<GroupV>::empty());
                    }
                }
                rels.push(nr);
                proof {
                    assert(rels.deep_view() =~~= rels_pre.push(release_at(tags@[j as int])));
                }
            },
            None => {},
        }
        let ghost rels_mid = rels.deep_view();

        // bucket the commit
        match ConventionalCommitMessage::parse(c.message.as_str(), valid_slice) {
            Ok(m) => {
                match section_title(&config.changelog.types, m.commit_type.as_str()) {
                    Some(title) => {
                        let e = ChangeLogCommit {
                            commit_type: m.commit_type.clone(),
                            prefix: String::new(),
                            subject: uppercase_first(&m.subject),
                            commit_link: make_commit_link(origin_url, c.id.as_str()),
                        };
                        let key = m.commit_type.clone();
                        proof {
                            assert(commit_event(commits@[i as int], types, sections, origin)
                                == Some((key@, title@, e@)));
                        }
                        push_entry(&mut rels, key, title, e);
                    },
                    None => {
                        proof {
                            assert(commit_event(commits@[i as int], types, sections, origin)
                                is None);
                        }
                    },
                }
            },
            Err(_) => {
                let e = ChangeLogCommit {
                    commit_type: "uncategorized".to_owned(),
                    prefix: String::new(),
                    subject: message_first_line(c.message.as_str()),
                    commit_link: String::new(),
                };
                let key = "uncategorized".to_owned();
                let title = "Uncategorized".to_owned();
                proof {
                    assert(commit_event(commits@[i as int], types, sections, origin) == Some(
                        (key@, title@, e@)));
                }
                push_entry(&mut rels, key, title, e);
            },
        }
        proof {
            assert(rels.deep_view() == build_step(rels_pre, commits@[i as int], tags@, types,
                sections, origin));
            lemma_build_fold_unfold(commits@, i as int, rels_pre, tags@, types, sections, origin);
        }
        i = i + 1;
    }
    let ghost folded = rels.deep_view();
    proof {
        assert(folded == build_fold(commits@, 0, init, tags@, types, sections, origin));
    }

    // final pass: section order and comparison links
    let ghost keys = keys_of_sections(sections);
    let has_uncat_section = {
        let mut k: usize = 0;
        let mut found = false;
        while k < config.changelog.types.len()
            invariant
                k <= config.changelog.types@.len(),
                found == exists|j: int| 0 <= j < k && keys[j] == "uncategorized"@,
            decreases config.changelog.types@.len() - k,
        {
            if crate::config::str_eq(config.changelog.types[k].0.as_str(), "uncategorized") {
                proof {
                    assert(keys[k as int] == "uncategorized"@);
                }
                found = true;
            }
            proof {
                assert(keys[k as int] == config.changelog.types@[k as int].0@);
            }
            k = k + 1;
        }
        found
    };
    proof {
        assert(has_uncat_section == seq_contains_str(keys, "uncategorized"@));
    }

    let mut out: Vec<ChangeLogRelease> = Vec::new();
    let ghost want = finalize_releases(folded, keys, origin);
    let mut i2: usize = 0;
    proof {
        assert(out.deep_view() =~~= want.subrange(0, 0));
    }
    while i2 < rels.len()
        invariant
            i2 <= rels@.len(),
            out@.len() == i2,
            out.deep_view() == want.subrange(0, i2 as int),
        decreases rels@.len() - i2,
    {
        let r = &rels[i2];
        proof {
            assert(r.deep_view() == folded[i2 as int]);
        }

        // groups in section order
        let mut groups: Vec<ChangeLogReleaseGroup> = Vec::new();
        let mut k: usize = 0;
        proof {
            assert(groups.deep_view() + groups_in_order(folded[i2 as int].groups, keys, 0)
                =~~= groups_in_order(folded[i2 as int].groups, keys, 0));
        }
        while k < config.changelog.types.len()
            invariant
                k <= config.changelog.types@.len(),
                groups.deep_view() + groups_in_order(folded[i2 as int].groups, keys, k as int)
                    == groups_in_order(folded[i2 as int].groups, keys, 0),
                rels@.len() == folded.len(),
                i2 < rels@.len(),
                r == rels@[i2 as int],
                r.deep_view() == folded[i2 as int],
            decreases config.changelog.types@.len() - k,
        {
            let ghost gpre = groups.deep_view();
            let gi = find_group_in(&r.groups, config.changelog.types[k].0.as_str());
            proof {
                assert(keys[k as int] == config.changelog.types@[k as int].0@);
            }
            if gi < r.groups.len() {
                groups.push(copy_group(&r.groups[gi]));
                proof {
                    assert(groups.deep_view() =~~= gpre.push(
                        folded[i2 as int].groups[gi as int]));
                    assert(gpre.push(folded[i2 as int].groups[gi as int]) + groups_in_order(
                        folded[i2 as int].groups, keys, k as int + 1)
                        =~~= gpre + groups_in_order(folded[i2 as int].groups, keys, k as int));
                }
            } else {
                proof {
                    assert(gpre + groups_in_order(folded[i2 as int].groups, keys, k as int + 1)
                        =~~= gpre + groups_in_order(folded[i2 as int].groups, keys, k as int));
                }
            }
            k = k + 1;
        }
        if !has_uncat_section {
            let gi = find_group_in(&r.groups, "uncategorized");
            if gi < r.groups.len() {
                let ghost gpre = groups.deep_view();
                groups.push(copy_group(&r.groups[gi]));
                proof {
                    assert(groups.deep_view() =~~= gpre.push(
                        folded[i2 as int].groups[gi as int]));
                }
            }
        }
        proof {
            assert(groups_in_order(folded[i2 as int].groups, keys, keys.len() as int)
                =~~= Seq::<GroupV>::empty());
            assert(groups.deep_view() =~~= ordered_groups(folded[i2 as int].groups, keys));
        }

        // comparison link
        let history_url = if i2 + 1 < rels.len() {
            let mut u = origin_url.to_owned();
            u.append("/compare/");
            u.append(rels[i2 + 1].version.as_str());
            u.append("...");
            if crate::config::str_eq(r.version.as_str(), "Unreleased") {
                u.append("HEAD");
            } else {
                u.append(r.version.as_str());
            }
            proof {
                assert(u@ =~= compare_url(origin, folded[i2 as int + 1].version,
                    folded[i2 as int].version));
            }
            u
        } else {
            r.history_url.clone()
        };

        out.push(
            ChangeLogRelease {
                version: r.version.clone(),
                date: r.date.clone(),
                history_url,
                groups,
            },
        );
        i2 = i2 + 1;
        proof {
            assert forall|j: int| 0 <= j < i2 implies out.deep_view()[j] == want.subrange(
                0,
                i2 as int,
            )[j] by {
                if j < i2 - 1 {
                    assert(out.deep_view()[j] == want.subrange(0, i2 as int - 1)[j]);
                }
            }
            assert(out.deep_view() =~~= want.subrange(0, i2 as int));
        }
    }
    proof {
        assert(want.subrange(0, want.len() as int) =~~= want);
        assert(out.deep_view() =~~= want);
    }
    out
}

} // verus!

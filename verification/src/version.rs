//! Version management: parsing and ordering semantic versions through the
//! semver crate, selecting the latest released tag, and deriving the next
//! version from the commits since that tag.

use vstd::prelude::*;
use vstd::string::StrSliceExecFns;

use crate::config::{strings_view, Config};
use crate::conventional::{parse_msg, seq_contains_str, ConventionalCommitMessage};
use crate::error::DeriveError;
use crate::git::{copy_tag, GitCommit, GitTag};
use crate::text::{chars_to_string, dec_str, push_all, u64_to_dec};

verus! {

/// A semantic version, held as plain parts.
#[derive(Debug, Clone, PartialEq, Eq)]
pub struct Version {
    /// Major version.
    pub major: u64,
    /// Minor version.
    pub minor: u64,
    /// Patch version.
    pub patch: u64,
    /// Pre-release text, empty when none.
    pub pre: String,
    /// Build metadata text, empty when none.
    pub build: String,
}

/// The view of a version: its parts as plain values.
pub ghost struct VersionV {
    pub major: u64,
    pub minor: u64,
    pub patch: u64,
    pub pre: Seq<char>,
    pub build: Seq<char>,
}

impl View for Version {
    type V = VersionV;

    open spec fn view(&self) -> VersionV {
        VersionV {
            major: self.major,
            minor: self.minor,
            patch: self.patch,
            pre: self.pre@,
            build: self.build@,
        }
    }
}

/// The version parts as the tuple the trusted names speak of.
pub open spec fn version_tuple(v: VersionV) -> (u64, u64, u64, Seq<char>, Seq<char>) {
    (v.major, v.minor, v.patch, v.pre, v.build)
}

/// The tuple the trusted names speak of, as version parts.
pub open spec fn tuple_version(t: (u64, u64, u64, Seq<char>, Seq<char>)) -> VersionV {
    VersionV { major: t.0, minor: t.1, patch: t.2, pre: t.3, build: t.4 }
}

/// What `semver::Version::parse` returns for the given text, as plain
/// parts (major, minor, patch, pre-release, build metadata); `None` when
/// the text is not a strict `MAJOR.MINOR.PATCH(-PRE)?(+BUILD)?` version.
pub uninterp spec fn semver_parse_of(s: Seq<char>) -> Option<(u64, u64, u64, Seq<char>, Seq<char>)>;

/// Whether semver's total order puts the first version strictly before
/// the second: numeric precedence on major, minor and patch, then the
/// pre-release rules, then build metadata as the final tiebreak.
pub uninterp spec fn semver_lt_of(
    a: (u64, u64, u64, Seq<char>, Seq<char>),
    b: (u64, u64, u64, Seq<char>, Seq<char>),
) -> bool;

/// Relies on semver::Version::parse: the strict semantic-version grammar,
/// a function of the text alone.
#[verifier::external_body]
fn parse_semver(s: &str) -> (r: Option<Version>)
    ensures
        (match r {
            Some(v) => semver_parse_of(s@) == Some(version_tuple(v@)),
            None => semver_parse_of(s@) is None,
        }),
{
    match semver::Version::parse(s) {
        Ok(v) => Some(
            Version {
                major: v.major,
                minor: v.minor,
                patch: v.patch,
                pre: v.pre.as_str().to_string(),
                build: v.build.as_str().to_string(),
            },
        ),
        Err(_) => None,
    }
}

/// Relies on semver::Version's `Ord`: versions compare by major, minor
/// and patch numerically; with equal triples, a pre-release version
/// precedes the release, and versions equal in all parts are equal.
/// Callers pass parts that came from semver's own parser.
#[verifier::external_body]
fn version_lt(a: &Version, b: &Version) -> (r: bool)
    requires
        exists|s: Seq<char>| semver_parse_of(s) == Some(version_tuple(a@)),
        exists|s: Seq<char>| semver_parse_of(s) == Some(version_tuple(b@)),
    ensures
        r == semver_lt_of(version_tuple(a@), version_tuple(b@)),
        a.major < b.major ==> r,
        a.major > b.major ==> !r,
        a.major == b.major && a.minor < b.minor ==> r,
        a.major == b.major && a.minor > b.minor ==> !r,
        a.major == b.major && a.minor == b.minor && a.patch < b.patch ==> r,
        a.major == b.major && a.minor == b.minor && a.patch > b.patch ==> !r,
        a@ == b@ ==> !r,
        a.major == b.major && a.minor == b.minor && a.patch == b.patch && a.pre@.len() == 0
            && b.pre@.len() > 0 ==> !r,
        a.major == b.major && a.minor == b.minor && a.patch == b.patch && a.pre@.len() > 0
            && b.pre@.len() == 0 ==> r,
{
    let av = semver::Version {
        major: a.major,
        minor: a.minor,
        patch: a.patch,
        pre: semver::Prerelease::new(&a.pre).unwrap_or_default(),
        build: semver::BuildMetadata::new(&a.build).unwrap_or_default(),
    };
    let bv = semver::Version {
        major: b.major,
        minor: b.minor,
        patch: b.patch,
        pre: semver::Prerelease::new(&b.pre).unwrap_or_default(),
        build: semver::BuildMetadata::new(&b.build).unwrap_or_default(),
    };
    av < bv
}

/// The canonical text of a version:
/// `MAJOR.MINOR.PATCH`, then `-PRE` and `+BUILD` when present.
pub open spec fn version_str(v: VersionV) -> Seq<char> {
    dec_str(v.major as nat) + seq!['.'] + dec_str(v.minor as nat) + seq!['.'] + dec_str(
        v.patch as nat,
    ) + (if v.pre.len() > 0 {
        seq!['-'] + v.pre
    } else {
        Seq::<char>::empty()
    }) + (if v.build.len() > 0 {
        seq!['+'] + v.build
    } else {
        Seq::<char>::empty()
    })
}

impl Version {
    /// A plain version without pre-release or build metadata.
    pub fn new(major: u64, minor: u64, patch: u64) -> (r: Self)
        ensures
            r@ == (VersionV { major, minor, patch, pre: Seq::empty(), build: Seq::empty() }),
    {
        Version { major, minor, patch, pre: String::new(), build: String::new() }
    }

    /// An exact copy.
    pub fn copy_version(&self) -> (r: Self)
        ensures
            r@ == self@,
    {
        Version {
            major: self.major,
            minor: self.minor,
            patch: self.patch,
            pre: self.pre.clone(),
            build: self.build.clone(),
        }
    }

    /// The canonical text of the version.
    pub fn to_string(&self) -> (r: String)
        ensures
            r@ == version_str(self@),
    {
        let mut out: Vec<char> = u64_to_dec(self.major);
        out.push('.');
        let minor_digits = u64_to_dec(self.minor);
        push_all(&mut out, &minor_digits);
        out.push('.');
        let patch_digits = u64_to_dec(self.patch);
        push_all(&mut out, &patch_digits);
        let mut s = chars_to_string(&out);
        proof {
            assert(s@ =~= dec_str(self.major as nat) + seq!['.'] + dec_str(self.minor as nat)
                + seq!['.'] + dec_str(self.patch as nat));
            reveal_strlit("-");
            reveal_strlit("+");
        }
        if self.pre.as_str().unicode_len() > 0 {
            s.append("-");
            s.append(self.pre.as_str());
        }
        if self.build.as_str().unicode_len() > 0 {
            s.append("+");
            s.append(self.build.as_str());
        }
        proof {
            assert(s@ =~= version_str(self@));
        }
        s
    }
}

/// A git tag with its parsed semantic version.
#[derive(Debug, Clone)]
pub struct SemverGitTag {
    /// Semver version.
    pub version: Version,
    /// Git tag.
    pub tag: GitTag,
}

/// Converts a tag into a tag with version information; fails when the tag
/// name is not a semantic version.
pub trait IntoSemverGitTag {
    /// Converts a GitTag into a SemverGitTag.
    fn into_semver(self) -> (r: Result<SemverGitTag, DeriveError>) where Self: core::marker::Sized;
}

impl IntoSemverGitTag for GitTag {
    /// The tag name parsed as it stands, with no leading `v` allowed.
    fn into_semver(self) -> (r: Result<SemverGitTag, DeriveError>)
        ensures
            (match r {
                Ok(t) => semver_parse_of(self.tag@) == Some(version_tuple(t.version@)) && t.tag
                    == self,
                Err(e) => semver_parse_of(self.tag@) is None && e == DeriveError::InvalidTag,
            }),
    {
        match parse_semver(self.tag.as_str()) {
            Some(v) => Ok(SemverGitTag { version: v, tag: self }),
            None => Err(DeriveError::InvalidTag),
        }
    }
}

/// Converts a list of tags; fails on the first tag whose name is not a
/// semantic version.
pub trait IntoSemverGitTags {
    /// Converts every GitTag into a SemverGitTag.
    fn into_semver(self) -> (r: Result<Vec<SemverGitTag>, DeriveError>) where Self: core::marker::Sized;
}

impl IntoSemverGitTags for Vec<GitTag> {
    fn into_semver(self) -> (r: Result<Vec<SemverGitTag>, DeriveError>)
        ensures
            (match r {
                Ok(ts) => ts@.len() == self@.len() && (forall|i: int| 0 <= i < ts@.len()
                    ==> semver_parse_of(self@[i].tag@) == Some(version_tuple(
                    (#[trigger] ts@[i]).version@,
                )) && ts@[i].tag == self@[i]),
                Err(e) => (exists|i: int| 0 <= i < self@.len() && semver_parse_of(
                    (#[trigger] self@[i]).tag@,
                ) is None) && e == DeriveError::InvalidTag,
            }),
    {
        let mut ts: Vec<SemverGitTag> = Vec::new();
        let mut i: usize = 0;
        while i < self.len()
            invariant
                i <= self@.len(),
                ts@.len() == i,
                forall|j: int| 0 <= j < i ==> semver_parse_of(self@[j].tag@) == Some(
                    version_tuple((#[trigger] ts@[j]).version@),
                ) && ts@[j].tag == self@[j],
            decreases self@.len() - i,
        {
            let tag = copy_tag(&self[i]);
            match tag.into_semver() {
                Ok(t) => {
                    ts.push(t);
                },
                Err(e) => {
                    return Err(e);
                },
            }
            i = i + 1;
        }
        Ok(ts)
    }
}

/// A tag name with one leading `v` removed.
pub open spec fn strip_v(s: Seq<char>) -> Seq<char> {
    if s.len() > 0 && s[0] == 'v' {
        s.subrange(1, s.len() as int)
    } else {
        s
    }
}

/// Whether a tag names a release: its name, with a possible leading `v`
/// ignored, parses as a semantic version.
pub open spec fn tag_parseable(t: GitTag) -> bool {
    semver_parse_of(strip_v(t.tag@)) is Some
}

/// The version a release tag names.
pub open spec fn tag_version(t: GitTag) -> (u64, u64, u64, Seq<char>, Seq<char>) {
    semver_parse_of(strip_v(t.tag@))->Some_0
}

fn strip_v_chars(s: &str) -> (r: String)
    ensures
        r@ == strip_v(s@),
{
    let v = crate::text::str_chars(s);
    if v.len() > 0 && v[0] == 'v' {
        let rest = crate::text::sub_chars(&v, 1, v.len());
        chars_to_string(&rest)
    } else {
        chars_to_string(&v)
    }
}

/// The version a tag names, parsed with a leading `v` ignored.
pub fn parse_tag_version(t: &GitTag) -> (r: Option<Version>)
    ensures
        (match r {
            Some(v) => tag_parseable(*t) && version_tuple(v@) == tag_version(*t),
            None => !tag_parseable(*t),
        }),
{
    let name = strip_v_chars(t.tag.as_str());
    parse_semver(name.as_str())
}

/// Whether the numeric triple of the first version is lexicographically
/// below the second's: the part of semver precedence that major, minor
/// and patch alone decide.
pub open spec fn triple_lt(
    a: (u64, u64, u64, Seq<char>, Seq<char>),
    b: (u64, u64, u64, Seq<char>, Seq<char>),
) -> bool {
    a.0 < b.0 || (a.0 == b.0 && (a.1 < b.1 || (a.1 == b.1 && a.2 < b.2)))
}

/// The left fold that selects the latest release tag: each parseable tag
/// replaces the best seen so far unless it compares strictly below it, so
/// that among tags naming equal versions the last one wins.
pub open spec fn select_latest(
    tags: Seq<GitTag>,
    i: int,
    best: Option<(GitTag, (u64, u64, u64, Seq<char>, Seq<char>))>,
) -> Option<(GitTag, (u64, u64, u64, Seq<char>, Seq<char>))>
    decreases tags.len() - i,
{
    if i < 0 || i >= tags.len() {
        best
    } else {
        let next = if tag_parseable(tags[i]) {
            match best {
                None => Some((tags[i], tag_version(tags[i]))),
                Some((bt, bv)) => if !semver_lt_of(tag_version(tags[i]), bv) {
                    Some((tags[i], tag_version(tags[i])))
                } else {
                    best
                },
            }
        } else {
            best
        };
        select_latest(tags, i + 1, next)
    }
}

/// The latest released version among the given tags: each tag name is
/// parsed as a semantic version (a leading `v` is ignored, unparseable
/// names are skipped) and the maximum by semver ordering is kept; among
/// tags naming equal versions, the last one wins. `None` exactly when no
/// tag parses. The result is never below any release tag on major, minor
/// and patch.
pub fn get_latest_repo_tag(tags: &Vec<GitTag>) -> (r: Option<SemverGitTag>)
    ensures
        (r is None) <==> (select_latest(tags@, 0, None) is None),
        (r is None) <==> (forall|i: int| 0 <= i < tags@.len() ==> !tag_parseable(
            #[trigger] tags@[i],
        )),
        (match r {
            Some(t) => {
                &&& select_latest(tags@, 0, None) matches Some(p) && p.0 == t.tag && p.1
                    == version_tuple(t.version@)
                &&& (exists|i: int| 0 <= i < tags@.len() && tag_parseable(#[trigger] tags@[i])
                    && t.tag == tags@[i] && version_tuple(t.version@) == tag_version(tags@[i]))
                &&& (forall|i: int| 0 <= i < tags@.len() && tag_parseable(#[trigger] tags@[i])
                    ==> !triple_lt(version_tuple(t.version@), tag_version(tags@[i])))
            },
            None => true,
        }),
{
    let mut best: Option<SemverGitTag> = None;
    let mut i: usize = 0;
    while i < tags.len()
        invariant
            i <= tags@.len(),
            select_latest(tags@, 0, None) == select_latest(tags@, i as int, (match best {
                Some(t) => Some((t.tag, version_tuple(t.version@))),
                None => None,
            })),
            (best is None) <==> (forall|j: int| 0 <= j < i ==> !tag_parseable(
                #[trigger] tags@[j],
            )),
            (match best {
                Some(t) => {
                    &&& (exists|j: int| 0 <= j < i && tag_parseable(#[trigger] tags@[j]) && t.tag
                        == tags@[j] && version_tuple(t.version@) == tag_version(tags@[j]))
                    &&& (forall|j: int| 0 <= j < i && tag_parseable(#[trigger] tags@[j])
                        ==> !triple_lt(version_tuple(t.version@), tag_version(tags@[j])))
                    &&& (exists|s: Seq<char>| semver_parse_of(s) == Some(version_tuple(
                        t.version@,
                    )))
                },
                None => true,
            }),
        decreases tags@.len() - i,
    {
        let ghost best_pre = match &best {
            Some(t) => Some((t.tag, version_tuple(t.version@))),
            None => None::<(GitTag, (u64, u64, u64, Seq<char>, Seq<char>))>,
        };
        let name = strip_v_chars(tags[i].tag.as_str());
        match parse_semver(name.as_str()) {
            Some(v) => {
                proof {
                    assert(semver_parse_of(strip_v(tags@[i as int].tag@)) == Some(version_tuple(
                        v@,
                    )));
                    assert(tag_parseable(tags@[i as int]));
                    assert(version_tuple(v@) == tag_version(tags@[i as int]));
                }
                let replace = match &best {
                    Some(t) => !version_lt(&v, &t.version),
                    None => true,
                };
                if replace {
                    best = Some(SemverGitTag { version: v, tag: copy_tag(&tags[i]) });
                }
            },
            None => {
                proof {
                    assert(!tag_parseable(tags@[i as int]));
                }
            },
        }
        proof {
            let best_now = match &best {
                Some(t) => Some((t.tag, version_tuple(t.version@))),
                None => None::<(GitTag, (u64, u64, u64, Seq<char>, Seq<char>))>,
            };
            assert(select_latest(tags@, i as int, best_pre) == select_latest(
                tags@,
                i as int + 1,
                best_now,
            ));
        }
        i = i + 1;
    }
    best
}
/// Whether a commit parses as conventional and carries a breaking change.
pub open spec fn is_breaking_commit(c: GitCommit, types: Seq<Seq<char>>) -> bool {
    parse_msg(c.message@, types) matches Ok(m) && m.breaking_change is Some
}

/// Whether a commit parses as conventional with a minor-triggering type.
pub open spec fn is_minor_commit(c: GitCommit, types: Seq<Seq<char>>, minors: Seq<Seq<char>>)
    -> bool {
    parse_msg(c.message@, types) matches Ok(m) && seq_contains_str(minors, m.commit_type)
}

/// Whether any commit carries a breaking change.
pub open spec fn has_major_change(commits: Seq<GitCommit>, types: Seq<Seq<char>>) -> bool {
    exists|i: int| 0 <= i < commits.len() && is_breaking_commit(#[trigger] commits[i], types)
}

/// Whether any commit has a minor-triggering type.
pub open spec fn has_minor_change(
    commits: Seq<GitCommit>,
    types: Seq<Seq<char>>,
    minors: Seq<Seq<char>>,
) -> bool {
    exists|i: int| 0 <= i < commits.len() && is_minor_commit(#[trigger] commits[i], types, minors)
}

/// The increment policy. From 1.0.0 on: a breaking change bumps the
/// major, else a minor-triggering commit bumps the minor, else the patch.
/// Before 1.0.0: a breaking change bumps the minor, anything else bumps
/// the patch only. Pre-release and build metadata are always stripped.
pub open spec fn next_version_of(curr: VersionV, major_change: bool, minor_change: bool)
    -> VersionV
    recommends
        curr.major < u64::MAX,
        curr.minor < u64::MAX,
        curr.patch < u64::MAX,
{
    if curr.major > 0 {
        if major_change {
            VersionV {
                major: (curr.major + 1) as u64,
                minor: 0,
                patch: 0,
                pre: Seq::empty(),
                build: Seq::empty(),
            }
        } else if minor_change {
            VersionV {
                major: curr.major,
                minor: (curr.minor + 1) as u64,
                patch: 0,
                pre: Seq::empty(),
                build: Seq::empty(),
            }
        } else {
            VersionV {
                major: curr.major,
                minor: curr.minor,
                patch: (curr.patch + 1) as u64,
                pre: Seq::empty(),
                build: Seq::empty(),
            }
        }
    } else {
        if major_change {
            VersionV {
                major: 0,
                minor: (curr.minor + 1) as u64,
                patch: 0,
                pre: Seq::empty(),
                build: Seq::empty(),
            }
        } else {
            VersionV {
                major: 0,
                minor: curr.minor,
                patch: (curr.patch + 1) as u64,
                pre: Seq::empty(),
                build: Seq::empty(),
            }
        }
    }
}

/// The version a fresh history starts at, when no release exists yet.
pub open spec fn first_version() -> VersionV {
    VersionV { major: 0, minor: 0, patch: 1, pre: Seq::empty(), build: Seq::empty() }
}

/// Derives the next version from the commits since the last release.
///
/// Fails exactly when there is no commit. Commits that do not parse as
/// conventional are skipped, never fatal. Without a prior version the
/// result is 0.0.1 whatever the commits say; otherwise the increment
/// policy of `next_version_of` applies to the classification of the
/// parseable commits. The prior version is handed back unchanged.
#[verifier::loop_isolation(false)]
pub fn bump_repo_version(
    commits: &Vec<GitCommit>,
    curr_version: &Option<Version>,
    config: &Config,
) -> (r: Result<(Version, Option<Version>), DeriveError>)
    requires
        (match curr_version {
            Some(v) => v.major < u64::MAX && v.minor < u64::MAX && v.patch < u64::MAX,
            None => true,
        }),
    ensures
        (r == Err::<(Version, Option<Version>), DeriveError>(DeriveError::NoCommits)) <==> (
        commits@.len() == 0),
        commits@.len() > 0 ==> r is Ok,
        (match r {
            Ok(p) => {
                &&& (match (curr_version, &p.1) {
                    (Some(v), Some(v2)) => v2@ == v@,
                    (None, None) => true,
                    _ => false,
                })
                &&& p.0@ == (match curr_version {
                    None => first_version(),
                    Some(v) => next_version_of(
                        v@,
                        has_major_change(
                            commits@,
                            crate::config::keys_view(config.commit.types@),
                        ),
                        has_minor_change(
                            commits@,
                            crate::config::keys_view(config.commit.types@),
                            strings_view(config.commit.types_inc_minor@),
                        ),
                    ),
                })
            },
            Err(e) => e == DeriveError::NoCommits,
        }),
{
    let ghost types = crate::config::keys_view(config.commit.types@);
    let ghost minors = strings_view(config.commit.types_inc_minor@);
    if commits.len() == 0 {
        return Err(DeriveError::NoCommits);
    }
    let valid = config.valid_types();
    let valid_slice = valid.as_slice();
    proof {
        assert(valid_slice.deep_view() =~~= strings_view(valid@));
    }
    let mut has_major = false;
    let mut has_minor = false;
    let mut i: usize = 0;
    while i < commits.len()
        invariant
            i <= commits@.len(),
            strings_view(valid@) == types,
            valid_slice.deep_view() == types,
            has_major == has_major_change(commits@.subrange(0, i as int), types),
            has_minor == has_minor_change(commits@.subrange(0, i as int), types, minors),
        decreases commits@.len() - i,
    {
        let ghost prefix = commits@.subrange(0, i as int);
        let ghost prefix2 = commits@.subrange(0, i as int + 1);
        match ConventionalCommitMessage::parse(commits[i].message.as_str(), valid_slice) {
            Ok(m) => {
                if config.type_is_minor_inc(m.commit_type.as_str()) {
                    has_minor = true;
                    proof {
                        assert(is_minor_commit(commits@[i as int], types, minors));
                    }
                }
                if m.breaking_change.is_some() {
                    has_major = true;
                    proof {
                        assert(is_breaking_commit(commits@[i as int], types));
                    }
                }
            },
            Err(_) => {
                // an unconventional commit is skipped, never fatal
            },
        }
        proof {
            assert(prefix2.drop_last() =~= prefix);
            assert(prefix2.last() == commits@[i as int]);
            assert forall|k: int| 0 <= k < prefix2.len() implies (is_breaking_commit(
                #[trigger] prefix2[k], types) ==> (is_breaking_commit(commits@[i as int], types)
                || is_breaking_commit(prefix[k], types))) by {
                if k < prefix.len() {
                    assert(prefix2[k] == prefix[k]);
                }
            }
            assert forall|k: int| 0 <= k < prefix2.len() implies (is_minor_commit(
                #[trigger] prefix2[k], types, minors) ==> (is_minor_commit(
                commits@[i as int], types, minors) || is_minor_commit(prefix[k], types, minors)))
                by {
                if k < prefix.len() {
                    assert(prefix2[k] == prefix[k]);
                }
            }
            if has_major_change(prefix, types) {
                let w = choose|k: int| 0 <= k < prefix.len() && is_breaking_commit(
                    #[trigger] prefix[k], types);
                assert(prefix2[w] == prefix[w]);
                assert(has_major_change(prefix2, types));
            }
            if has_minor_change(prefix, types, minors) {
                let w = choose|k: int| 0 <= k < prefix.len() && is_minor_commit(
                    #[trigger] prefix[k], types, minors);
                assert(prefix2[w] == prefix[w]);
                assert(has_minor_change(prefix2, types, minors));
            }
        }
        i = i + 1;
    }
    proof {
        assert(commits@.subrange(0, commits@.len() as int) =~= commits@);
    }
    let next = match curr_version {
        None => Version::new(0, 0, 1),
        Some(curr) => {
            if curr.major > 0 {
                if has_major {
                    Version::new(curr.major + 1, 0, 0)
                } else if has_minor {
                    Version::new(curr.major, curr.minor + 1, 0)
                } else {
                    Version::new(curr.major, curr.minor, curr.patch + 1)
                }
            } else {
                if has_major {
                    Version::new(0, curr.minor + 1, 0)
                } else {
                    Version::new(0, curr.minor, curr.patch + 1)
                }
            }
        },
    };
    let prior = match curr_version {
        Some(curr) => Some(curr.copy_version()),
        None => None,
    };
    Ok((next, prior))
}

/// Classification and derivation are functions of their inputs: running
/// them twice on the same prior version, commits and configuration gives
/// the same next version.
pub proof fn lemma_derivation_idempotent(
    r1: VersionV,
    r2: VersionV,
    curr: VersionV,
    major_change: bool,
    minor_change: bool,
)
    requires
        r1 == next_version_of(curr, major_change, minor_change),
        r2 == next_version_of(curr, major_change, minor_change),
    ensures
        r1 == r2,
{
}

/// Monotonicity from 1.0.0 on: a breaking change raises the version by a
/// major step, else a minor trigger by a minor step, else by a patch step
/// only; the next version is always strictly above the prior one.
pub proof fn lemma_monotonic(curr: VersionV, major_change: bool, minor_change: bool)
    requires
        curr.major > 0,
        curr.major < u64::MAX,
        curr.minor < u64::MAX,
        curr.patch < u64::MAX,
    ensures
        major_change ==> next_version_of(curr, major_change, minor_change).major == curr.major + 1
            && next_version_of(curr, major_change, minor_change).minor == 0 && next_version_of(
            curr,
            major_change,
            minor_change,
        ).patch == 0,
        !major_change && minor_change ==> next_version_of(curr, major_change, minor_change).major
            == curr.major && next_version_of(curr, major_change, minor_change).minor == curr.minor
            + 1 && next_version_of(curr, major_change, minor_change).patch == 0,
        !major_change && !minor_change ==> next_version_of(curr, major_change, minor_change).major
            == curr.major && next_version_of(curr, major_change, minor_change).minor == curr.minor
            && next_version_of(curr, major_change, minor_change).patch == curr.patch + 1,
        triple_lt(version_tuple(curr), version_tuple(next_version_of(
            curr,
            major_change,
            minor_change,
        ))),
{
}

/// The asymmetry before 1.0.0: only a breaking change bumps the minor;
/// a minor-triggering commit bumps the patch alone, like any other.
pub proof fn lemma_pre_one_asymmetry(curr: VersionV, major_change: bool, minor_change: bool)
    requires
        curr.major == 0,
        curr.minor < u64::MAX,
        curr.patch < u64::MAX,
    ensures
        major_change ==> next_version_of(curr, major_change, minor_change) == (VersionV {
            major: 0,
            minor: (curr.minor + 1) as u64,
            patch: 0,
            pre: Seq::empty(),
            build: Seq::empty(),
        }),
        !major_change ==> next_version_of(curr, major_change, minor_change) == (VersionV {
            major: 0,
            minor: curr.minor,
            patch: (curr.patch + 1) as u64,
            pre: Seq::empty(),
            build: Seq::empty(),
        }),
        triple_lt(version_tuple(curr), version_tuple(next_version_of(
            curr,
            major_change,
            minor_change,
        ))),
{
}

/// With no prior version, the first derived version is 0.0.1, whatever
/// the commits were classified as.
pub proof fn lemma_first_version(major_change: bool, minor_change: bool)
    ensures
        first_version() == (VersionV {
            major: 0,
            minor: 0,
            patch: 1,
            pre: Seq::<char>::empty(),
            build: Seq::<char>::empty(),
        }),
{
}

} // verus!

//! Configuration: the ordered commit-type registry, the changelog type
//! order and inclusion list, the hook commands and the release commands.

use vstd::prelude::*;

verus! {

/// Commit configuration: the ordered registry of commit types with their
/// descriptions, and the subset of types that trigger a minor increment.
pub struct CommitsConfig {
    /// Commit types causing a minor version increment.
    pub types_inc_minor: Vec<String>,
    /// Commit types, in declared order: key and description.
    pub types: Vec<(String, String)>,
}

/// Changelog configuration: the commit types the changelog includes, in
/// the order their groups take, each with its section title.
pub struct ChangeLogConfig {
    /// Included commit types, in group order: key and title.
    pub types: Vec<(String, String)>,
}

/// Release configuration.
pub struct ReleaseConfig {
    /// Commands to execute when the version is bumped.
    pub bump_commands: Vec<String>,
}

/// Configuration object.
pub struct Config {
    /// Commits config.
    pub commit: CommitsConfig,
    /// Custom hooks: hook name and its commands.
    pub hooks: Vec<(String, Vec<String>)>,
    /// Changelog config.
    pub changelog: ChangeLogConfig,
    /// Release config.
    pub release: ReleaseConfig,
}

/// The views of the pairs of a key-value list.
pub open spec fn pairs_view(v: Seq<(String, String)>) -> Seq<(Seq<char>, Seq<char>)> {
    Seq::new(v.len(), |i: int| (v[i].0@, v[i].1@))
}

/// The keys of a key-value list.
pub open spec fn keys_view(v: Seq<(String, String)>) -> Seq<Seq<char>> {
    Seq::new(v.len(), |i: int| v[i].0@)
}

/// The views of a list of strings.
pub open spec fn strings_view(v: Seq<String>) -> Seq<Seq<char>> {
    Seq::new(v.len(), |i: int| v[i]@)
}

/// The default registry: keys and descriptions, ordered by key.
pub open spec fn default_commit_types() -> Seq<(Seq<char>, Seq<char>)> {
    seq![
        ("build"@, "Build system"@),
        ("cd"@, "Continuous Delivery"@),
        ("chore"@, "Other changes"@),
        ("ci"@, "Continuous Integration"@),
        ("docs"@, "Documentation"@),
        ("feat"@, "A new feature"@),
        ("fix"@, "Bug fixes"@),
        ("perf"@, "Performance Improvements"@),
        ("refactor"@, "Code refactoring"@),
        ("style"@, "Code styling"@),
        ("test"@, "Tests"@),
    ]
}

/// The default changelog sections: keys and titles, ordered by key.
pub open spec fn default_changelog_types() -> Seq<(Seq<char>, Seq<char>)> {
    seq![
        ("build"@, "Build system"@),
        ("cd"@, "Continuous Delivery"@),
        ("chore"@, "Other changes"@),
        ("ci"@, "Continuous Integration"@),
        ("docs"@, "Documentation changes"@),
        ("feat"@, "New features"@),
        ("fix"@, "Bug fixes"@),
        ("perf"@, "Performance Improvements"@),
        ("refactor"@, "Code refactoring"@),
        ("style"@, "Code styling changes"@),
        ("test"@, "Tests"@),
    ]
}

fn pair(k: &str, v: &str) -> (r: (String, String))
    ensures
        r.0@ == k@,
        r.1@ == v@,
{
    (k.to_owned(), v.to_owned())
}

impl Default for CommitsConfig {
    /// The standard registry, with `feat` as the one minor-triggering type.
    fn default() -> (r: Self)
        ensures
            pairs_view(r.types@) == default_commit_types(),
            strings_view(r.types_inc_minor@) == seq!["feat"@],
    {
        let mut types: Vec<(String, String)> = Vec::new();
        types.push(pair("build", "Build system"));
        types.push(pair("cd", "Continuous Delivery"));
        types.push(pair("chore", "Other changes"));
        types.push(pair("ci", "Continuous Integration"));
        types.push(pair("docs", "Documentation"));
        types.push(pair("feat", "A new feature"));
        types.push(pair("fix", "Bug fixes"));
        types.push(pair("perf", "Performance Improvements"));
        types.push(pair("refactor", "Code refactoring"));
        types.push(pair("style", "Code styling"));
        types.push(pair("test", "Tests"));
        let mut types_inc_minor: Vec<String> = Vec::new();
        types_inc_minor.push("feat".to_owned());
        proof {
            assert(pairs_view(types@) =~= default_commit_types());
            assert(strings_view(types_inc_minor@) =~= seq!["feat"@]);
        }
        CommitsConfig { types, types_inc_minor }
    }
}

impl Default for ChangeLogConfig {
    /// The standard changelog sections.
    fn default() -> (r: Self)
        ensures
            pairs_view(r.types@) == default_changelog_types(),
    {
        let mut types: Vec<(String, String)> = Vec::new();
        types.push(pair("build", "Build system"));
        types.push(pair("cd", "Continuous Delivery"));
        types.push(pair("chore", "Other changes"));
        types.push(pair("ci", "Continuous Integration"));
        types.push(pair("docs", "Documentation changes"));
        types.push(pair("feat", "New features"));
        types.push(pair("fix", "Bug fixes"));
        types.push(pair("perf", "Performance Improvements"));
        types.push(pair("refactor", "Code refactoring"));
        types.push(pair("style", "Code styling changes"));
        types.push(pair("test", "Tests"));
        proof {
            assert(pairs_view(types@) =~= default_changelog_types());
        }
        ChangeLogConfig { types }
    }
}

impl Default for ReleaseConfig {
    /// No extra bump commands.
    fn default() -> (r: Self)
        ensures
            r.bump_commands@.len() == 0,
    {
        ReleaseConfig { bump_commands: Vec::new() }
    }
}

impl Default for Config {
    /// The standard configuration: default registry and changelog
    /// sections, no hooks, no bump commands.
    fn default() -> (r: Self)
        ensures
            pairs_view(r.commit.types@) == default_commit_types(),
            strings_view(r.commit.types_inc_minor@) == seq!["feat"@],
            pairs_view(r.changelog.types@) == default_changelog_types(),
            r.hooks@.len() == 0,
            r.release.bump_commands@.len() == 0,
    {
        Config {
            commit: CommitsConfig::default(),
            hooks: Vec::new(),
            changelog: ChangeLogConfig::default(),
            release: ReleaseConfig::default(),
        }
    }
}

impl Config {
    /// The list of valid commit types: the registry keys, in order.
    pub fn valid_types(&self) -> (r: Vec<String>)
        ensures
            strings_view(r@) == keys_view(self.commit.types@),
    {
        let mut r: Vec<String> = Vec::new();
        let mut i: usize = 0;
        while i < self.commit.types.len()
            invariant
                i <= self.commit.types@.len(),
                strings_view(r@) == keys_view(self.commit.types@).subrange(0, i as int),
            decreases self.commit.types@.len() - i,
        {
            let ghost prev = r@;
            let entry = &self.commit.types[i];
            let k = entry.0.clone();
            proof {
                assert(k@ == self.commit.types@[i as int].0@);
            }
            r.push(k);
            i = i + 1;
            proof {
                let kv = keys_view(self.commit.types@);
                assert(prev.len() == i - 1) by {
                    assert(strings_view(prev).len() == prev.len());
                    assert(strings_view(prev).len() == i - 1);
                }
                assert forall|j: int| 0 <= j < i implies strings_view(r@)[j] == kv[j] by {
                    if j < i - 1 {
                        assert(r@[j] == prev[j]);
                        assert(strings_view(prev)[j] == kv.subrange(0, i - 1)[j]);
                    } else {
                        assert(r@[j] == k);
                    }
                }
                assert(strings_view(r@) =~= kv.subrange(0, i as int));
            }
        }
        proof {
            assert(keys_view(self.commit.types@).subrange(0, i as int) =~= keys_view(
                self.commit.types@));
        }
        r
    }

    /// Whether a commit type causes a minor increment.
    pub fn type_is_minor_inc(&self, commit_type: &str) -> (r: bool)
        ensures
            r == crate::conventional::seq_contains_str(
                strings_view(self.commit.types_inc_minor@),
                commit_type@,
            ),
    {
        let mut i: usize = 0;
        while i < self.commit.types_inc_minor.len()
            invariant
                i <= self.commit.types_inc_minor@.len(),
                forall|j: int| 0 <= j < i ==> strings_view(self.commit.types_inc_minor@)[j]
                    != commit_type@,
            decreases self.commit.types_inc_minor@.len() - i,
        {
            if str_eq(self.commit.types_inc_minor[i].as_str(), commit_type) {
                proof {
                    assert(strings_view(self.commit.types_inc_minor@)[i as int] == commit_type@);
                }
                return true;
            }
            i = i + 1;
        }
        false
    }

    /// The folder that holds the hook scripts, under the repo directory.
    pub fn hooks_folder(&self, repo_path: &str) -> (r: String)
        ensures
            r@ == repo_path@ + "/.gitt/hooks"@,
    {
        let mut r = repo_path.to_owned();
        r.append("/.gitt/hooks");
        r
    }
}

/// Whether two string slices hold the same characters.
pub fn str_eq(a: &str, b: &str) -> (r: bool)
    ensures
        r == (a@ == b@),
{
    let av = crate::text::str_chars(a);
    let bv = crate::text::str_chars(b);
    crate::text::eq_chars(&av, &bv)
}

} // verus!

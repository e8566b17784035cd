//! Git hook script generation from the configured hook commands.

use vstd::prelude::*;

use crate::config::Config;
use crate::error::HookError;
use vstd::string::StringExecFns;

verus! {

/// The hook names git calls.
pub open spec fn is_hook_name(s: Seq<char>) -> bool {
    ||| s == "pre-commit"@
    ||| s == "prepare-commit-msg"@
    ||| s == "commit-msg"@
    ||| s == "post-commit"@
    ||| s == "pre-push"@
}

/// The shell script of one hook: a shebang, an echo naming the hook, and
/// the configured commands, one per line.
pub open spec fn hook_script(key: Seq<char>, commands: Seq<String>) -> Seq<char> {
    "#!/bin/sh"@ + seq!['\n', '\n'] + "echo 'i Running "@ + key + " hook'"@ + seq!['\n', '\n']
        + commands_text(commands)
}

/// The configured commands, each followed by a line feed.
pub open spec fn commands_text(commands: Seq<String>) -> Seq<char>
    decreases commands.len(),
{
    if commands.len() == 0 {
        Seq::empty()
    } else {
        commands_text(commands.drop_last()) + commands.last()@ + seq!['\n']
    }
}

/// The scripts the configuration asks for: one per configured hook, in
/// configuration order.
pub open spec fn hook_scripts(hooks: Seq<(String, Vec<String>)>) -> Seq<(Seq<char>, Seq<char>)> {
    Seq::new(hooks.len(), |i: int| (hooks[i].0@, hook_script(hooks[i].0@, hooks[i].1@)))
}

/// Whether every configured hook name is one git calls; the index of the
/// first that is not.
pub open spec fn first_bad_hook(hooks: Seq<(String, Vec<String>)>) -> int
    decreases hooks.len(),
{
    if hooks.len() == 0 {
        0
    } else if !is_hook_name(hooks[0].0@) {
        0
    } else {
        1 + first_bad_hook(hooks.subrange(1, hooks.len() as int))
    }
}

/// Creates the git hook shell scripts, one per configured hook, in
/// configuration order; fails on the first configured hook whose name is
/// not one git calls, returning that name.
#[verifier::loop_isolation(false)]
pub fn create_git_hooks_scripts(config: &Config) -> (r: Result<
    Vec<(String, String)>,
    HookError,
>)
    ensures
        (r is Ok) <==> (forall|i: int| 0 <= i < config.hooks@.len() ==> is_hook_name(
            (#[trigger] config.hooks@[i]).0@,
        )),
        (match r {
            Ok(scripts) => {
                &&& scripts@.len() == config.hooks@.len()
                &&& forall|i: int| 0 <= i < scripts@.len() ==> ((#[trigger] scripts@[i]).0@,
                    scripts@[i].1@) == hook_scripts(config.hooks@)[i]
            },
            Err(e) => {
                let b = first_bad_hook(config.hooks@);
                &&& 0 <= b < config.hooks@.len()
                &&& e == HookError::InvalidHook(config.hooks@[b].0)
            },
        }),
{
    proof {
        reveal_strlit("pre-commit");
        reveal_strlit("prepare-commit-msg");
        reveal_strlit("commit-msg");
        reveal_strlit("post-commit");
        reveal_strlit("pre-push");
        reveal_strlit("#!/bin/sh");
        reveal_strlit("\n\n");
        reveal_strlit("echo 'i Running ");
        reveal_strlit(" hook'");
        reveal_strlit("\n");
    }
    let mut scripts: Vec<(String, String)> = Vec::new();
    let mut i: usize = 0;
    while i < config.hooks.len()
        invariant
            i <= config.hooks@.len(),
            scripts@.len() == i,
            forall|j: int| 0 <= j < i ==> is_hook_name((#[trigger] config.hooks@[j]).0@),
            forall|j: int| 0 <= j < i ==> ((#[trigger] scripts@[j]).0@, scripts@[j].1@)
                == hook_scripts(config.hooks@)[j],
        decreases config.hooks@.len() - i,
    {
        let key = &config.hooks[i].0;
        let named = crate::config::str_eq(key.as_str(), "pre-commit") || crate::config::str_eq(
            key.as_str(),
            "prepare-commit-msg",
        ) || crate::config::str_eq(key.as_str(), "commit-msg") || crate::config::str_eq(
            key.as_str(),
            "post-commit",
        ) || crate::config::str_eq(key.as_str(), "pre-push");
        if !named {
            proof {
                lemma_first_bad_hook_at(config.hooks@, i as int);
            }
            return Err(HookError::InvalidHook(key.clone()));
        }
        let mut script = "#!/bin/sh".to_owned();
        script.append("\n\n");
        script.append("echo 'i Running ");
        script.append(key.as_str());
        script.append(" hook'");
        script.append("\n\n");
        let ghost head = script@;
        let commands = &config.hooks[i].1;
        let mut k: usize = 0;
        while k < commands.len()
            invariant
                k <= commands@.len(),
                script@ == head + commands_text(commands@.subrange(0, k as int)),
            decreases commands@.len() - k,
        {
            script.append(commands[k].as_str());
            script.append("\n");
            k = k + 1;
            proof {
                reveal_strlit("\n");
                let p = commands@.subrange(0, k - 1);
                let q = commands@.subrange(0, k as int);
                assert(q.drop_last() =~= p);
                assert(q.last() == commands@[k - 1]);
                assert(script@ =~= head + commands_text(q));
            }
        }
        proof {
            assert(commands@.subrange(0, commands@.len() as int) =~= commands@);
            assert(script@ =~= hook_script(key@, commands@));
        }
        scripts.push((key.clone(), script));
        i = i + 1;
    }
    Ok(scripts)
}

proof fn lemma_first_bad_hook_at(hooks: Seq<(String, Vec<String>)>, k: int)
    requires
        0 <= k < hooks.len(),
        forall|j: int| 0 <= j < k ==> is_hook_name((#[trigger] hooks[j]).0@),
        !is_hook_name(hooks[k].0@),
    ensures
        first_bad_hook(hooks) == k,
    decreases k,
{
    if k == 0 {
    } else {
        let t = hooks.subrange(1, hooks.len() as int);
        assert forall|j: int| 0 <= j < k - 1 implies is_hook_name((#[trigger] t[j]).0@) by {
            assert(t[j] == hooks[j + 1]);
        }
        assert(t[k - 1] == hooks[k]);
        lemma_first_bad_hook_at(t, k - 1);
    }
}

} // verus!

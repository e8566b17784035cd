//! Hook script generation and the configuration registry.

use gitt::config::Config;
use gitt::error::HookError;
use gitt::hooks::create_git_hooks_scripts;

#[test]
fn scripts_for_configured_hooks() {
    let mut config = Config::default();
    config.hooks = vec![
        ("pre-commit".to_string(), vec!["cargo test".to_string(), "cargo fmt".to_string()]),
        ("pre-push".to_string(), vec![]),
    ];
    let scripts = create_git_hooks_scripts(&config).unwrap();
    assert_eq!(scripts.len(), 2);
    assert_eq!(scripts[0].0, "pre-commit");
    assert_eq!(
        scripts[0].1,
        "#!/bin/sh\n\necho 'i Running pre-commit hook'\n\ncargo test\ncargo fmt\n"
    );
    assert_eq!(scripts[1].1, "#!/bin/sh\n\necho 'i Running pre-push hook'\n\n");
}

#[test]
fn unknown_hook_name_is_rejected() {
    let mut config = Config::default();
    config.hooks = vec![("post-merge".to_string(), vec!["echo hi".to_string()])];
    let r = create_git_hooks_scripts(&config);
    assert_eq!(r, Err(HookError::InvalidHook("post-merge".to_string())));
}

#[test]
fn default_valid_types() {
    let types = Config::default().valid_types();
    assert_eq!(
        types,
        vec![
            "build", "cd", "chore", "ci", "docs", "feat", "fix", "perf", "refactor", "style",
            "test"
        ]
        .into_iter()
        .map(|s| s.to_string())
        .collect::<Vec<String>>()
    );
}

#[test]
fn minor_triggering_types() {
    let config = Config::default();
    assert!(config.type_is_minor_inc("feat"));
    assert!(!config.type_is_minor_inc("fix"));
    assert!(!config.type_is_minor_inc("docs"));
}

#[test]
fn hooks_folder_under_the_repo() {
    let config = Config::default();
    assert_eq!(config.hooks_folder("/srv/repo"), "/srv/repo/.gitt/hooks");
}

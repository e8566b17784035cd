//! Conventional-commit tooling: a parser and formatter for conventional
//! commit messages, semantic-version derivation from a commit history, and
//! grouped changelog construction.
//!
//! The library is pure: it takes commit and tag records, a configuration
//! and message text as plain values, and returns parsed records, derived
//! versions and grouped releases. Running git, prompting, rendering and
//! file handling live with the caller.

pub mod changelog;
pub mod commands;
pub mod commit;
pub mod config;
pub mod conventional;
pub mod error;
pub mod git;
pub mod hooks;
pub mod text;
pub mod utils;
pub mod version;

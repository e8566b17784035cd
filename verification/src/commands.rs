//! The argument records of the command-line commands. The executable
//! shell parses its flags into copies of these and hands them over as
//! plain values; the records themselves carry no parsing machinery.

pub mod amend;
pub mod bump;
pub mod changelog;
pub mod commit;
pub mod init;
pub mod install_hooks;
pub mod lint;
pub mod release;

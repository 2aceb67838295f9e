//! Toggle a directory's membership in a colon-separated `PATH` list and
//! rewrite the `export PATH=` line of a shell startup file.
//!
//! The library is pure: it works on strings and string lists that the caller
//! hands it.  Reading environment variables, probing the filesystem and
//! writing the startup file back are left to the surrounding program.

pub mod strings;
pub mod pathlist;
pub mod config;
pub mod shell;
pub mod messages;

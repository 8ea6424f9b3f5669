//! Manage the user-level environment variables that point a development
//! toolchain at one installed version of the MySQL client library.
//!
//! The library holds the verified logic: the version catalog and its
//! two-step selection, validation of manually entered version strings,
//! and the rewrite rule for the PATH value. Reading and writing the
//! persistent store is left to the surrounding binary.

pub mod catalog;
pub mod env;
pub mod pathlist;
pub mod text;
pub mod version;

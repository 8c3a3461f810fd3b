//! Registry endpoints and credentials from npm run-control (`.npmrc`) files.
//!
//! - [`ini`] splits the text into key/value and section records.
//! - [`expand`] replaces `${NAME}` placeholders in values through a lookup.
//! - [`parse`] turns the records into an [`config::NpmRc`].
//! - [`config`] resolves the registry URL and credentials of a package by the
//!   longest matching host/path prefix.
//! - [`resolved`] precomputes the resolution of every scope of a file.

pub mod config;
pub mod expand;
pub mod ini;
pub mod parse;
pub mod resolved;
pub mod scope;
pub mod text;

//! Verified core of a library-browsing service.
//!
//! The library exposes the logic behind a paginated, filterable directory
//! listing: classifying entries as files or directories, annotating
//! directories with child-presence flags, suppressing empty directories,
//! sorting the result deterministically, substring filtering, and windowed
//! pagination. Filesystem access and the HTTP transport live outside this
//! crate; they hand plain values in and take plain values back.

pub mod config;
pub mod library;
pub mod page;
pub mod routes;
pub mod text;

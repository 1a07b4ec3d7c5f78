//! A verified canonicalizer for the path component of a request URI.
//!
//! The canonical form of a path merges every run of `/` into one, resolves
//! `.` and `..` segments without ever escaping above the root, and ends with
//! `/` exactly when it is not the root and either the input ended with `/`
//! or the cleaned path carries no file extension. [`CleanPath::canonicalize`]
//! tells a request pipeline whether a path is already canonical or must be
//! redirected to its canonical form.

pub mod laws;
mod lemmas;
pub mod model;

mod canon;

pub use canon::clean;
pub use canon::has_ext;
pub use canon::CleanPath;
pub use canon::Outcome;

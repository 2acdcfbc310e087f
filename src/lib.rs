//! Rewrites a package manifest so that the package builds on its own: path
//! dependencies become registry dependencies and workspace declarations go.
pub mod error;
pub mod frob;
pub mod manifest;
pub mod value;

pub use error::ErrorKind;
pub use frob::frob_table;
pub use manifest::{parse_manifest, render_manifest, rewrite_manifest};
pub use value::{Item, Table};

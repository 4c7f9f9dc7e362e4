//! Boundaries of override tags: where a color or alpha name ends and how an empty
//! override is stepped over.
pub mod color_name;
pub mod recovery;

pub use color_name::split_color_name;
pub use recovery::{empty_override, DiagnosticKind, TagDiagnostic};

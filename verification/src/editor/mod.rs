//! Event-editing commands of an ASS subtitle editor and the document they edit.
pub mod commands;
pub mod document;
pub mod edits;
pub mod fields;
pub mod layout;
pub mod lines;
pub mod rewrites;
pub mod texts;

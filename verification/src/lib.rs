//! Tag-boundary helpers for ASS override blocks and the event-editing
//! commands of an ASS subtitle editor, with their contracts.
pub mod tags;
pub mod text;
pub mod editor;

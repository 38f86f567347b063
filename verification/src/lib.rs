//! The selection engine of a text editor: cursors and selections anchored in a
//! versioned text buffer, kept ordered and disjoint as they move, grow and are
//! duplicated, and projected into frames for a viewport.

pub mod buffer;
pub mod editor;
pub mod movement;
pub mod store;
pub mod text;

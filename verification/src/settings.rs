//! Settings of the editor.
pub mod debugging;

//! A library for annotating texts line by line: texts are split into lines
//! and words, commentary (a translation and a description) is attached to
//! positions of a line, and the editing session is a state machine whose
//! rendering marks the cursor with terminal escape codes.
pub mod converter;
pub mod page;
pub mod pdf;
pub mod render;
pub mod session;
pub mod structure;

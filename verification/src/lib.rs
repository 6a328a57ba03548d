//! Verified core of a Markdown note-taking tool.
//!
//! The library owns the in-memory model: a collection of notes kept sorted by
//! case-insensitive title, the open tabs, the current selection, a
//! confirmation workflow for destructive actions, the autosave decision, and a
//! line-oriented Markdown block renderer for preview. All file input and
//! output stays with the caller: the library decides what to do, states it in
//! contracts, and the caller performs the reads and writes.

pub mod blocks;
pub mod laws;
pub mod model;
pub mod render;
pub mod state;
pub mod text;

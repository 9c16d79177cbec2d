//! Core of an interactive shell-history picker.
//!
//! The library turns the raw bytes of a shell history file into a clean,
//! ordered corpus of distinct command strings, ranks that corpus against a
//! query typed by the user, and tracks the interaction state (selection
//! cursor, query editing, browsing/editing mode) of a picking session.
//! Terminal rendering, event capture and clipboard access live outside of it.

pub mod ingest;
pub mod rank;
pub mod select;
pub mod session;

//! Decision logic of a tool that moves folders and files to another drive and
//! leaves a link at the old place: which source rows the form holds, which
//! names collide, where a backup goes, and how each user event changes the
//! form and what outside work it asks for.

pub mod links;
pub mod ops;
pub mod panel;
pub mod paths;
pub mod sources;
pub mod state;
pub mod text;

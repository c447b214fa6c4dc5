//! A small task tracker: a record codec for one task per line, a record store
//! that edits its text in place, and the task operations built on both.
pub mod text;
pub mod escape;
pub mod model;
pub mod storage;
pub mod service;

//! The verified core of an interactive disk-usage treemap: a file tree
//! filled incrementally by a background scan, a squarified treemap layout
//! over the displayed directory, and the state machine that ties them to
//! the interface.

pub mod app;
pub mod board;
pub mod files;

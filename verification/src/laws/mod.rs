//! What the filters do, in terms of the texts that go in and come out.
//!
//! The statements speak of lines, of characters and of what the patterns match,
//! and not of the steps that a filter takes.
pub mod base;
pub mod builds;
pub mod log;
pub mod passes;
pub mod read;
pub mod source;
pub mod tree;
pub mod wc;

//! Filters that shorten the output of build and system tools to what matters.
//!
//! Each filter is a function from the output of a tool to the text that is
//! shown of it. The module of a filter says in spec functions what that text
//! is, and proves what the filter promises to keep. The module `laws` says of
//! the filters, in terms of their input and their result alone, what they do.
pub mod constants;
pub mod decimal;
pub mod filter;
pub mod jvm;
pub mod laws;
pub mod lines;
pub mod pattern;
pub mod system;
pub mod text;
pub mod utils;

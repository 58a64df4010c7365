//! Filters for the output of system tools.
pub mod constants;
pub mod log_cmd;
pub mod read;
pub mod tree;
pub mod wc_cmd;

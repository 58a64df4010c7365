//! Filters for the output of JVM build tools.
pub mod ant_cmd;
pub mod gradle_cmd;
pub mod line_dedup;
pub mod marker;
pub mod mvn_cmd;
pub mod report;
pub mod stack_dedup;
pub mod stack_trim;

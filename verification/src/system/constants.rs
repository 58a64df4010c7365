//! What the filters for system tools share.
use vstd::prelude::*;

verus! {

/// Directories that are seldom of interest.
pub const NOISE_DIRS: [&'static str; 7] = [
    "node_modules",
    ".git",
    "target",
    "__pycache__",
    ".next",
    "dist",
    "build",
];

} // verus!

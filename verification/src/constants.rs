//! Names of files and directories, and defaults.
use vstd::prelude::*;

verus! {

/// The directory below the user's data directory.
pub const RTK_DATA_DIR: &'static str = "rtk";

/// The database with the history of commands.
pub const HISTORY_DB: &'static str = "history.db";

/// The configuration file.
pub const CONFIG_TOML: &'static str = "config.toml";

/// The file with filters of the user's own.
pub const FILTERS_TOML: &'static str = "filters.toml";

/// The list of filters that the user trusts.
pub const TRUSTED_FILTERS_JSON: &'static str = "trusted_filters.json";

/// For how many days the history is kept.
pub const DEFAULT_HISTORY_DAYS: i64 = 90;

} // verus!

//! Daily digest of dated log lines.
//!
//! Lines of the form `"<date> <message>"` are merged into one ordered
//! sequence, partitioned into one group per day, and each day's version-tag
//! messages are folded into a single summary before the day is rendered as
//! one line of text.

pub mod text;
pub mod entry;
pub mod merge;
pub mod group;
pub mod semver;
pub mod options;
pub mod render;

pub use entry::{split_line, Commit, Commits, TimesheetError};
pub use group::group_days;
pub use merge::merge_lines;
pub use options::{find_config_file, ConfigSearch, Opt, CONFIG_FILENAME};
pub use render::{digest, render_day, run};
pub use semver::{collapse_with, is_version_message, semvercommits};

//! Decides where a glob pattern belongs among a repository's ignore files,
//! and what the ignore file should hold afterwards.
//!
//! The filesystem itself stays with the caller: it hands over what each
//! directory lists, and the library says which directory to read next and
//! what to write once the search is over.
pub mod edit;
pub mod listing;
pub mod locate;
pub mod report;
pub mod text;

pub use edit::{edit_for, pattern_line, IgnoreEdit};
pub use listing::{scan_entries, Scan};
pub use locate::{Decision, LocateError, Locator, PlannedAction, SearchOutcome};
pub use report::{select_log_level, tidy_line};
pub use text::{contains_pattern, same_text};

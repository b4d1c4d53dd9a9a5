//! Parsing and summarizing for a plain-text timesheet format.
//!
//! One entry per line, `DATE START-END PROJECT [NOTE]`:
//!
//!     2026-08-25 09:00-12:30 acme setup and standup
//!
//! Blank lines and lines starting with `#` are passed over.

pub mod calendar;
pub mod entry;
pub mod error;
pub mod laws;
pub mod summary;
pub mod text;

pub use calendar::{days_in_month, is_leap_year, Date, Time};
pub use entry::{parse_line, parse_source_line, Entry};
pub use error::ParseError;
pub use summary::{
    filter_by_date_range, fits_in_totals, summarize_by_day, summarize_by_project, DayTotals, ProjectTotals,
};

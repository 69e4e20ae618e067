//! Daily histogram of commit activity: bucket commit timestamps by calendar
//! day, fill missing days with zero counts, and render the counts as a
//! space-separated line over an optional bounded date range.

pub mod bounds;
pub mod date;
pub mod digits;
pub mod freq;

pub use date::Date;

//! Human-friendly time formatting and parsing.
//!
//! All functions are pure: no side effects, no I/O, no system clock access.
//! The reference timestamp is always passed explicitly.

pub mod calendar;
pub mod dates;
pub mod duration;
pub mod error;
pub mod options;
pub mod parse;
pub mod roundtrip;
pub mod text;
pub mod timeago;
pub mod timestamp;

pub use dates::date_range;
pub use dates::human_date;
pub use duration::duration;
pub use error::ParseError;
pub use options::DurationOptions;
pub use parse::parse_duration;
pub use timeago::timeago;
pub use timestamp::CivilDateTime;
pub use timestamp::Timestamp;
pub use timestamp::parse_iso8601;

//! Timetable search: picks one class per activity so that the week has few
//! clashes and compact, well-placed hours.

pub mod timetable;
pub mod score;
pub mod engine;
pub mod select;
pub mod search;
pub mod session;

//! A weekly day planner.
//!
//! The planner keeps one [`Day`] per weekday, a schedulable window
//! ([`Config`]), and a master list of pending dynamic tasks. A day's fixed
//! commitments ([`StaticTask`]) recur weekly; dynamic tasks
//! ([`DynamicTask`]) are dated and either anchored to an exact window or
//! flexible, needing only a duration of free time. The library computes the
//! free-time gaps a day leaves ([`Day::get_freetime`]) and places the day's
//! dynamic tasks into those gaps, splitting a flexible task across several
//! gaps when it does not fit in one.

pub mod day;
pub mod errors;
pub mod planner;
pub mod schedule;
mod sys;
pub mod tags;
pub mod task;
pub mod text;
pub mod time;

pub use day::Day;
pub use errors::ErrIdx;
pub use errors::PlanError;
pub use planner::Planner;
pub use schedule::Diagnostic;
pub use schedule::Schedule;
pub use tags::TagSearch;
pub use task::DynamicTask;
pub use task::StaticTask;
pub use task::Task;
pub use time::Config;
pub use time::PartOfDay;
pub use time::TimeRange;

use vstd::prelude::*;

verus! {

/// The recoverable failures of the planner's operations.
///
/// Range errors carry the offending index; temporal and shape errors are
/// plain variants. No planner operation panics: every failure is returned
/// as one of these.
#[derive(Debug, PartialEq, Eq)]
pub enum PlanError {
    /// A day index outside 0..=6 was given.
    DayOutOfRange { given: usize },
    /// A local index into a day's fixed-task list was out of bounds.
    NoSuchStaticTask { index: usize },
    /// A local index into a day's dynamic-task references was out of bounds.
    NoSuchDynamicTask { index: usize },
    /// The referenced task is no longer in the master list.
    MissingFromMaster,
    /// A dynamic task dated before today cannot be added.
    DateInPast,
    /// Splitting applies only to flexible dynamic tasks.
    NotFlexible,
    /// An explicit window has no named part of day to derive one from.
    AlreadyFixed,
}

impl PlanError {
    /// A short human-readable description of the failure.
    pub fn message(&self) -> &'static str {
        match self {
            PlanError::DayOutOfRange { .. } => "expected a day index of at most 6",
            PlanError::NoSuchStaticTask { .. } => "there is no fixed task at that index",
            PlanError::NoSuchDynamicTask { .. } => "there is no dynamic task at that index",
            PlanError::MissingFromMaster => "the referenced task is not in the master list",
            PlanError::DateInPast => "a task cannot start in the past",
            PlanError::NotFlexible => "expected a flexible dynamic task",
            PlanError::AlreadyFixed => "did not expect an explicit window",
        }
    }
}

/// An index paired with the description of what went wrong there, as
/// reported to callers that address tasks by position.
#[derive(Debug, PartialEq, Eq)]
pub struct ErrIdx {
    pub idx: usize,
    pub err: String,
}

impl ErrIdx {
    pub fn new(idx: usize, err: String) -> (r: Self)
        ensures
            r.idx == idx,
            r.err == err,
    {
        ErrIdx { idx, err }
    }
}

} // verus!

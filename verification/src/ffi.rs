//! Result codes for callers in other languages.

use vstd::prelude::*;
use crate::error::ErrorKind;
use crate::search::SearchResult;

verus! {

/// The result of a call, as a code that other languages understand.
#[derive(Clone, Copy, Debug, PartialEq, Eq, Structural)]
pub enum PlannerResult {
    Success,
    SolutionFound,
    NoSolutionFound,
    ParseError,
    FileError,
    InvalidHandle,
}

impl PlannerResult {
    /// The number of a result: 0 for success, 1 for a solution, 2 for none,
    /// 3 for a parse error, 4 for a file error, 5 for an invalid handle.
    pub open spec fn spec_code(self) -> i32 {
        match self {
            PlannerResult::Success => 0,
            PlannerResult::SolutionFound => 1,
            PlannerResult::NoSolutionFound => 2,
            PlannerResult::ParseError => 3,
            PlannerResult::FileError => 4,
            PlannerResult::InvalidHandle => 5,
        }
    }

    /// The number of a result.
    pub fn code(self) -> (c: i32)
        ensures
            c == self.spec_code(),
    {
        match self {
            PlannerResult::Success => 0,
            PlannerResult::SolutionFound => 1,
            PlannerResult::NoSolutionFound => 2,
            PlannerResult::ParseError => 3,
            PlannerResult::FileError => 4,
            PlannerResult::InvalidHandle => 5,
        }
    }

    /// The result that reports how a search ended: a solution was found, or
    /// none was, because there is none or because the search gave up.
    pub fn of_search(result: &SearchResult) -> (r: PlannerResult)
        ensures
            r == (if result is Solution {
                PlannerResult::SolutionFound
            } else {
                PlannerResult::NoSolutionFound
            }),
    {
        match result {
            SearchResult::Solution(_) => PlannerResult::SolutionFound,
            _ => PlannerResult::NoSolutionFound,
        }
    }

    /// The result that reports an error: a file error where a file could not
    /// be read, and a parse error for every other kind.
    pub fn of_error(kind: ErrorKind) -> (r: PlannerResult)
        ensures
            r == (if kind == ErrorKind::IOFailure {
                PlannerResult::FileError
            } else {
                PlannerResult::ParseError
            }),
    {
        match kind {
            ErrorKind::IOFailure => PlannerResult::FileError,
            _ => PlannerResult::ParseError,
        }
    }
}

} // verus!

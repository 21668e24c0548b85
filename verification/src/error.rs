//! Errors and warnings that parsing, compilation and search can report.

use vstd::prelude::*;

verus! {

/// The kinds of failure the planner distinguishes.
#[derive(Clone, Copy, Debug, PartialEq, Eq, Structural)]
pub enum ErrorKind {
    /// The text cannot be turned into a tree, or a tree has the wrong shape.
    MalformedSyntax,
    /// A temporal operator other than `at start`, `at end` or `over all`.
    UnknownTemporalOperator,
    /// A literal names a predicate that the domain does not declare.
    UnknownSymbol,
    /// A requirement flag that the planner does not implement.
    UnsupportedFeature,
    /// A duration that is not a numeric constant; it only ever appears as a warning.
    UnsupportedDurationExpression,
    /// The temporal network has a negative cycle.
    InconsistentTemporalConstraints,
    /// A deadline or an expansion budget was reached.
    Interrupted,
    /// The search frontier ran empty.
    NoSolution,
    /// A file could not be read.
    IOFailure,
}

/// An error together with the place it was found at.
#[derive(Debug)]
pub struct PlannerError {
    pub kind: ErrorKind,
    /// Byte offset into the offending text, where one is known.
    pub offset: Option<usize>,
    /// The offending token, where one is known.
    pub token: Option<String>,
}

/// What an error says, as contracts speak of it.
pub struct Fault {
    pub kind: ErrorKind,
    pub offset: Option<int>,
    pub token: Option<Seq<char>>,
}

impl View for PlannerError {
    type V = Fault;

    open spec fn view(&self) -> Fault {
        Fault {
            kind: self.kind,
            offset: match self.offset {
                Some(o) => Some(o as int),
                None => None,
            },
            token: match self.token {
                Some(t) => Some(t@),
                None => None,
            },
        }
    }
}

/// The fault of the given kind with no position attached.
pub open spec fn fault(kind: ErrorKind) -> Fault {
    Fault { kind, offset: None, token: None }
}

/// The fault of the given kind at an offset.
pub open spec fn fault_at(kind: ErrorKind, offset: int) -> Fault {
    Fault { kind, offset: Some(offset), token: None }
}

/// The fault of the given kind about a token.
pub open spec fn fault_about(kind: ErrorKind, token: Seq<char>) -> Fault {
    Fault { kind, offset: None, token: Some(token) }
}

impl PlannerError {
    /// An error of the given kind with no position attached.
    pub fn new(kind: ErrorKind) -> (e: PlannerError)
        ensures
            e@ == fault(kind),
    {
        PlannerError { kind, offset: None, token: None }
    }

    /// An error of the given kind at an offset.
    pub fn at(kind: ErrorKind, offset: usize) -> (e: PlannerError)
        ensures
            e@ == fault_at(kind, offset as int),
    {
        PlannerError { kind, offset: Some(offset), token: None }
    }

    /// An error of the given kind about a token.
    pub fn about(kind: ErrorKind, token: String) -> (e: PlannerError)
        ensures
            e@ == fault_about(kind, token@),
    {
        PlannerError { kind, offset: None, token: Some(token) }
    }
}

/// A non-fatal finding that accumulates on a compiled task.
#[derive(Debug)]
pub struct Warning {
    pub kind: ErrorKind,
    /// The name of the action the warning is about.
    pub action: String,
    /// The number of the action the warning is about.
    pub action_index: usize,
}

pub struct WarningView {
    pub kind: ErrorKind,
    pub action: Seq<char>,
    pub action_index: int,
}

impl View for Warning {
    type V = WarningView;

    open spec fn view(&self) -> WarningView {
        WarningView {
            kind: self.kind,
            action: self.action@,
            action_index: self.action_index as int,
        }
    }
}

} // verus!

//! A temporal planner: it compiles a planning domain and problem into an
//! indexed task and searches for a time-stamped plan.

use vstd::prelude::*;

pub mod actions;
pub mod balance;
pub mod clock;
pub mod compile;
pub mod domain;
pub mod error;
pub mod ffi;
pub mod formula;
pub mod grounding;
pub mod heuristics;
pub mod idempotence;
pub mod lexer;
pub mod numbers;
pub mod output;
pub mod plan;
pub mod problem;
pub mod reading;
pub mod scheduler;
pub mod search;
pub mod serialise;
pub mod sexpr;
pub mod state_space;
pub mod surface;
pub mod temporal_task;
pub mod text;
pub mod timeline;
pub mod timing;
pub mod typing;
pub mod writing;

pub use crate::error::{ErrorKind, PlannerError};
pub use crate::plan::Plan;
pub use crate::search::{SearchResult, TemporalAStarSearch, TemporalSearchEngine};
pub use crate::temporal_task::{Condition, Effect, State, TemporalAction, TemporalTask};

verus! {

/// The planner in one piece: it compiles texts into tasks and searches for
/// plans.
#[derive(Debug)]
pub struct TemporalPlanner {
    pub search_engine: TemporalAStarSearch,
}

impl Default for TemporalPlanner {
    fn default() -> (planner: TemporalPlanner)
        ensures
            planner.search_engine.heuristic is FastForward,
            planner.search_engine.budget == crate::search::DEFAULT_BUDGET,
            planner.search_engine.time_limit_millis is None,
    {
        TemporalPlanner::new()
    }
}

/// What the planner is and can do.
#[derive(Debug)]
pub struct PlannerInfo {
    pub version: String,
    pub search_algorithm: String,
    pub supports_durative_actions: bool,
    pub supports_numeric_fluents: bool,
}

impl TemporalPlanner {
    /// The planner with the default heuristic and the best-first engine.
    pub fn new() -> (planner: TemporalPlanner)
        ensures
            planner.search_engine.heuristic is FastForward,
            planner.search_engine.budget == crate::search::DEFAULT_BUDGET,
            planner.search_engine.time_limit_millis is None,
    {
        TemporalPlanner { search_engine: TemporalAStarSearch::new() }
    }

    /// Compiles a domain text and a problem text into a task.
    pub fn load_pddl_content(&self, domain_content: &str, problem_content: &str) -> (r: Result<
        TemporalTask,
        PlannerError,
    >)
        ensures
            match crate::compile::task_of(domain_content@, problem_content@) {
                Ok(task) => r is Ok && r->Ok_0@ == task,
                Err(f) => r is Err && r->Err_0@ == f,
            },
    {
        TemporalTask::from_pddl(domain_content, problem_content)
    }

    /// Searches for a plan of a task.
    pub fn solve(&mut self, task: &TemporalTask) -> (result: SearchResult)
        ensures
            result is Interrupted || result@ == old(self).search_engine.verdict(task@),
            !old(self).search_engine.timed() ==> result@ == old(self).search_engine.verdict(task@),
            result matches SearchResult::Solution(plan) ==> plan.wf() && crate::search::is_plan_of(
                task@,
                plan.steps(),
            ),
            *final(self) == *old(self),
    {
        let outcome = self.search_engine.search_traced(task);
        outcome.result
    }

    /// Compiles a domain text and a problem text and searches for a plan.
    pub fn solve_from_content(&mut self, domain_content: &str, problem_content: &str) -> (r: Result<
        SearchResult,
        PlannerError,
    >)
        ensures
            match crate::compile::task_of(domain_content@, problem_content@) {
                Ok(task) => {
                    &&& r is Ok
                    &&& (r->Ok_0 is Interrupted || r->Ok_0@ == old(self).search_engine.verdict(task))
                    &&& (!old(self).search_engine.timed() ==> r->Ok_0@ == old(self).search_engine.verdict(task))
                    &&& (r->Ok_0 matches SearchResult::Solution(plan) ==> plan.wf()
                        && crate::search::is_plan_of(task, plan.steps()))
                },
                Err(f) => r is Err && r->Err_0@ == f,
            },
            *final(self) == *old(self),
    {
        match TemporalTask::from_pddl(domain_content, problem_content) {
            Ok(task) => {
                let outcome = self.search_engine.search_traced(&task);
                Ok(outcome.result)
            },
            Err(e) => Err(e),
        }
    }

    /// What the planner is and can do.
    pub fn get_info(&self) -> (info: PlannerInfo)
        ensures
            info.version@ == "0.1.0"@,
            info.search_algorithm@ == "Temporal A*"@,
            info.supports_durative_actions,
            info.supports_numeric_fluents,
    {
        PlannerInfo {
            version: "0.1.0".to_owned(),
            search_algorithm: "Temporal A*".to_owned(),
            supports_durative_actions: true,
            supports_numeric_fluents: true,
        }
    }
}

/// Another name for the planner.
pub type TemporalFastDownward = TemporalPlanner;

} // verus!

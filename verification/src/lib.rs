//! Task graph: a store of typed values shared between tasks, and a directed
//! acyclic graph of tasks with direct and conditional edges together with the
//! scheduling decisions that run it.

mod context;
mod error;
mod graph;
mod laws;
mod schedule;
mod value;

pub use context::{legacy_key, ExtendedContext};
pub use error::GraphError;
pub use graph::{cond_count, conditions_of, seq_with, Edge, GraphView, LinkView, TaskGraph};
pub use laws::{
    batch_succeeded, branch_not_taken, count_marked, deps_from_edges, initial_state,
    law_add_edge_refused_iff_path_back, law_all_tasks_run, law_blocked_never_runs_later, law_blocked_stays_blocked,
    law_branch_not_taken_never_runs, law_condition_decides_branch, law_edges_back_dependencies,
    law_execution_progresses, law_finished_when_all_completed, law_first_failure, law_get_after_set, law_get_other_type_after_set,
    law_new_cycle_needs_path_back, law_new_task_is_isolated, law_remove_after_set, law_run_is_bounded,
    law_scheduled_tasks_are_ready, law_self_edge_is_cycle, law_set_keeps_other_keys, law_some_task_ready,
    law_stops_only_behind_blocked, law_successes_complete, no_conditional_edges, none_blocked, path_back,
    success_reports, successful_round, successful_rounds, successful_run, with_edge_tasks,
};
pub use schedule::{
    after_reports, after_success, block_after, block_step, failure_message, first_failure, ready, ready_tasks,
    ready_upto, reports_fit, reports_view, Action, ExecutionState, ExecutionView, ReportView, TaskReport,
};
pub use value::{strings_view, ContextValue, Kind, Value, ValueView};

//! The projections that the engine maintains.

pub mod causal_thread;
pub mod consent_graph;
pub mod current_facts;
pub mod task_state;
pub mod tool_ledger;

use vstd::prelude::*;

pub mod chunks;
pub mod constrained_strings;
pub mod error;
pub mod format_fields;
pub mod host_requirements;
pub mod job;
pub mod let_bindings;
pub mod parameters;
pub mod parse;
pub mod range_expr;
pub mod resolved;
pub mod step_param_space;
pub mod text;
pub mod types;

verus! {

} // verus!

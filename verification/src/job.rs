//! Resolved job types that the parameter space is built from.

use vstd::prelude::*;
use crate::range_expr::RangeExpr;
use crate::types::FloatValue;

verus! {

#[verifier::external_type_specification]
#[verifier::external_body]
#[verifier::reject_recursive_types(K)]
#[verifier::reject_recursive_types(V)]
#[verifier::reject_recursive_types(S)]
pub struct ExIndexMap<K, V, S>(indexmap::IndexMap<K, V, S>);

/// How chunks of a chunked integer parameter may be formed.
#[derive(Clone, Copy, Debug, PartialEq, Eq, Structural)]
pub enum RangeConstraint {
    /// Each chunk is a run of consecutive integers.
    Contiguous,
    /// A chunk may hold any of the values.
    Noncontiguous,
}

/// A resolved range: a concrete list or a range expression.
#[derive(Clone, Debug)]
pub enum TaskParamRange<T> {
    List(Vec<T>),
    RangeExpr(RangeExpr),
}

/// Chunking configuration with all format strings resolved.
#[derive(Clone, Copy, Debug, PartialEq, Eq, Structural)]
pub struct ResolvedChunks {
    pub default_task_count: usize,
    pub target_runtime_seconds: Option<usize>,
    pub range_constraint: RangeConstraint,
}

/// A resolved task parameter with concrete range values.
#[derive(Clone, Debug)]
pub enum TaskParameter {
    Int { range: TaskParamRange<i64>, chunks: Option<ResolvedChunks> },
    Float { range: Vec<FloatValue> },
    String { range: Vec<String> },
    Path { range: Vec<String> },
    ChunkInt { range: TaskParamRange<i64>, chunks: ResolvedChunks },
}

/// Resolved parameter space: named parameter definitions in definition
/// order, and an optional combination expression.
#[derive(Debug)]
pub struct StepParameterSpace {
    pub task_parameter_definitions: indexmap::IndexMap<String, TaskParameter>,
    pub combination: Option<String>,
}

/// A resolved host attribute requirement.
#[derive(Clone, Debug)]
pub struct AttributeRequirement {
    pub name: String,
    pub any_of: Option<Vec<String>>,
    pub all_of: Option<Vec<String>>,
}

/// A dependency of a step on another step.
#[derive(Clone, Debug)]
pub struct StepDependency {
    pub depends_on: String,
}

/// The entries of a parameter definition map, in insertion order.
pub uninterp spec fn definition_entries(m: indexmap::IndexMap<String, TaskParameter>) -> Seq<(String, TaskParameter)>;

/// Lists the entries of an `indexmap::IndexMap` in insertion order (its
/// iteration order), each key and value cloned. An `IndexMap` holds each
/// key at most once.
#[verifier::external_body]
pub(crate) fn definitions_list(m: &indexmap::IndexMap<String, TaskParameter>) -> (r: Vec<(String, TaskParameter)>)
    ensures
        r@ == definition_entries(*m),
        forall|i: int, j: int| 0 <= i < j < r@.len() ==> r@[i].0@ != r@[j].0@,
{
    m.iter().map(|(k, v)| (k.clone(), v.clone())).collect()
}

} // verus!

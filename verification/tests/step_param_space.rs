//! Tests of the parameter space helpers and iterator, on hand-built spaces.

use indexmap::IndexMap;
use openjd_model::job::{RangeConstraint, ResolvedChunks, StepParameterSpace, TaskParamRange, TaskParameter};
use openjd_model::range_expr::RangeExpr;
use openjd_model::step_param_space::{compress_range_expr, tokenize, StepParameterSpaceIterator};
use openjd_model::types::{ParamValue, TaskParameterSet, TaskParameterType, TaskParameterValue};

#[test]
fn test_compress_range_expr() {
    assert_eq!(compress_range_expr(&[1, 2, 3]), "1-3");
    assert_eq!(compress_range_expr(&[1, 2, 3, 5, 7, 8, 9]), "1-3,5,7-9");
    assert_eq!(compress_range_expr(&[1]), "1");
    assert_eq!(compress_range_expr(&[1, 3]), "1,3");
    assert_eq!(compress_range_expr(&[]), "");
}

#[test]
fn test_tokenize() {
    assert_eq!(tokenize("A * B"), vec!["A", "*", "B"]);
    assert_eq!(tokenize("(A, B) * C"), vec!["(", "A", ",", "B", ")", "*", "C"]);
    assert_eq!(tokenize("A"), vec!["A"]);
}

fn make_space(params: Vec<(&str, TaskParameter)>, combination: Option<&str>) -> StepParameterSpace {
    let mut defs = IndexMap::new();
    for (name, param) in params {
        defs.insert(name.to_string(), param);
    }
    StepParameterSpace { task_parameter_definitions: defs, combination: combination.map(|s| s.to_string()) }
}

fn int_param(values: Vec<i64>) -> TaskParameter {
    TaskParameter::Int { range: TaskParamRange::List(values), chunks: None }
}

fn adaptive_chunk_param(values: Vec<i64>, default_task_count: usize) -> TaskParameter {
    TaskParameter::ChunkInt {
        range: TaskParamRange::List(values),
        chunks: ResolvedChunks {
            default_task_count,
            target_runtime_seconds: Some(60),
            range_constraint: RangeConstraint::Noncontiguous,
        },
    }
}

fn range_expr_param(expr: &str) -> TaskParameter {
    TaskParameter::Int { range: TaskParamRange::RangeExpr(RangeExpr::parse(expr).unwrap()), chunks: None }
}

fn static_chunk_param(expr: &str, default_task_count: usize) -> TaskParameter {
    TaskParameter::ChunkInt {
        range: TaskParamRange::RangeExpr(RangeExpr::parse(expr).unwrap()),
        chunks: ResolvedChunks {
            default_task_count,
            target_runtime_seconds: None,
            range_constraint: RangeConstraint::Contiguous,
        },
    }
}

fn int_of(set: &TaskParameterSet, name: &str) -> i64 {
    match &set.get(name).unwrap().value {
        ParamValue::Int(i) => *i,
        other => panic!("expected Int for {name}, got {other:?}"),
    }
}

fn collect(mut iter: StepParameterSpaceIterator) -> Vec<TaskParameterSet> {
    let mut out = Vec::new();
    while let Some(s) = iter.next() {
        out.push(s);
    }
    out
}

const HUGE_RANGE: &str = "1-100000000000";

#[test]
fn test_lazy_construction_range_expr() {
    let space = make_space(vec![("X", range_expr_param(HUGE_RANGE))], None);
    let iter = StepParameterSpaceIterator::new(&space).unwrap();
    assert_eq!(iter.len(), 100_000_000_000);
}

#[test]
fn test_lazy_random_access_range_expr() {
    let space = make_space(vec![("X", range_expr_param(HUGE_RANGE))], None);
    let iter = StepParameterSpaceIterator::new(&space).unwrap();
    let first = iter.get(0).unwrap();
    assert_eq!(int_of(&first, "X"), 1);
    let last = iter.get(99_999_999_999).unwrap();
    assert_eq!(int_of(&last, "X"), 100_000_000_000);
}

#[test]
fn test_lazy_product_with_huge_range() {
    let space = make_space(vec![("A", int_param(vec![1, 2])), ("X", range_expr_param(HUGE_RANGE))], None);
    let iter = StepParameterSpaceIterator::new(&space).unwrap();
    assert_eq!(iter.len(), 200_000_000_000);
    let mid = iter.get(50_000_000_000).unwrap();
    assert!(mid.contains_key("A"));
    assert!(mid.contains_key("X"));
}

#[test]
fn test_lazy_iterate_first_few_of_huge_range() {
    let space = make_space(vec![("X", range_expr_param(HUGE_RANGE))], None);
    let mut iter = StepParameterSpaceIterator::new(&space).unwrap();
    let first = iter.next().unwrap();
    assert_eq!(int_of(&first, "X"), 1);
    let second = iter.next().unwrap();
    assert_eq!(int_of(&second, "X"), 2);
}

#[test]
fn test_lazy_product_iterate_first_few() {
    let space = make_space(vec![("A", int_param(vec![10, 20])), ("X", range_expr_param(HUGE_RANGE))], None);
    let mut iter = StepParameterSpaceIterator::new(&space).unwrap();
    let first = iter.next().unwrap();
    assert!(first.contains_key("A"));
    assert!(first.contains_key("X"));
    for _ in 0..10 {
        assert!(iter.next().is_some());
    }
}

#[test]
fn test_lazy_static_chunk_with_huge_range() {
    let space = make_space(vec![("C", static_chunk_param(HUGE_RANGE, 1000))], None);
    let iter = StepParameterSpaceIterator::new(&space).unwrap();
    assert_eq!(iter.len(), 100_000_000);
    let last = iter.get(99_999_999).unwrap();
    assert!(last.contains_key("C"));
}

#[test]
fn test_lazy_iter_of_product_with_huge_range() {
    let space = make_space(
        vec![
            ("A", int_param(vec![1, 2])),
            ("X", range_expr_param(HUGE_RANGE)),
            ("Chunk", adaptive_chunk_param(vec![10, 20, 30, 40], 2)),
        ],
        None,
    );
    let mut iter = StepParameterSpaceIterator::new(&space).unwrap();
    assert!(iter.chunks_adaptive());
    let mut count = 0;
    while let Some(params) = iter.next() {
        assert!(params.contains_key("A"));
        assert!(params.contains_key("X"));
        assert!(params.contains_key("Chunk"));
        count += 1;
        if count >= 5 {
            break;
        }
    }
    assert_eq!(count, 5);
}

#[test]
fn test_len_returns_zero_for_adaptive_chunking() {
    let space = make_space(vec![("Chunk", adaptive_chunk_param(vec![1, 2, 3, 4, 5, 6], 2))], None);
    let iter = StepParameterSpaceIterator::new(&space).unwrap();
    assert!(iter.chunks_adaptive());
    assert_eq!(iter.len(), 0);
}

#[test]
fn test_get_returns_none_for_adaptive_chunking() {
    let space = make_space(vec![("Chunk", adaptive_chunk_param(vec![1, 2, 3, 4, 5, 6], 2))], None);
    let iter = StepParameterSpaceIterator::new(&space).unwrap();
    assert!(iter.chunks_adaptive());
    assert!(iter.get(0).is_none());
}

#[test]
fn test_adaptive_chunking_with_multiple_params_iterates() {
    let space = make_space(
        vec![("Frame", int_param(vec![1, 2])), ("Chunk", adaptive_chunk_param(vec![10, 20, 30, 40], 2))],
        None,
    );
    let mut iter = StepParameterSpaceIterator::new(&space).unwrap();
    assert!(iter.chunks_adaptive());
    let mut count = 0;
    while let Some(params) = iter.next() {
        assert!(params.contains_key("Frame"));
        assert!(params.contains_key("Chunk"));
        count += 1;
        if count > 100 {
            break;
        }
    }
    assert_eq!(count, 4);
}

#[test]
fn test_adaptive_chunking_single_param_iterates() {
    let space = make_space(vec![("Chunk", adaptive_chunk_param(vec![1, 2, 3, 4, 5, 6], 3))], None);
    let results = collect(StepParameterSpaceIterator::new(&space).unwrap());
    assert_eq!(results.len(), 2);
}

#[test]
fn test_adaptive_with_association_iterates() {
    let space = make_space(
        vec![("Frame", int_param(vec![1, 2])), ("Chunk", adaptive_chunk_param(vec![10, 20], 1))],
        Some("(Frame, Chunk)"),
    );
    let results = collect(StepParameterSpaceIterator::new(&space).unwrap());
    assert_eq!(results.len(), 2);
}

fn tpv(param_type: TaskParameterType, value: ParamValue) -> TaskParameterValue {
    TaskParameterValue { param_type, value }
}

#[test]
fn test_validate_containment_name_mismatch() {
    let space = make_space(vec![("Frame", int_param(vec![1, 2, 3]))], None);
    let iter = StepParameterSpaceIterator::new(&space).unwrap();
    let mut params = TaskParameterSet::new();
    params.insert("Wrong".into(), tpv(TaskParameterType::Int, ParamValue::Int(1)));
    let err = iter.validate_containment(&params).unwrap_err();
    assert!(err.contains("do not match"), "got: {err}");
    assert!(err.contains("Wrong"), "got: {err}");
    assert!(err.contains("Frame"), "got: {err}");
}

#[test]
fn test_validate_containment_value_not_in_range() {
    let space = make_space(vec![("Frame", int_param(vec![1, 2, 3]))], None);
    let iter = StepParameterSpaceIterator::new(&space).unwrap();
    let mut params = TaskParameterSet::new();
    params.insert("Frame".into(), tpv(TaskParameterType::Int, ParamValue::Int(99)));
    let err = iter.validate_containment(&params).unwrap_err();
    assert!(err.contains("Frame"), "got: {err}");
    assert!(err.contains("99"), "got: {err}");
    assert!(err.contains("not in the parameter space range"), "got: {err}");
}

#[test]
fn test_validate_containment_range_expr_value_not_in_range() {
    let space = make_space(vec![("X", range_expr_param("1-10"))], None);
    let iter = StepParameterSpaceIterator::new(&space).unwrap();
    let mut params = TaskParameterSet::new();
    params.insert("X".into(), tpv(TaskParameterType::Int, ParamValue::Int(99)));
    let err = iter.validate_containment(&params).unwrap_err();
    assert!(err.contains("X"), "got: {err}");
    assert!(err.contains("99"), "got: {err}");
    assert!(err.contains("not in the parameter space range"), "got: {err}");
}

#[test]
fn test_validate_containment_success() {
    let space = make_space(vec![("Frame", int_param(vec![1, 2, 3]))], None);
    let iter = StepParameterSpaceIterator::new(&space).unwrap();
    let mut params = TaskParameterSet::new();
    params.insert("Frame".into(), tpv(TaskParameterType::Int, ParamValue::Int(2)));
    assert!(iter.validate_containment(&params).is_ok());
}

#[test]
fn test_validate_containment_association_not_found() {
    let space = make_space(vec![("A", int_param(vec![1, 2])), ("B", int_param(vec![10, 20]))], Some("(A, B)"));
    let iter = StepParameterSpaceIterator::new(&space).unwrap();
    let mut params = TaskParameterSet::new();
    params.insert("A".into(), tpv(TaskParameterType::Int, ParamValue::Int(1)));
    params.insert("B".into(), tpv(TaskParameterType::Int, ParamValue::Int(20)));
    let err = iter.validate_containment(&params).unwrap_err();
    assert!(err.contains("association"), "got: {err}");
}

#[test]
fn test_validate_containment_chunk_not_subset() {
    let space = make_space(vec![("C", static_chunk_param("1-10", 5))], None);
    let iter = StepParameterSpaceIterator::new(&space).unwrap();
    let mut params = TaskParameterSet::new();
    params.insert("C".into(), tpv(TaskParameterType::ChunkInt, ParamValue::RangeExpr(RangeExpr::parse("1-99").unwrap())));
    let err = iter.validate_containment(&params).unwrap_err();
    assert!(err.contains("C"), "got: {err}");
    assert!(err.contains("not"), "got: {err}");
}

#[test]
fn every_random_access_set_is_contained() {
    let space = make_space(
        vec![
            ("A", int_param(vec![1, 2, 3])),
            ("B", TaskParameter::String { range: vec!["x".to_string(), "y".to_string()] }),
            ("C", static_chunk_param("1-5,9", 2)),
        ],
        None,
    );
    let iter = StepParameterSpaceIterator::new(&space).unwrap();
    assert_eq!(iter.len(), 3 * 2 * 4);
    for i in 0..iter.len() {
        let set = iter.get(i).unwrap();
        assert!(iter.contains(&set), "set {i} is not contained");
    }
    let assoc = make_space(vec![("A", int_param(vec![1, 2])), ("B", int_param(vec![10, 20]))], Some("(A, B)"));
    let iter = StepParameterSpaceIterator::new(&assoc).unwrap();
    for i in 0..iter.len() {
        assert!(iter.contains(&iter.get(i).unwrap()));
    }
}

#[test]
fn association_inside_a_product_contains_its_own_sets() {
    // An association is matched on its own names only.
    let space = make_space(
        vec![("A", int_param(vec![1, 2])), ("B", int_param(vec![3, 4])), ("C", int_param(vec![5, 6]))],
        Some("A * (B, C)"),
    );
    let iter = StepParameterSpaceIterator::new(&space).unwrap();
    assert_eq!(iter.len(), 4);
    for i in 0..iter.len() {
        assert!(iter.contains(&iter.get(i).unwrap()), "set {i} is not contained");
    }
    // B=3 goes with C=5 only.
    let mut params = TaskParameterSet::new();
    params.insert("A".into(), tpv(TaskParameterType::Int, ParamValue::Int(2)));
    params.insert("B".into(), tpv(TaskParameterType::Int, ParamValue::Int(3)));
    params.insert("C".into(), tpv(TaskParameterType::Int, ParamValue::Int(6)));
    let err = iter.validate_containment(&params).unwrap_err();
    assert!(err.contains("association"), "got: {err}");
    assert!(err.contains("B=3") && err.contains("C=6") && !err.contains("A=2"), "got: {err}");
}

#[test]
fn unused_parameter_makes_names_differ() {
    // A defined parameter that the combination leaves out never appears in a set.
    let space = make_space(vec![("A", int_param(vec![1])), ("B", int_param(vec![2]))], Some("A"));
    let iter = StepParameterSpaceIterator::new(&space).unwrap();
    let set = iter.get(0).unwrap();
    let err = iter.validate_containment(&set).unwrap_err();
    assert!(err.contains("do not match"), "got: {err}");
}

#[test]
fn contiguous_chunks_cover_gapped_values() {
    let space = make_space(vec![("C", static_chunk_param("1-7,10-12,20", 3))], None);
    let iter = StepParameterSpaceIterator::new(&space).unwrap();
    let mut all: Vec<i64> = Vec::new();
    for set in collect(iter) {
        match &set.get("C").unwrap().value {
            ParamValue::RangeExpr(r) => {
                let vals = r.to_vec();
                assert!(!vals.is_empty() && vals.len() <= 3);
                all.extend(vals);
            }
            other => panic!("expected a range, got {other:?}"),
        }
    }
    assert_eq!(all, vec![1, 2, 3, 4, 5, 6, 7, 10, 11, 12, 20]);
}

#[test]
fn iteration_ends_where_random_access_ends() {
    let space = make_space(vec![("A", int_param(vec![4, 5])), ("B", int_param(vec![6]))], Some("A * B"));
    let mut iter = StepParameterSpaceIterator::new(&space).unwrap();
    let other = StepParameterSpaceIterator::new(&space).unwrap();
    assert_eq!(iter.size_hint(), (2, Some(2)));
    for i in 0..2 {
        let a = iter.next().unwrap();
        let b = other.get(i).unwrap();
        assert_eq!(int_of(&a, "A"), int_of(&b, "A"));
        assert_eq!(int_of(&a, "B"), int_of(&b, "B"));
    }
    assert_eq!(iter.size_hint(), (0, Some(0)));
    assert!(iter.next().is_none());
    assert!(other.get(2).is_none());
}

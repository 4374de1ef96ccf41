//! Tests of format string field validation.

use openjd_expr::format_string::FormatString;
use openjd_expr::function_library::FunctionLibrary;
use openjd_expr::profile::ExprProfile;
use openjd_expr::symbol_table::SymbolTable;
use openjd_model::error::{PathElement, ValidationErrors};
use openjd_model::format_fields::{
    failure_detail, record_field_evaluation, report_format_string_failure, validate_format_string_field,
    FailureParts, FieldEvaluation, SubErrorParts,
};
use openjd_model::resolved::{ResolvedConstraint, ResolvedValue, StaticResolutionView};

fn path() -> Vec<PathElement> {
    vec![PathElement::Field("name".to_string())]
}

fn validate(text: &str, constraint: Option<&ResolvedConstraint>) -> ValidationErrors {
    let profile = ExprProfile::current();
    let lib = FunctionLibrary::for_profile(&profile);
    let fs = FormatString::with_profile(text, &profile).unwrap();
    let mut symtab = SymbolTable::new();
    symtab.set("Param.Short", "abc").unwrap();
    symtab.set("Param.Count", 7).unwrap();
    let mut errors = ValidationErrors::new();
    validate_format_string_field(&fs, &symtab, &lib, &path(), constraint, &mut errors);
    errors
}

#[test]
fn literal_fields_are_not_looked_at() {
    let c = ResolvedConstraint::Text { max_len: 1, forbid_control_chars: true, forbid_empty: true };
    assert!(validate("a long literal", Some(&c)).errors.is_empty());
}

#[test]
fn resolved_text_is_held_to_its_constraint() {
    let c = ResolvedConstraint::Text { max_len: 2, forbid_control_chars: true, forbid_empty: true };
    let errors = validate("{{ Param.Short }}", Some(&c));
    assert_eq!(errors.errors.len(), 1);
    assert_eq!(errors.errors[0].path, path());
    assert_eq!(errors.errors[0].message, "resolves to at least 3 characters, exceeding the maximum of 2.");
    let wide = ResolvedConstraint::Text { max_len: 3, forbid_control_chars: true, forbid_empty: true };
    assert!(validate("{{ Param.Short }}", Some(&wide)).errors.is_empty());
    assert!(validate("{{ Param.Short }}", None).errors.is_empty());
}

#[test]
fn resolved_integers_are_range_checked() {
    let c = ResolvedConstraint::Int {
        min: 10,
        min_msg: "too small".to_string(),
        max: None,
        parse_msg: "not an integer".to_string(),
        nullable: false,
    };
    let errors = validate("{{ Param.Count }}", Some(&c));
    assert_eq!(errors.errors.len(), 1);
    assert_eq!(errors.errors[0].message, "too small");
}

#[test]
fn failing_interpolation_is_reported_with_detail() {
    let errors = validate("x {{ Param.Missing }}", None);
    assert_eq!(errors.errors.len(), 1);
    let e = &errors.errors[0];
    assert_eq!(e.path, path());
    assert!(e.message.starts_with("Failed to parse interpolation expression at [2, "), "{}", e.message);
    let d = e.detail.as_ref().unwrap();
    assert!(!d.spans.is_empty());
}

#[test]
fn failure_detail_uses_located_sub_errors() {
    let sub = |summary: &str, located: bool| SubErrorParts {
        summary: summary.to_string(),
        expr: if located { Some("a + b".to_string()) } else { None },
        col: Some(1),
        end_col: Some(4),
        caret: None,
    };
    let f = FailureParts {
        message: "bad".to_string(),
        input: "{{ a + b }}".to_string(),
        start: 0,
        end: 11,
        expression_summary: Some("both failed".to_string()),
        subs: vec![sub("first", true), sub("second", false)],
    };
    let d = failure_detail(&f);
    assert_eq!(d.summary, "both failed");
    assert_eq!(d.spans.len(), 1);
    assert_eq!(
        (d.spans[0].summary.as_str(), d.spans[0].source.as_str(), d.spans[0].start, d.spans[0].end, d.spans[0].caret),
        ("first", "a + b", 1, 4, 0)
    );
}

#[test]
fn failure_without_sub_errors_spans_the_interpolation() {
    let f = FailureParts {
        message: "Undefined".to_string(),
        input: "x {{ y }}".to_string(),
        start: 2,
        end: 9,
        expression_summary: None,
        subs: Vec::new(),
    };
    let mut errors = ValidationErrors::new();
    report_format_string_failure(&f, &path(), &mut errors);
    let e = &errors.errors[0];
    assert_eq!(e.message, "Failed to parse interpolation expression at [2, 9]. Undefined");
    let d = e.detail.as_ref().unwrap();
    assert_eq!(d.summary, "Undefined");
    assert_eq!(d.spans.len(), 1);
    assert_eq!((d.spans[0].source.as_str(), d.spans[0].start, d.spans[0].end, d.spans[0].caret), ("x {{ y }}", 2, 9, 0));
}

#[test]
fn recorded_evaluations_by_kind() {
    let c = ResolvedConstraint::Text { max_len: 2, forbid_control_chars: true, forbid_empty: true };
    let resolved = FieldEvaluation::Resolved(StaticResolutionView {
        min_resolved_string_len: 5,
        resolves_to_string: true,
        resolved_value: Some(ResolvedValue::Other { display: "hello".to_string() }),
    });
    let record = |ev: &FieldEvaluation, c: Option<&ResolvedConstraint>| {
        let mut errors = ValidationErrors::new();
        record_field_evaluation(ev, &path(), c, &mut errors);
        errors.errors.iter().map(|e| e.message.clone()).collect::<Vec<_>>()
    };
    assert!(record(&FieldEvaluation::Literal, Some(&c)).is_empty());
    assert_eq!(record(&resolved, Some(&c)), vec!["resolves to at least 5 characters, exceeding the maximum of 2."]);
    assert!(record(&resolved, None).is_empty());
    let failed = FieldEvaluation::Failed(FailureParts {
        message: "Undefined".to_string(),
        input: "{{ y }}".to_string(),
        start: 0,
        end: 7,
        expression_summary: None,
        subs: Vec::new(),
    });
    assert_eq!(record(&failed, None), vec!["Failed to parse interpolation expression at [0, 7]. Undefined"]);
}

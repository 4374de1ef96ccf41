use openjd_model::error::{path_field, path_index, DiagnosticSpan, ErrorDetail, ModelError, PathElement, ValidationErrors};

#[test]
fn test_unsupported_schema_msg() {
    let e = ModelError::UnsupportedSchema("version".to_string());
    assert_eq!(e.to_text(), "Unsupported schema version: version");
}

#[test]
fn test_model_validation_msg() {
    let mut ve = ValidationErrors::default();
    ve.add(&[PathElement::Field("name".to_string())], "bad template");
    let e = ModelError::ModelValidation(ve.with_model_name("JobTemplate"));
    assert_eq!(
        e.to_text(),
        "Model validation error: 1 validation error for JobTemplate\nname:\n\tbad template"
    );
}

#[test]
fn test_format_string_error_with_position() {
    let e = ModelError::FormatStringError {
        message: "Undefined variable 'Param.X'".to_string(),
        input: Some("Hello {{Param.X}}".to_string()),
        start: Some(6),
        end: Some(17),
    };
    let s = e.to_text();
    assert!(s.contains("Failed to parse interpolation expression at [6, 17]"));
    assert!(s.contains("Undefined variable 'Param.X'"));
    assert!(s.contains("Hello {{Param.X}}"));
}

#[test]
fn test_format_string_error_without_position() {
    let e = ModelError::FormatStringError {
        message: "something went wrong".to_string(),
        input: None,
        start: None,
        end: None,
    };
    assert_eq!(e.to_text(), "Format string error: something went wrong");
}

#[test]
fn test_empty_errors_ok() {
    let ve = ValidationErrors::default();
    assert!(ve.into_result("JobTemplate").is_ok());
}

#[test]
fn test_single_field_error() {
    let mut ve = ValidationErrors::default();
    ve.add(&[PathElement::Field("name".to_string())], "must not be empty");
    let s = ve.format("JobTemplate");
    assert_eq!(
        s,
        "1 validation error for JobTemplate\nname:\n\tmust not be empty"
    );
}

#[test]
fn test_into_result_uses_model_validation() {
    let mut ve = ValidationErrors::default();
    ve.add(&[PathElement::Field("name".to_string())], "too long");
    let result = ve.into_result("JobTemplate");
    assert!(matches!(result, Err(ModelError::ModelValidation(_))));
}

#[test]
fn test_nested_path_error() {
    let mut ve = ValidationErrors::default();
    ve.add(
        &[
            PathElement::Field("steps".to_string()),
            PathElement::Index(0),
            PathElement::Field("parameterSpace".to_string()),
            PathElement::Field("combination".to_string()),
        ],
        "missing operator",
    );
    let s = ve.format("JobTemplate");
    assert!(s.contains("steps[0] -> parameterSpace -> combination:\n\tmissing operator"));
}

#[test]
fn test_root_level_error() {
    let mut ve = ValidationErrors::default();
    ve.add(&[], "must have at least one step");
    let s = ve.format("JobTemplate");
    assert!(s.contains("JobTemplate: must have at least one step"));
}

#[test]
fn test_multiple_errors() {
    let mut ve = ValidationErrors::default();
    ve.add(&[PathElement::Field("name".to_string())], "too long");
    ve.add(
        &[
            PathElement::Field("steps".to_string()),
            PathElement::Index(0),
            PathElement::Field("name".to_string()),
        ],
        "empty",
    );
    assert_eq!(ve.len(), 2);
    let result = ve.into_result("JobTemplate");
    assert!(result.is_err());
    let msg = result.unwrap_err().to_text();
    assert!(msg.contains("2 validation errors"));
    assert!(msg.contains("name:\n\ttoo long"));
    assert!(msg.contains("steps[0] -> name:\n\tempty"));
}

#[test]
fn test_path_helpers() {
    let base = vec![PathElement::Field("steps".to_string()), PathElement::Index(0)];
    let with_field = path_field(&base, "script");
    assert_eq!(with_field.len(), 3);
    let with_index = path_index(&base, 1);
    assert_eq!(with_index.len(), 3);
}

#[test]
fn test_model_validation_structured_access() {
    let mut ve = ValidationErrors::default();
    ve.add(
        &[PathElement::Field("steps".to_string()), PathElement::Index(0)],
        "missing script",
    );
    ve.add(&[PathElement::Field("name".to_string())], "too long");
    let err = ve.into_result("JobTemplate").unwrap_err();
    let errors = match &err {
        ModelError::ModelValidation(e) => e,
        other => panic!("expected ModelValidation, got: {other:?}"),
    };
    assert_eq!(errors.len(), 2);
    assert_eq!(
        errors.errors[0].path,
        vec![PathElement::Field("steps".to_string()), PathElement::Index(0)]
    );
    assert_eq!(errors.errors[0].message, "missing script");
    assert_eq!(
        errors.errors[1].path,
        vec![PathElement::Field("name".to_string())]
    );
    assert_eq!(errors.errors[1].message, "too long");
    assert_eq!(
        err.to_text(),
        "Model validation error: 2 validation errors for JobTemplate\n\
         steps[0]:\n\tmissing script\n\
         name:\n\ttoo long"
    );
}

#[test]
fn add_with_detail_keeps_the_detail() {
    let mut ve = ValidationErrors::new();
    let detail = ErrorDetail {
        summary: "Undefined variable".to_string(),
        spans: vec![DiagnosticSpan { summary: "here".to_string(), source: "{{X}}".to_string(), start: 2, end: 3, caret: 0 }],
    };
    ve.add_with_detail(&[PathElement::Field("name".to_string())], "bad expression", detail);
    assert_eq!(ve.len(), 1);
    assert!(!ve.is_empty());
    let e = &ve.errors[0];
    assert_eq!(e.message, "bad expression");
    let d = e.detail.as_ref().unwrap();
    assert_eq!(d.summary, "Undefined variable");
    assert_eq!(d.spans[0].start, 2);
    assert_eq!(ve.format("JobTemplate"), "1 validation error for JobTemplate\nname:\n\tbad expression");
}

#[test]
fn single_error_at_the_root() {
    let ve = ValidationErrors::single("no steps");
    assert_eq!(ve.len(), 1);
    assert_eq!(ve.format("JobTemplate"), "1 validation error for JobTemplate\nJobTemplate: no steps");
    let e = ModelError::ModelValidation(ve.with_model_name("EnvironmentTemplate"));
    assert_eq!(e.to_text(), "Model validation error: 1 validation error for EnvironmentTemplate\nEnvironmentTemplate: no steps");
}

#[test]
fn other_error_kinds_display() {
    assert_eq!(ModelError::DecodeValidation("bad".to_string()).to_text(), "Validation error: bad");
    assert_eq!(ModelError::Compatibility("old".to_string()).to_text(), "Compatibility error: old");
    let e = ModelError::FormatStringError { message: "m".to_string(), input: Some("i".to_string()), start: Some(1), end: None };
    assert_eq!(e.to_text(), "Format string error: m");
}

#[test]
fn expression_errors_display_with_their_prefix() {
    let e = ModelError::Expression(openjd_expr::ExpressionError::new("Undefined thing"));
    let t = e.to_text();
    assert!(t.starts_with("Expression error: "), "{t}");
    assert!(t.contains("Undefined thing"), "{t}");
}

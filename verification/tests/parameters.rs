//! Tests of job parameter definitions: value constraints and the checks of
//! a definition.

use openjd_model::constrained_strings::Identifier;
use openjd_model::parameters::{
    validate_ui_label, EffectiveLimits, FileFilter, FlexInt, IntUserInterface, JobIntParameterDefinition,
    JobPathParameterDefinition, JobStringParameterDefinition, NullableVec, PathUserInterface,
    StringUserInterface,
};
use openjd_model::parse::{canonical_case_message, DocumentType};
use openjd_model::text::{parse_i64, text_eq};
use openjd_model::types::{DataFlow, ObjectType};

const LIMITS: EffectiveLimits = EffectiveLimits { max_job_param_string_len: 1024 };

fn name(s: &str) -> Identifier {
    Identifier::new(s).unwrap()
}

fn string_def() -> JobStringParameterDefinition {
    JobStringParameterDefinition {
        name: name("P"),
        description: None,
        default: None,
        allowed_values: None,
        min_length: None,
        max_length: None,
        user_interface: None,
    }
}

fn int_def() -> JobIntParameterDefinition {
    JobIntParameterDefinition {
        name: name("N"),
        description: None,
        default: None,
        allowed_values: NullableVec(None),
        min_value: None,
        max_value: None,
        user_interface: None,
    }
}

fn path_def() -> JobPathParameterDefinition {
    JobPathParameterDefinition {
        name: name("F"),
        description: None,
        default: None,
        allowed_values: None,
        min_length: None,
        max_length: None,
        object_type: None,
        data_flow: None,
        user_interface: None,
    }
}

fn strings(v: &[&str]) -> Vec<String> {
    v.iter().map(|s| s.to_string()).collect()
}

fn path_ui(control: Option<&str>) -> PathUserInterface {
    PathUserInterface {
        control: control.map(|s| s.to_string()),
        label: None,
        group_label: None,
        file_filters: None,
        file_filter_default: None,
    }
}

// ── NullableVec ──

#[test]
fn nullable_vec_absent_and_present() {
    let absent: NullableVec<FlexInt> = NullableVec::default();
    assert!(absent.is_none());
    assert!(!absent.is_some());
    assert!(absent.as_ref().is_none());
    let present = NullableVec(Some(vec![FlexInt(1), FlexInt(2)]));
    assert!(present.is_some());
    assert_eq!(present.as_ref().unwrap().len(), 2);
    let empty: NullableVec<FlexInt> = NullableVec(Some(vec![]));
    assert!(empty.is_some());
}

// ── labels ──

#[test]
fn ui_label_problems_in_order() {
    assert!(validate_ui_label(&None, "label", "P").is_empty());
    assert!(validate_ui_label(&Some("Fine".to_string()), "label", "P").is_empty());
    assert_eq!(validate_ui_label(&Some(String::new()), "label", "P"), vec!["Parameter 'P': label must not be empty."]);
    let long = "x".repeat(65);
    assert_eq!(validate_ui_label(&Some(long), "groupLabel", "P"), vec!["Parameter 'P': groupLabel exceeds 64 characters."]);
    assert_eq!(
        validate_ui_label(&Some("a\u{7}".to_string()), "label", "P"),
        vec!["Parameter 'P': label contains control characters."]
    );
    assert_eq!(
        validate_ui_label(&Some(format!("{}\t", "y".repeat(64))), "label", "Q"),
        vec!["Parameter 'Q': label exceeds 64 characters.", "Parameter 'Q': label contains control characters."]
    );
}

// ── STRING values ──

#[test]
fn string_value_constraints() {
    let mut d = string_def();
    d.min_length = Some(2);
    d.max_length = Some(4);
    d.allowed_values = Some(strings(&["ab", "abc", "abcdef"]));
    assert!(d.check_constraints("ab").is_ok());
    assert_eq!(d.check_constraints("a").unwrap_err(), "Parameter 'P': value length 1 is less than minimum 2");
    assert_eq!(d.check_constraints("abcdef").unwrap_err(), "Parameter 'P': value length 6 exceeds maximum 4");
    assert_eq!(d.check_constraints("xyz").unwrap_err(), "Parameter 'P': value 'xyz' is not in allowed values");
}

#[test]
fn string_value_length_counts_characters() {
    let mut d = string_def();
    d.max_length = Some(2);
    assert!(d.check_constraints("éé").is_ok());
    assert!(d.check_constraints("一二").is_ok());
    assert!(d.check_constraints("一二三").is_err());
}

#[test]
fn string_definition_ok() {
    let mut d = string_def();
    d.default = Some("abc".to_string());
    d.allowed_values = Some(strings(&["abc", "def"]));
    d.user_interface = Some(StringUserInterface { control: Some("DROPDOWN_LIST".into()), label: Some("L".into()), group_label: None });
    assert!(d.validate_definition(&LIMITS).is_ok());
    assert!(d.check_constraints(d.default.as_ref().unwrap()).is_ok());
}

#[test]
fn string_definition_problems() {
    let mut d = string_def();
    d.allowed_values = Some(strings(&["a", "abcdef"]));
    d.min_length = Some(5);
    d.max_length = Some(3);
    d.default = Some("zz".to_string());
    let errs = d.validate_definition(&LIMITS).unwrap_err();
    assert_eq!(
        errs,
        vec![
            "Parameter 'P': allowedValues[0] length 1 is less than minLength 5.",
            "Parameter 'P': allowedValues[1] length 6 exceeds maxLength 3.",
            "Parameter 'P': minLength (5) > maxLength (3).",
            "Parameter 'P': default length 2 is less than minLength 5.",
            "Parameter 'P': default 'zz' is not in allowedValues.",
        ]
    );
}

#[test]
fn string_definition_limits_and_empty_list() {
    let mut d = string_def();
    d.allowed_values = Some(vec![]);
    d.max_length = Some(0);
    let errs = d.validate_definition(&LIMITS).unwrap_err();
    assert_eq!(errs, vec!["Parameter 'P': allowedValues must not be empty.", "Parameter 'P': maxLength must be > 0."]);
    let mut d = string_def();
    d.default = Some("x".repeat(5));
    d.allowed_values = Some(strings(&["abcdef"]));
    let small = EffectiveLimits { max_job_param_string_len: 4 };
    let errs = d.validate_definition(&small).unwrap_err();
    assert_eq!(
        errs,
        vec![
            "Parameter 'P': allowedValues[0] exceeds 4 characters.",
            "Parameter 'P': default exceeds 4 characters.",
            "Parameter 'P': default 'xxxxx' is not in allowedValues.",
        ]
    );
}

#[test]
fn string_definition_controls() {
    let ui = |c: &str| Some(StringUserInterface { control: Some(c.to_string()), label: None, group_label: None });
    let mut d = string_def();
    d.allowed_values = Some(strings(&["a"]));
    d.user_interface = ui("LINE_EDIT");
    assert_eq!(d.validate_definition(&LIMITS).unwrap_err(), vec!["Parameter 'P': control 'LINE_EDIT' cannot be used with allowedValues."]);
    let mut d = string_def();
    d.user_interface = ui("DROPDOWN_LIST");
    assert_eq!(d.validate_definition(&LIMITS).unwrap_err(), vec!["Parameter 'P': DROPDOWN_LIST requires allowedValues."]);
    let mut d = string_def();
    d.user_interface = ui("CHECK_BOX");
    assert_eq!(d.validate_definition(&LIMITS).unwrap_err(), vec!["Parameter 'P': CHECK_BOX requires allowedValues."]);
    d.allowed_values = Some(strings(&["Yes", "NO"]));
    assert!(d.validate_definition(&LIMITS).is_ok());
    d.allowed_values = Some(strings(&["yes", "maybe"]));
    assert_eq!(d.validate_definition(&LIMITS).unwrap_err(), vec!["Parameter 'P': CHECK_BOX allowedValues must be a valid boolean pair."]);
    d.allowed_values = Some(strings(&["true"]));
    assert_eq!(d.validate_definition(&LIMITS).unwrap_err(), vec!["Parameter 'P': CHECK_BOX requires exactly 2 allowedValues."]);
    let mut d = string_def();
    d.user_interface = ui("SLIDER");
    assert_eq!(d.validate_definition(&LIMITS).unwrap_err(), vec!["Parameter 'P': unknown control 'SLIDER'."]);
    d.user_interface = ui("HIDDEN");
    assert!(d.validate_definition(&LIMITS).is_ok());
}

// ── INT values ──

#[test]
fn int_value_constraints() {
    let mut d = int_def();
    d.min_value = Some(FlexInt(-5));
    d.max_value = Some(FlexInt(10));
    d.allowed_values = NullableVec(Some(vec![FlexInt(-5), FlexInt(0), FlexInt(7)]));
    assert!(d.check_constraints("7").is_ok());
    assert!(d.check_constraints("+7").is_ok());
    assert!(d.check_constraints("-5").is_ok());
    assert_eq!(d.check_constraints("seven").unwrap_err(), "Parameter 'N': value 'seven' is not a valid integer");
    assert_eq!(d.check_constraints(" 7").unwrap_err(), "Parameter 'N': value ' 7' is not a valid integer");
    assert_eq!(d.check_constraints("-6").unwrap_err(), "Parameter 'N': value -6 is less than minimum -5");
    assert_eq!(d.check_constraints("11").unwrap_err(), "Parameter 'N': value 11 exceeds maximum 10");
    assert_eq!(d.check_constraints("3").unwrap_err(), "Parameter 'N': value 3 is not in allowed values");
}

#[test]
fn int_text_parsing() {
    assert_eq!(parse_i64("0"), Some(0));
    assert_eq!(parse_i64("-0"), Some(0));
    assert_eq!(parse_i64("+42"), Some(42));
    assert_eq!(parse_i64("9223372036854775807"), Some(i64::MAX));
    assert_eq!(parse_i64("-9223372036854775808"), Some(i64::MIN));
    assert_eq!(parse_i64("9223372036854775808"), None);
    assert_eq!(parse_i64("-9223372036854775809"), None);
    assert_eq!(parse_i64("99999999999999999999x"), None);
    assert_eq!(parse_i64(""), None);
    assert_eq!(parse_i64("-"), None);
    assert_eq!(parse_i64("+"), None);
    assert_eq!(parse_i64("1_000"), None);
    for x in [i64::MIN, -1234, -1, 0, 1, 98765, i64::MAX] {
        assert_eq!(parse_i64(&x.to_string()), Some(x));
    }
}

#[test]
fn int_definition_problems() {
    let mut d = int_def();
    d.allowed_values = NullableVec(Some(vec![]));
    d.min_value = Some(FlexInt(10));
    d.max_value = Some(FlexInt(1));
    d.default = Some(FlexInt(5));
    let errs = d.validate_definition().unwrap_err();
    assert_eq!(
        errs,
        vec![
            "Parameter 'N': allowedValues must not be empty.",
            "Parameter 'N': minValue (10) > maxValue (1).",
            "Parameter 'N': value 5 is less than minimum 10",
        ]
    );
}

#[test]
fn int_definition_ok_default_in_range() {
    let mut d = int_def();
    d.min_value = Some(FlexInt(1));
    d.max_value = Some(FlexInt(10));
    d.default = Some(FlexInt(5));
    d.user_interface = Some(IntUserInterface { control: None, label: None, group_label: None, single_step_delta: Some(FlexInt(2)) });
    assert!(d.validate_definition().is_ok());
    assert!(d.check_constraints(&d.default.as_ref().unwrap().0.to_string()).is_ok());
}

#[test]
fn int_definition_controls() {
    let ui = |c: Option<&str>, delta: Option<i64>| {
        Some(IntUserInterface { control: c.map(|s| s.to_string()), label: None, group_label: None, single_step_delta: delta.map(FlexInt) })
    };
    let mut d = int_def();
    d.allowed_values = NullableVec(Some(vec![FlexInt(1)]));
    d.user_interface = ui(Some("SPIN_BOX"), None);
    assert_eq!(d.validate_definition().unwrap_err(), vec!["Parameter 'N': SPIN_BOX cannot be used with allowedValues."]);
    d.user_interface = ui(None, Some(1));
    assert_eq!(d.validate_definition().unwrap_err(), vec!["Parameter 'N': singleStepDelta is only valid with SPIN_BOX."]);
    let mut d = int_def();
    d.user_interface = ui(Some("DROPDOWN_LIST"), None);
    assert_eq!(d.validate_definition().unwrap_err(), vec!["Parameter 'N': DROPDOWN_LIST requires allowedValues."]);
    d.user_interface = ui(Some("HIDDEN"), Some(0));
    assert_eq!(
        d.validate_definition().unwrap_err(),
        vec!["Parameter 'N': singleStepDelta is not valid with HIDDEN.", "Parameter 'N': singleStepDelta must be positive."]
    );
    d.user_interface = ui(Some("KNOB"), None);
    assert_eq!(d.validate_definition().unwrap_err(), vec!["Parameter 'N': unknown control 'KNOB'."]);
    d.user_interface = ui(None, Some(-3));
    assert_eq!(d.validate_definition().unwrap_err(), vec!["Parameter 'N': singleStepDelta must be positive."]);
}

// ── PATH values ──

#[test]
fn path_value_constraints() {
    let mut d = path_def();
    d.min_length = Some(3);
    d.allowed_values = Some(strings(&["/tmp", "/var"]));
    assert!(d.check_constraints("/tmp").is_ok());
    assert_eq!(d.check_constraints("/t").unwrap_err(), "Parameter 'F': value length 2 is less than minimum 3");
    assert_eq!(d.check_constraints("/opt").unwrap_err(), "Parameter 'F': value '/opt' is not in allowed values");
}

#[test]
fn path_definition_words() {
    let mut d = path_def();
    d.allowed_values = Some(strings(&["/a", "/abcdef"]));
    d.min_length = Some(3);
    d.max_length = Some(5);
    d.default = Some("/b".to_string());
    let errs = d.validate_definition(&LIMITS).unwrap_err();
    assert_eq!(
        errs,
        vec![
            "Parameter 'F': allowedValues[0] length 2 < minLength 3.",
            "Parameter 'F': allowedValues[1] length 7 > maxLength 5.",
            "Parameter 'F': default length 2 < minLength 3.",
            "Parameter 'F': default '/b' is not in allowedValues.",
        ]
    );
}

#[test]
fn path_definition_default_controls() {
    let mut d = path_def();
    d.user_interface = Some(path_ui(None));
    assert!(d.validate_definition(&LIMITS).is_ok());
    d.object_type = Some(ObjectType::File);
    assert!(d.validate_definition(&LIMITS).is_ok());
    d.data_flow = Some(DataFlow::Out);
    let mut ui = path_ui(None);
    ui.file_filters = Some(vec![FileFilter { label: "Images".into(), patterns: vec!["*.png".into(), "*.jp*g".into()] }]);
    d.user_interface = Some(ui);
    assert_eq!(
        d.validate_definition(&LIMITS).unwrap_err(),
        vec!["Parameter 'F': file filter pattern '*.jp*g' contains disallowed character '*'."]
    );
}

#[test]
fn path_definition_controls() {
    let mut d = path_def();
    d.user_interface = Some(path_ui(Some("CHOOSE_INPUT_FILE")));
    assert_eq!(d.validate_definition(&LIMITS).unwrap_err(), vec!["Parameter 'F': CHOOSE_INPUT_FILE requires objectType FILE."]);
    d.object_type = Some(ObjectType::File);
    d.allowed_values = Some(strings(&["/x"]));
    d.user_interface = Some(path_ui(Some("CHOOSE_DIRECTORY")));
    assert_eq!(
        d.validate_definition(&LIMITS).unwrap_err(),
        vec![
            "Parameter 'F': CHOOSE_DIRECTORY cannot be used with allowedValues.",
            "Parameter 'F': CHOOSE_DIRECTORY requires objectType DIRECTORY.",
        ]
    );
    let mut d = path_def();
    d.user_interface = Some(path_ui(Some("DROPDOWN_LIST")));
    assert_eq!(d.validate_definition(&LIMITS).unwrap_err(), vec!["Parameter 'F': DROPDOWN_LIST requires allowedValues."]);
    d.user_interface = Some(path_ui(Some("DIAL")));
    assert_eq!(d.validate_definition(&LIMITS).unwrap_err(), vec!["Parameter 'F': unknown control 'DIAL'."]);
}

#[test]
fn path_file_filters() {
    let mut d = path_def();
    d.object_type = Some(ObjectType::File);
    let mut ui = path_ui(None);
    ui.file_filters = Some(vec![
        FileFilter { label: "All".into(), patterns: vec!["*".into(), "*.*".into()] },
        FileFilter { label: "None".into(), patterns: vec![] },
        FileFilter { label: "Bad".into(), patterns: vec!["".into(), "png".into(), "*.".into(), "*.abcdefghijklmnopqrstu".into()] },
    ]);
    ui.file_filter_default = Some(FileFilter { label: "Default".into(), patterns: vec!["*.a:b".into()] });
    d.user_interface = Some(ui);
    assert_eq!(
        d.validate_definition(&LIMITS).unwrap_err(),
        vec![
            "Parameter 'F': fileFilter patterns must not be empty.",
            "Parameter 'F': file filter pattern must be 1..=20 characters.",
            "Parameter 'F': file filter pattern 'png' must be '*', '*.*', or '*.ext'.",
            "Parameter 'F': file filter pattern '*.' has empty extension.",
            "Parameter 'F': file filter pattern must be 1..=20 characters.",
            "Parameter 'F': file filter pattern '*.a:b' contains disallowed character ':'.",
        ]
    );
    let mut d = path_def();
    let mut ui = path_ui(Some("CHOOSE_DIRECTORY"));
    ui.file_filters = Some((0..21).map(|i| FileFilter { label: format!("L{i}"), patterns: vec!["*".into()] }).collect());
    ui.file_filter_default = Some(FileFilter { label: "D".into(), patterns: vec!["*".into()] });
    d.user_interface = Some(ui);
    assert_eq!(
        d.validate_definition(&LIMITS).unwrap_err(),
        vec![
            "Parameter 'F': fileFilters only valid with file chooser controls.",
            "Parameter 'F': fileFilters exceeds 20 elements.",
            "Parameter 'F': fileFilterDefault only valid with file chooser controls.",
        ]
    );
}

#[test]
fn file_filter_pattern_length_is_in_bytes() {
    let mut d = path_def();
    d.object_type = Some(ObjectType::File);
    let mut ui = path_ui(None);
    // ten two-byte characters after "*.": 22 bytes, 12 characters
    ui.file_filter_default = Some(FileFilter { label: "D".into(), patterns: vec![format!("*.{}", "é".repeat(10))] });
    d.user_interface = Some(ui);
    assert_eq!(d.validate_definition(&LIMITS).unwrap_err(), vec!["Parameter 'F': file filter pattern must be 1..=20 characters."]);
}

// ── decoding helpers ──

#[test]
fn canonical_case_message_text() {
    assert_eq!(
        canonical_case_message("parameter", "string", "STRING"),
        "parameter type 'string' is not recognized. Type names are case-sensitive without the EXPR extension; expected 'STRING'."
    );
}

#[test]
fn document_types_differ() {
    assert_ne!(DocumentType::Json, DocumentType::Yaml);
    assert_eq!(format!("{:?}", DocumentType::Yaml), "Yaml");
}

#[test]
fn text_equality() {
    assert!(text_eq("abc", "abc"));
    assert!(!text_eq("abc", "abd"));
    assert!(!text_eq("abc", "ab"));
    assert!(text_eq("", ""));
}

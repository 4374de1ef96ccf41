//! Tests of the checks of statically resolved format string fields.

use openjd_model::error::{PathElement, ValidationErrors};
use openjd_model::resolved::{check_resolved_constraint, trim_text, ResolvedConstraint, ResolvedValue, StaticResolutionView};

fn view(len: usize, string: bool, value: Option<ResolvedValue>) -> StaticResolutionView {
    StaticResolutionView { min_resolved_string_len: len, resolves_to_string: string, resolved_value: value }
}

fn other(s: &str) -> Option<ResolvedValue> {
    Some(ResolvedValue::Other { display: s.to_string() })
}

fn messages(sr: &StaticResolutionView, c: &ResolvedConstraint) -> Vec<String> {
    let mut errors = ValidationErrors::new();
    let path = vec![PathElement::Field("name".to_string())];
    check_resolved_constraint(sr, c, &path, &mut errors);
    errors.errors.iter().map(|e| {
        assert_eq!(e.path, path);
        e.message.clone()
    }).collect()
}

#[test]
fn text_constraint() {
    let c = ResolvedConstraint::Text { max_len: 5, forbid_control_chars: true, forbid_empty: true };
    assert!(messages(&view(3, true, other("abc")), &c).is_empty());
    assert_eq!(messages(&view(7, true, None), &c), vec!["resolves to at least 7 characters, exceeding the maximum of 5."]);
    assert_eq!(messages(&view(0, true, other("")), &c), vec!["must not resolve to an empty string."]);
    assert_eq!(messages(&view(3, true, other("a\u{1}b")), &c), vec!["contains control characters."]);
    assert!(messages(&view(0, true, Some(ResolvedValue::Null)), &c).is_empty());
    let lax = ResolvedConstraint::Text { max_len: 5, forbid_control_chars: false, forbid_empty: false };
    assert!(messages(&view(0, true, other("")), &lax).is_empty());
}

#[test]
fn list_item_constraint() {
    let c = ResolvedConstraint::TextListItem { max_len: 3, forbid_empty: true };
    assert_eq!(messages(&view(9, true, None), &c), vec!["resolves to at least 9 characters, exceeding the maximum of 3."]);
    let list = Some(ResolvedValue::List {
        elements: vec![Some("ab".into()), None, Some("abcd".into()), Some(String::new())],
        display: "[ab, null, abcd, ]".into(),
    });
    assert_eq!(
        messages(&view(18, false, list), &c),
        vec![
            "list element 2 resolves to 4 characters, exceeding the maximum of 3.",
            "list element 3 must not resolve to an empty string.",
        ]
    );
    assert_eq!(messages(&view(4, false, other("abcd")), &c), vec!["resolves to 4 characters, exceeding the maximum of 3."]);
    assert!(messages(&view(0, false, Some(ResolvedValue::Null)), &c).is_empty());
    let int = Some(ResolvedValue::Int { value: 12345, display: "12345".into() });
    assert_eq!(messages(&view(5, false, int), &c), vec!["resolves to 5 characters, exceeding the maximum of 3."]);
}

#[test]
fn arg_list_item_constraint() {
    let c = ResolvedConstraint::ArgListItem { max_len: 2 };
    let list = Some(ResolvedValue::List { elements: vec![Some(String::new()), Some("abc".into())], display: "[, abc]".into() });
    assert_eq!(messages(&view(7, false, list), &c), vec!["list element 1 resolves to 3 characters, exceeding the maximum of 2."]);
    assert_eq!(messages(&view(3, true, None), &c), vec!["resolves to at least 3 characters, exceeding the maximum of 2."]);
}

#[test]
fn resolved_string_constraint() {
    let c = ResolvedConstraint::ResolvedString { max_len: 4 };
    assert!(messages(&view(4, false, None), &c).is_empty());
    assert_eq!(messages(&view(5, false, None), &c), vec!["resolves to at least 5 characters, exceeding the maximum of 4."]);
}

#[test]
fn int_constraint() {
    let c = ResolvedConstraint::Int {
        min: 1,
        min_msg: "must be positive.".into(),
        max: Some((10, "must be at most 10.".into())),
        parse_msg: "must be an integer.".into(),
        nullable: false,
    };
    assert!(messages(&view(1, false, Some(ResolvedValue::Int { value: 5, display: "5".into() })), &c).is_empty());
    assert_eq!(messages(&view(1, false, Some(ResolvedValue::Int { value: 0, display: "0".into() })), &c), vec!["must be positive."]);
    assert_eq!(messages(&view(2, true, other(" 11 ")), &c), vec!["must be at most 10."]);
    assert!(messages(&view(3, true, other("\t7\n")), &c).is_empty());
    assert_eq!(messages(&view(3, true, other("7.5")), &c), vec!["must be an integer."]);
    assert_eq!(messages(&view(0, false, Some(ResolvedValue::Null)), &c), vec!["must be an integer."]);
    assert!(messages(&view(0, false, None), &c).is_empty());
    assert_eq!(
        messages(&view(101, true, None), &c),
        vec!["resolves to at least 101 characters, which cannot be a reasonable integer value."]
    );
    let nullable = ResolvedConstraint::Int { min: 0, min_msg: "m".into(), max: None, parse_msg: "p".into(), nullable: true };
    assert!(messages(&view(0, false, Some(ResolvedValue::Null)), &nullable).is_empty());
}

#[test]
fn cancelation_mode_constraint() {
    let c = ResolvedConstraint::CancelationMode;
    assert!(messages(&view(9, true, other("TERMINATE")), &c).is_empty());
    assert!(messages(&view(21, true, other("NOTIFY_THEN_TERMINATE")), &c).is_empty());
    assert_eq!(
        messages(&view(4, true, other("STOP")), &c),
        vec!["mode must resolve to TERMINATE or NOTIFY_THEN_TERMINATE, got 'STOP'."]
    );
    assert_eq!(
        messages(&view(22, true, None), &c),
        vec!["mode resolves to at least 22 characters; valid values are TERMINATE and NOTIFY_THEN_TERMINATE."]
    );
}

#[test]
fn trimming() {
    assert_eq!(trim_text("  a b \t\n"), "a b");
    assert_eq!(trim_text("\u{3000}x\u{a0}"), "x");
    assert_eq!(trim_text("   "), "");
    assert_eq!(trim_text(""), "");
}

#[test]
fn errors_keep_earlier_entries() {
    let mut errors = ValidationErrors::new();
    errors.add(&[], "first");
    let sr = view(4, true, other("STOP"));
    check_resolved_constraint(&sr, &ResolvedConstraint::CancelationMode, &[PathElement::Index(3)], &mut errors);
    assert_eq!(errors.len(), 2);
    assert_eq!(errors.errors[0].message, "first");
    assert_eq!(errors.errors[1].path, vec![PathElement::Index(3)]);
    assert_eq!(errors.errors[1].message, "mode must resolve to TERMINATE or NOTIFY_THEN_TERMINATE, got 'STOP'.");
}

#[test]
fn trimming_agrees_with_std_on_every_character() {
    for c in (0u32..=0x10ffff).filter_map(char::from_u32) {
        let s = format!("{c}x{c}");
        assert_eq!(trim_text(&s), s.trim(), "character U+{:04X}", c as u32);
    }
}

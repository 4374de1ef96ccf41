use openjd_model::constrained_strings::{Description, ExtensionName, Identifier};

#[test]
fn identifier_valid_simple() {
    Identifier::new("Foo").unwrap();
    Identifier::new("_foo").unwrap();
    Identifier::new("foo_bar").unwrap();
    Identifier::new("A").unwrap();
    Identifier::new("a1").unwrap();
}

#[test]
fn identifier_shortest_upper_a() {
    Identifier::new("A").unwrap();
}

#[test]
fn identifier_longest_upper_a() {
    Identifier::new(&"A".repeat(64)).unwrap();
}

#[test]
fn identifier_shortest_lower_a() {
    Identifier::new("a").unwrap();
}

#[test]
fn identifier_longest_lower_a() {
    Identifier::new(&"a".repeat(64)).unwrap();
}

#[test]
fn identifier_trailing_digits() {
    Identifier::new(&format!("A{}", "0".repeat(63))).unwrap();
    Identifier::new(&format!("A{}", "9".repeat(63))).unwrap();
}

#[test]
fn identifier_all_underscores() {
    Identifier::new(&"_".repeat(64)).unwrap();
}

#[test]
fn identifier_65_chars_succeeds_at_type_level() {
    // 65 chars is within the 512 max that Identifier::new() allows.
    // The tighter 64-char limit is enforced in the validation pass.
    Identifier::new(&"a".repeat(65)).unwrap();
}

#[test]
fn identifier_512_chars_succeeds_at_type_level() {
    Identifier::new(&"a".repeat(512)).unwrap();
}

#[test]
fn identifier_513_chars_fails() {
    let err = Identifier::new(&"a".repeat(513)).unwrap_err();
    assert!(
        err.to_text()
            .contains("Identifier length must be 1..=512, got 513"),
        "Got: {err:?}"
    );
}

#[test]
fn identifier_empty() {
    let err = Identifier::new("").unwrap_err();
    assert!(
        err.to_text()
            .contains("Identifier length must be 1..=512, got 0"),
        "Got: {err:?}"
    );
}

#[test]
fn identifier_starts_with_digit_0() {
    let err = Identifier::new("0").unwrap_err();
    assert!(
        err.to_text().contains("does not match pattern"),
        "Got: {err:?}"
    );
}

#[test]
fn identifier_starts_with_digit_9() {
    let err = Identifier::new("9").unwrap_err();
    assert!(
        err.to_text().contains("does not match pattern"),
        "Got: {err:?}"
    );
}

#[test]
fn identifier_leading_space() {
    let err = Identifier::new(" a").unwrap_err();
    assert!(
        err.to_text().contains("does not match pattern"),
        "Got: {err:?}"
    );
}

#[test]
fn identifier_trailing_space() {
    let err = Identifier::new("a ").unwrap_err();
    assert!(
        err.to_text().contains("does not match pattern"),
        "Got: {err:?}"
    );
}

#[test]
fn identifier_starts_with_bang() {
    let err = Identifier::new("!foo").unwrap_err();
    assert!(
        err.to_text().contains("does not match pattern"),
        "Got: {err:?}"
    );
}

#[test]
fn identifier_only_alphanum_bang() {
    let err = Identifier::new("F!").unwrap_err();
    assert!(
        err.to_text().contains("does not match pattern"),
        "Got: {err:?}"
    );
}

#[test]
fn identifier_with_hyphen() {
    let err = Identifier::new("foo-bar").unwrap_err();
    assert!(
        err.to_text().contains("does not match pattern"),
        "Got: {err:?}"
    );
}

#[test]
fn identifier_with_dot() {
    let err = Identifier::new("foo.bar").unwrap_err();
    assert!(
        err.to_text().contains("does not match pattern"),
        "Got: {err:?}"
    );
}

// Disallowed printable characters
#[test]
fn identifier_disallowed_chars() {
    for ch in "!\"#$%&'()*+,-./:;<=>?@[\\]^`{|}~ \t\n\r".chars() {
        let s = format!("a{ch}");
        let err = Identifier::new(&s).unwrap_err();
        assert!(
            err.to_text().contains("does not match pattern"),
            "Expected pattern error for char {ch:?}, got: {err:?}"
        );
    }
}

// ══════════════════════════════════════════════════════════════
// Description — unit-level tests via Description::new()
// ══════════════════════════════════════════════════════════════

#[test]
fn description_min_length() {
    Description::new("A").unwrap();
}

#[test]
fn description_max_length() {
    Description::new(&"A".repeat(2048)).unwrap();
}

#[test]
fn description_empty_ok() {
    Description::new("").unwrap();
}

#[test]
fn description_with_newlines_tabs() {
    Description::new("With\nnewlines\nand\ttabs").unwrap();
}

#[test]
fn description_printable_ranges() {
    Description::new("\u{0020}").unwrap(); // start of first printable range
    Description::new("\u{007e}").unwrap(); // end of first printable range
    Description::new("\u{00a0}").unwrap(); // start of second printable range
}

#[test]
fn description_too_long() {
    let err = Description::new(&"a".repeat(2049)).unwrap_err();
    assert!(
        err.to_text().contains("exceeds 2048 characters"),
        "Got: {err:?}"
    );
}

#[test]
fn description_control_char_null() {
    let err = Description::new("\u{0000}").unwrap_err();
    assert!(err.to_text().contains("control characters"), "Got: {err:?}");
}

#[test]
fn description_control_char_1f() {
    let err = Description::new("\u{001f}").unwrap_err();
    assert!(err.to_text().contains("control characters"), "Got: {err:?}");
}

#[test]
fn description_control_char_del() {
    let err = Description::new("\u{007f}").unwrap_err();
    assert!(err.to_text().contains("control characters"), "Got: {err:?}");
}

#[test]
fn description_control_char_9f() {
    let err = Description::new("\u{009f}").unwrap_err();
    assert!(err.to_text().contains("control characters"), "Got: {err:?}");
}

#[test]
fn description_disallowed_after_newline() {
    let err = Description::new("a\n\u{0000}").unwrap_err();
    assert!(err.to_text().contains("control characters"), "Got: {err:?}");
}

// ══════════════════════════════════════════════════════════════
// ExtensionName — unit-level tests via ExtensionName::new()
// ══════════════════════════════════════════════════════════════

#[test]
fn extension_name_valid() {
    ExtensionName::new("EXPR").unwrap();
    ExtensionName::new("FEATURE_BUNDLE_1").unwrap();
    ExtensionName::new("ABC").unwrap();
    ExtensionName::new("123").unwrap();
    ExtensionName::new("A_B").unwrap();
}

#[test]
fn extension_name_too_short() {
    let err = ExtensionName::new("AB").unwrap_err();
    assert!(
        err.to_text().contains("does not match pattern"),
        "Got: {err:?}"
    );
}

#[test]
fn extension_name_single_char() {
    let err = ExtensionName::new("A").unwrap_err();
    assert!(
        err.to_text().contains("does not match pattern"),
        "Got: {err:?}"
    );
}

#[test]
fn extension_name_empty() {
    let err = ExtensionName::new("").unwrap_err();
    assert!(
        err.to_text().contains("does not match pattern"),
        "Got: {err:?}"
    );
}

#[test]
fn extension_name_lowercase() {
    let err = ExtensionName::new("expr").unwrap_err();
    assert!(
        err.to_text().contains("does not match pattern"),
        "Got: {err:?}"
    );
}

#[test]
fn extension_name_mixed_case() {
    let err = ExtensionName::new("ExPr").unwrap_err();
    assert!(
        err.to_text().contains("does not match pattern"),
        "Got: {err:?}"
    );
}

#[test]
fn extension_name_with_spaces() {
    let err = ExtensionName::new("FOO BAR").unwrap_err();
    assert!(
        err.to_text().contains("does not match pattern"),
        "Got: {err:?}"
    );
}

#[test]
fn extension_name_with_hyphen() {
    let err = ExtensionName::new("FOO-BAR").unwrap_err();
    assert!(
        err.to_text().contains("does not match pattern"),
        "Got: {err:?}"
    );
}

#[test]
fn description_max_length_multibyte_unicode() {
    // 2048 CJK characters (3 bytes each in UTF-8) must be accepted.
    // The limit is 2048 characters, not 2048 bytes.
    let desc: String = std::iter::repeat_n('一', 2048).collect();
    assert_eq!(desc.chars().count(), 2048);
    Description::new(&desc).unwrap();
}

#[test]
fn description_too_long_multibyte_unicode() {
    let desc: String = std::iter::repeat_n('一', 2049).collect();
    let err = Description::new(&desc).unwrap_err();
    assert!(
        err.to_text().contains("exceeds 2048 characters"),
        "Got: {err:?}"
    );
}

#[test]
fn description_control_test_agrees_with_std_on_every_character() {
    for c in (0u32..=0x10ffff).filter_map(char::from_u32) {
        let refused = c.is_control() && c != '\n' && c != '\r' && c != '\t';
        assert_eq!(Description::new(&c.to_string()).is_err(), refused, "character U+{:04X}", c as u32);
    }
}

//! Tests of `let` binding validation.

use openjd_expr::function_library::FunctionLibrary;
use openjd_expr::profile::ExprProfile;
use openjd_expr::symbol_table::{SymbolTable, SymbolTableEntry};
use openjd_model::error::{PathElement, ValidationErrors};
use openjd_model::let_bindings::{
    check_binding_syntax, name_message_list, outcome_message_list, validate_let_bindings, ExprOutcome,
};

fn base_path() -> Vec<PathElement> {
    vec![PathElement::Field("let".to_string())]
}

fn at(i: usize) -> Vec<PathElement> {
    let mut p = base_path();
    p.push(PathElement::Index(i));
    p
}

/// Runs the validation and gives each error as its path and message, with
/// the names that were bound.
fn run_with(bindings: &[&str], enclosing: &[&str], out: &mut Vec<String>) -> Vec<(Vec<PathElement>, String)> {
    let bindings: Vec<String> = bindings.iter().map(|s| s.to_string()).collect();
    let enclosing: Vec<String> = enclosing.iter().map(|s| s.to_string()).collect();
    let profile = ExprProfile::current();
    let lib = FunctionLibrary::for_profile(&profile);
    let mut symtab = SymbolTable::new();
    let mut errors = ValidationErrors::new();
    validate_let_bindings(&bindings, &base_path(), &enclosing, out, &mut symtab, &lib, &profile, &mut errors);
    errors.errors.iter().map(|e| (e.path.clone(), e.message.clone())).collect()
}

fn run(bindings: &[&str]) -> Vec<(Vec<PathElement>, String)> {
    let mut out = Vec::new();
    run_with(bindings, &[], &mut out)
}

#[test]
fn empty_list_is_refused_alone() {
    assert_eq!(run(&[]), vec![(base_path(), "if provided, must not be empty.".to_string())]);
}

#[test]
fn well_formed_bindings_chain() {
    let mut out = Vec::new();
    let errs = run_with(&["x = 1", "y = x + 1", "_z=y*2"], &[], &mut out);
    assert!(errs.is_empty(), "{errs:?}");
    assert_eq!(out, vec!["x", "y", "_z"]);
}

#[test]
fn missing_equals_sign() {
    assert_eq!(run(&["x 1"]), vec![(at(0), "missing '=' in 'x 1'.".to_string())]);
}

#[test]
fn empty_name_and_empty_expression() {
    assert_eq!(
        run(&["  = 1", "x =   ", "y = 2"]),
        vec![
            (at(0), "has empty name.".to_string()),
            (at(1), "binding 'x' has no expression after '='.".to_string()),
        ]
    );
}

#[test]
fn name_rules() {
    assert_eq!(
        run(&["Xy = 1"]),
        vec![(at(0), "name 'Xy' must start with lowercase letter or underscore.".to_string())]
    );
    assert_eq!(run(&["a-b = 1"]), vec![(at(0), "name 'a-b' contains invalid characters.".to_string())]);
    let long = "a".repeat(513);
    let errs = run(&[&format!("{long} = 1")]);
    assert_eq!(errs, vec![(at(0), format!("name '{long}' exceeds 512 characters."))]);
    let fits = "a".repeat(512);
    assert!(run(&[&format!("{fits} = 1")]).is_empty());
}

#[test]
fn duplicate_and_shadowing_names() {
    let mut out = vec!["x".to_string()];
    let errs = run_with(&["x = 1", "y = 2", "y = 3"], &["x"], &mut out);
    assert_eq!(
        errs,
        vec![
            (at(0), "'x' shadows enclosing scope.".to_string()),
            (at(2), "duplicate name 'y'.".to_string()),
        ]
    );
    assert_eq!(out, vec!["x", "y"]);
}

#[test]
fn self_reference_is_reported() {
    let errs = run(&["x = x + 1"]);
    assert_eq!(errs[0], (at(0), "'x' references itself.".to_string()));
    assert!(errs.iter().all(|(p, _)| *p == at(0)));
}

#[test]
fn invalid_expressions_are_reported_and_later_bindings_go_on() {
    let errs = run(&["x = 1 +", "y = nope", "z = x"]);
    assert_eq!(errs.len(), 2, "{errs:?}");
    assert_eq!(errs[0].0, at(0));
    assert!(errs[0].1.starts_with("Invalid expression in let binding 'x': "), "{}", errs[0].1);
    assert_eq!(errs[1].0, at(1));
    assert!(errs[1].1.starts_with("Invalid expression in let binding 'y': "), "{}", errs[1].1);
}

#[test]
fn too_many_bindings_are_refused_and_still_checked() {
    let owned: Vec<String> = (0..51).map(|i| format!("v{i} = {i}")).collect();
    let mut list: Vec<&str> = owned.iter().map(|s| s.as_str()).collect();
    list[3] = "V3 = 3";
    let errs = run(&list);
    assert_eq!(
        errs,
        vec![
            (base_path(), "must not contain more than 50 bindings.".to_string()),
            (at(3), "name 'V3' must start with lowercase letter or underscore.".to_string()),
        ]
    );
    assert!(run(&list[..50]).len() == 1);
}

#[test]
fn binding_is_split_at_the_first_equals_sign() {
    let (msgs, parts) = check_binding_syntax("  ab =  c == d ", &Vec::new(), &Vec::new());
    assert!(msgs.is_empty());
    let parts = parts.unwrap();
    assert_eq!(parts.name, "ab");
    assert_eq!(parts.expr, "c == d");
    assert_eq!(parts.prefix, "  ab =  ");
    let (msgs, parts) = check_binding_syntax("ab", &Vec::new(), &Vec::new());
    assert_eq!(msgs, vec!["missing '=' in 'ab'."]);
    assert!(parts.is_none());
}

#[test]
fn every_name_error_at_once() {
    let seen = vec!["Q-".to_string()];
    let enclosing = vec!["Q-".to_string()];
    assert_eq!(
        name_message_list("Q-", &seen, &enclosing),
        vec![
            "name 'Q-' must start with lowercase letter or underscore.",
            "name 'Q-' contains invalid characters.",
            "duplicate name 'Q-'.",
            "'Q-' shadows enclosing scope.",
        ]
    );
}

#[test]
fn outcome_messages_by_kind() {
    assert!(outcome_message_list("x", &ExprOutcome::Evaluated { self_reference: false }).is_empty());
    assert_eq!(
        outcome_message_list("x", &ExprOutcome::Evaluated { self_reference: true }),
        vec!["'x' references itself."]
    );
    assert_eq!(
        outcome_message_list("x", &ExprOutcome::EvalFailed { self_reference: true, message: "bad".to_string() }),
        vec!["'x' references itself.", "Invalid expression in let binding 'x': bad"]
    );
    assert_eq!(
        outcome_message_list("x", &ExprOutcome::ParseFailed { message: "worse".to_string() }),
        vec!["Invalid expression in let binding 'x': worse"]
    );
}

#[test]
fn bound_names_land_in_the_symbol_table() {
    let profile = ExprProfile::current();
    let lib = FunctionLibrary::for_profile(&profile);
    let mut symtab = SymbolTable::new();
    symtab.set("t.inner", 1).unwrap();
    let bindings = vec!["x = 1".to_string(), "y = nope".to_string(), "t = 2".to_string()];
    let mut out = Vec::new();
    let mut errors = ValidationErrors::new();
    validate_let_bindings(&bindings, &base_path(), &Vec::new(), &mut out, &mut symtab, &lib, &profile, &mut errors);
    assert!(symtab.get("x").is_some());
    assert!(symtab.get("y").is_some());
    assert!(symtab.get("t.inner").is_some());
    assert!(matches!(symtab.get("t"), Some(SymbolTableEntry::Table(_))));
    assert_eq!(out, vec!["x", "y", "t"]);
    assert_eq!(errors.errors.len(), 1);
}

#[test]
fn self_reference_follows_the_parsed_symbols() {
    // `x` inside a string literal is no reference to `x`.
    let errs = run(&["x = 'x' + 'y'"]);
    assert!(errs.is_empty(), "{errs:?}");
}

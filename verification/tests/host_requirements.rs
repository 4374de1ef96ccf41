//! Tests of the checks on resolved host requirement attribute lists.

use openjd_model::error::ModelError;
use openjd_model::host_requirements::check_resolved_attribute_count;

fn values(n: usize) -> Vec<String> {
    (0..n).map(|i| format!("v{i}")).collect()
}

fn message(r: Result<(), ModelError>) -> String {
    match r {
        Err(ModelError::DecodeValidation(m)) => m,
        other => panic!("unexpected {other:?}"),
    }
}

#[test]
fn empty_list_after_resolution() {
    assert_eq!(
        message(check_resolved_attribute_count("attr.custom", "anyOf", &values(0), 2, 3)),
        "steps[2] -> hostRequirements -> attributes[3] -> anyOf: has no elements after resolution"
    );
}

#[test]
fn too_many_values_after_resolution() {
    assert!(check_resolved_attribute_count("attr.custom", "allOf", &values(50), 0, 0).is_ok());
    assert_eq!(
        message(check_resolved_attribute_count("attr.custom", "allOf", &values(51), 0, 1)),
        "steps[0] -> hostRequirements -> attributes[1] -> allOf: exceeds 50 elements after resolution"
    );
}

#[test]
fn single_valued_attributes_take_one_all_of_value() {
    assert_eq!(
        message(check_resolved_attribute_count("Attr.Worker.OS.Family", "allOf", &values(2), 1, 0)),
        "steps[1] -> hostRequirements -> attributes[0] -> allOf: single-valued attribute cannot have more than 1 element after resolution"
    );
    assert!(check_resolved_attribute_count("attr.worker.cpu.arch", "allOf", &values(1), 1, 0).is_ok());
    assert!(check_resolved_attribute_count("attr.worker.cpu.arch", "anyOf", &values(2), 1, 0).is_ok());
    assert!(check_resolved_attribute_count("attr.custom", "allOf", &values(2), 1, 0).is_ok());
}

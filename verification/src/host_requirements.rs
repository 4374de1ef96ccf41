//! Checks of host requirement attributes once their value lists have been
//! resolved.

use vstd::prelude::*;
use crate::error::ModelError;
use crate::text::{append_usize, lowercase_of, nat_text, text_eq, to_lowercase};

verus! {

/// Most values a resolved `anyOf` or `allOf` list may hold.
pub const MAX_ATTRIBUTE_VALUES: usize = 50;

/// `steps[<step>] -> hostRequirements -> attributes[<attr>] -> <field>: `.
pub open spec fn attribute_field_prefix(step: nat, attr: nat, field: Seq<char>) -> Seq<char> {
    "steps["@ + nat_text(step) + "] -> hostRequirements -> attributes["@ + nat_text(attr) + "] -> "@ + field + ": "@
}

/// Whether an attribute, by its lower-case name, takes a single value.
pub open spec fn single_valued_attribute(lower: Seq<char>) -> bool {
    lower == "attr.worker.os.family"@ || lower == "attr.worker.cpu.arch"@
}

/// The error on the number `n` of values that the `field` list of the
/// attribute `name` resolved to, if any: none at all, more than the limit,
/// or more than one in the `allOf` of a single-valued attribute.
pub open spec fn attribute_count_error(name: Seq<char>, field: Seq<char>, n: nat, step: nat, attr: nat) -> Option<Seq<char>> {
    let prefix = attribute_field_prefix(step, attr, field);
    if n == 0 {
        Some(prefix + "has no elements after resolution"@)
    } else if n > MAX_ATTRIBUTE_VALUES {
        Some(prefix + "exceeds 50 elements after resolution"@)
    } else if single_valued_attribute(lowercase_of(name)) && field == "allOf"@ && n > 1 {
        Some(prefix + "single-valued attribute cannot have more than 1 element after resolution"@)
    } else {
        None
    }
}

/// `steps[<step>] -> hostRequirements -> attributes[<attr>] -> <field>: <tail>`.
fn attribute_message(step_index: usize, attr_index: usize, field: &str, tail: &str) -> (s: String)
    ensures
        s@ == attribute_field_prefix(step_index as nat, attr_index as nat, field@) + tail@,
{
    let mut s = String::from_str("steps[");
    append_usize(&mut s, step_index);
    s.append("] -> hostRequirements -> attributes[");
    append_usize(&mut s, attr_index);
    s.append("] -> ");
    s.append(field);
    s.append(": ");
    s.append(tail);
    proof {
        assert(s@ =~= attribute_field_prefix(step_index as nat, attr_index as nat, field@) + tail@);
    }
    s
}

/// Checks the number of values that the `field` list (`anyOf` or `allOf`)
/// of the attribute `attribute_name` resolved to: at least one, at most
/// `MAX_ATTRIBUTE_VALUES`, and at most one in the `allOf` of a
/// single-valued attribute (the worker's OS family or CPU architecture,
/// named in any case).
pub fn check_resolved_attribute_count(
    attribute_name: &str,
    field: &str,
    values: &Vec<String>,
    step_index: usize,
    attr_index: usize,
) -> (r: Result<(), ModelError>)
    ensures
        match attribute_count_error(attribute_name@, field@, values@.len(), step_index as nat, attr_index as nat) {
            None => r is Ok,
            Some(m) => r matches Err(ModelError::DecodeValidation(e)) && e@ == m,
        },
{
    let n = values.len();
    if n == 0 {
        return Err(ModelError::DecodeValidation(
            attribute_message(step_index, attr_index, field, "has no elements after resolution")));
    }
    if n > MAX_ATTRIBUTE_VALUES {
        return Err(ModelError::DecodeValidation(
            attribute_message(step_index, attr_index, field, "exceeds 50 elements after resolution")));
    }
    let lower = to_lowercase(attribute_name);
    let single = text_eq(lower.as_str(), "attr.worker.os.family") || text_eq(lower.as_str(), "attr.worker.cpu.arch");
    proof {
        reveal_strlit("attr.worker.os.family");
        reveal_strlit("attr.worker.cpu.arch");
        reveal_strlit("allOf");
    }
    if single && text_eq(field, "allOf") && n > 1 {
        return Err(ModelError::DecodeValidation(attribute_message(step_index, attr_index, field,
            "single-valued attribute cannot have more than 1 element after resolution")));
    }
    Ok(())
}


/// Law: the resolved lists of an attribute are refused exactly for these
/// counts: an empty list; one of more than 50 values; and an `allOf` of more
/// than one value (and at most 50) where the attribute, named in any case, is
/// the worker's OS family or CPU architecture. Every other list passes, an
/// `anyOf` of any of these attributes included.
pub proof fn law_attribute_counts(name: Seq<char>, n: nat, step: nat, attr: nat)
    ensures
        n == 0 ==> attribute_count_error(name, "allOf"@, n, step, attr)
            == Some(attribute_field_prefix(step, attr, "allOf"@) + "has no elements after resolution"@),
        n == 0 ==> attribute_count_error(name, "anyOf"@, n, step, attr)
            == Some(attribute_field_prefix(step, attr, "anyOf"@) + "has no elements after resolution"@),
        n > 50 ==> attribute_count_error(name, "allOf"@, n, step, attr)
            == Some(attribute_field_prefix(step, attr, "allOf"@) + "exceeds 50 elements after resolution"@),
        (lowercase_of(name) == "attr.worker.os.family"@ || lowercase_of(name) == "attr.worker.cpu.arch"@)
            && 2 <= n <= 50 ==> attribute_count_error(name, "allOf"@, n, step, attr)
                == Some(attribute_field_prefix(step, attr, "allOf"@)
                    + "single-valued attribute cannot have more than 1 element after resolution"@),
        1 <= n <= 50 ==> attribute_count_error(name, "anyOf"@, n, step, attr) is None,
        lowercase_of(name) != "attr.worker.os.family"@ && lowercase_of(name) != "attr.worker.cpu.arch"@
            && 1 <= n <= 50 ==> attribute_count_error(name, "allOf"@, n, step, attr) is None,
        1 <= n <= 1 ==> attribute_count_error(name, "allOf"@, n, step, attr) is None,
{
    reveal_strlit("allOf");
    reveal_strlit("anyOf");
    assert("anyOf"@ != "allOf"@) by {
        assert("anyOf"@[1] != "allOf"@[1]);
    }
}

} // verus!

//! Checks of what static evaluation determined about a format string
//! field against the constraints of the field.

use vstd::prelude::*;
use crate::error::{PathElement, ValidationError, ValidationErrors};
use crate::parameters::{contains_control, has_control, opt_text};
use crate::text::{
    append_usize, char_is_whitespace, i64_parse, is_whitespace, nat_text, parse_i64, push_char,
    str_chars, text_eq,
};

verus! {

/// Longest text that can resolve to a reasonable number.
pub const MAX_RESOLVED_NUMERIC_LEN: usize = 100;

/// Length of the longest cancelation mode, `NOTIFY_THEN_TERMINATE`.
pub const MODE_MAX_LEN: usize = 21;

/// A statically resolved value, as the checks read it.
#[derive(Debug, Clone)]
pub enum ResolvedValue {
    /// `null`.
    Null,
    /// An integer, with its display text.
    Int { value: i64, display: String },
    /// A list: the display text of each element (`None` for a `null`
    /// element), and the display text of the whole list.
    List { elements: Vec<Option<String>>, display: String },
    /// Any other value, by its display text.
    Other { display: String },
}

/// What static evaluation determined about a format string.
#[derive(Debug, Clone)]
pub struct StaticResolutionView {
    /// Least number of characters any resolution has.
    pub min_resolved_string_len: usize,
    /// Whether the resolution is certainly a string.
    pub resolves_to_string: bool,
    /// The value, when it is fully static.
    pub resolved_value: Option<ResolvedValue>,
}

/// The constraint of a format string field on its resolved value.
#[derive(Debug, Clone)]
pub enum ResolvedConstraint {
    /// A string field with a maximum length in characters, optionally
    /// refusing control characters and the empty string.
    Text { max_len: usize, forbid_control_chars: bool, forbid_empty: bool },
    /// A list-item string field: `null` skips, a list flattens, and the
    /// limits apply to each element.
    TextListItem { max_len: usize, forbid_empty: bool },
    /// An integer field with a lower bound, an optional upper bound, and
    /// the messages for each failure; `nullable` accepts `null`.
    Int { min: i64, min_msg: String, max: Option<(i64, String)>, parse_msg: String, nullable: bool },
    /// A cancelation mode: `TERMINATE` or `NOTIFY_THEN_TERMINATE`.
    CancelationMode,
    /// A field consumed as one whole string, with a maximum length.
    ResolvedString { max_len: usize },
    /// An action argument, with a maximum length per argument.
    ArgListItem { max_len: usize },
}

// ----- texts -----

/// Whitespace removed from the front of a text.
pub open spec fn trim_front(s: Seq<char>) -> Seq<char>
    decreases s.len(),
{
    if s.len() > 0 && char_is_whitespace(s[0]) {
        trim_front(s.drop_first())
    } else {
        s
    }
}

/// Whitespace removed from the back of a text.
pub open spec fn trim_back(s: Seq<char>) -> Seq<char>
    decreases s.len(),
{
    if s.len() > 0 && char_is_whitespace(s.last()) {
        trim_back(s.drop_last())
    } else {
        s
    }
}

/// A text with leading and trailing whitespace removed, as `str::trim`
/// does.
pub open spec fn trimmed(s: Seq<char>) -> Seq<char> {
    trim_back(trim_front(s))
}

/// Removes leading and trailing whitespace (the Unicode `White_Space`
/// property) from a text.
pub fn trim_text(s: &str) -> (r: String)
    ensures
        r@ == trimmed(s@),
{
    let cs = str_chars(s);
    let n = cs.len();
    let mut a: usize = 0;
    proof {
        assert(s@.skip(0) =~= s@);
    }
    while a < n && is_whitespace(cs[a])
        invariant
            a <= n,
            n == cs.len(),
            cs@ == s@,
            trim_front(s@) == trim_front(s@.skip(a as int)),
        decreases n - a,
    {
        proof {
            assert(s@.skip(a as int).drop_first() =~= s@.skip(a + 1));
        }
        a = a + 1;
    }
    proof {
        assert(trim_front(s@) == s@.skip(a as int));
        assert(s@.subrange(a as int, n as int) =~= s@.skip(a as int));
    }
    let mut b: usize = n;
    while b > a && is_whitespace(cs[b - 1])
        invariant
            a <= b <= n,
            n == cs.len(),
            cs@ == s@,
            trimmed(s@) == trim_back(s@.subrange(a as int, b as int)),
        decreases b,
    {
        proof {
            assert(s@.subrange(a as int, b as int).drop_last() =~= s@.subrange(a as int, b - 1));
        }
        b = b - 1;
    }
    let mut r = String::new();
    let mut i: usize = a;
    while i < b
        invariant
            a <= i <= b <= n,
            n == cs.len(),
            cs@ == s@,
            r@ == s@.subrange(a as int, i as int),
        decreases b - i,
    {
        push_char(&mut r, cs[i]);
        proof {
            assert(s@.subrange(a as int, i + 1) =~= s@.subrange(a as int, i as int).push(cs@[i as int]));
        }
        i = i + 1;
    }
    r
}

// ----- the checks -----

/// The display text of a value, unless it is `null`.
pub open spec fn static_text(v: Option<ResolvedValue>) -> Option<Seq<char>> {
    match v {
        None => None,
        Some(ResolvedValue::Null) => None,
        Some(ResolvedValue::Int { display, .. }) => Some(display@),
        Some(ResolvedValue::List { display, .. }) => Some(display@),
        Some(ResolvedValue::Other { display }) => Some(display@),
    }
}

/// The elements a list-item resolution yields: a list's elements, or the
/// value alone; `None` for a `null`.
pub open spec fn item_elements(v: ResolvedValue) -> Seq<Option<Seq<char>>> {
    match v {
        ResolvedValue::Null => seq![None],
        ResolvedValue::Int { display, .. } => seq![Some(display@)],
        ResolvedValue::List { elements, .. } => elements@.map_values(|e: Option<String>| opt_text(e)),
        ResolvedValue::Other { display } => seq![Some(display@)],
    }
}

/// `resolves to at least <n> characters, exceeding the maximum of <max>.`
pub open spec fn too_long_message(n: nat, max: nat) -> Seq<char> {
    "resolves to at least "@ + nat_text(n) + " characters, exceeding the maximum of "@ + nat_text(max) + "."@
}

/// The prefix naming element `i` of a list.
pub open spec fn element_label(is_list: bool, i: nat) -> Seq<char> {
    if is_list {
        "list element "@ + nat_text(i) + " "@
    } else {
        Seq::empty()
    }
}

/// The problems of the elements of a list-item resolution, element by
/// element: `null` elements are skipped.
pub open spec fn item_errors(elems: Seq<Option<Seq<char>>>, is_list: bool, max: nat, forbid_empty: bool) -> Seq<Seq<char>>
    decreases elems.len(),
{
    if elems.len() == 0 {
        Seq::empty()
    } else {
        let pre = item_errors(elems.drop_last(), is_list, max, forbid_empty);
        let i = (elems.len() - 1) as nat;
        match elems.last() {
            None => pre,
            Some(t) => if t.len() > max {
                pre.push(element_label(is_list, i) + "resolves to "@ + nat_text(t.len())
                    + " characters, exceeding the maximum of "@ + nat_text(max) + "."@)
            } else if t.len() == 0 && forbid_empty {
                pre.push(element_label(is_list, i) + "must not resolve to an empty string."@)
            } else {
                pre
            },
        }
    }
}

/// The problems of a list-item resolution.
pub open spec fn list_item_errors(sr: StaticResolutionView, max: nat, forbid_empty: bool) -> Seq<Seq<char>> {
    if sr.resolves_to_string && sr.min_resolved_string_len > max {
        seq![too_long_message(sr.min_resolved_string_len as nat, max)]
    } else {
        match sr.resolved_value {
            Some(v) => item_errors(item_elements(v), v is List, max, forbid_empty),
            None => Seq::empty(),
        }
    }
}

/// The integer a static value denotes, if any: an integer itself, or a
/// text that parses as one once trimmed.
pub open spec fn static_int(v: ResolvedValue) -> Option<i64> {
    match v {
        ResolvedValue::Int { value, .. } => Some(value),
        _ => i64_parse(trimmed(static_text(Some(v)).unwrap())),
    }
}

/// The problems of an integer resolution.
pub open spec fn int_errors(
    sr: StaticResolutionView,
    min: i64,
    min_msg: Seq<char>,
    max: Option<(i64, Seq<char>)>,
    parse_msg: Seq<char>,
    nullable: bool,
) -> Seq<Seq<char>> {
    if sr.min_resolved_string_len > MAX_RESOLVED_NUMERIC_LEN {
        seq!["resolves to at least "@ + nat_text(sr.min_resolved_string_len as nat)
            + " characters, which cannot be a reasonable integer value."@]
    } else {
        match sr.resolved_value {
            None => Seq::empty(),
            Some(ResolvedValue::Null) => if nullable { Seq::empty() } else { seq![parse_msg] },
            Some(v) => match static_int(v) {
                None => seq![parse_msg],
                Some(x) => if x < min {
                    seq![min_msg]
                } else if max is Some && x > max.unwrap().0 {
                    seq![max.unwrap().1]
                } else {
                    Seq::empty()
                },
            },
        }
    }
}

/// The problems of a cancelation mode resolution.
pub open spec fn mode_errors(sr: StaticResolutionView) -> Seq<Seq<char>> {
    if sr.min_resolved_string_len > MODE_MAX_LEN {
        seq!["mode resolves to at least "@ + nat_text(sr.min_resolved_string_len as nat)
            + " characters; valid values are TERMINATE and NOTIFY_THEN_TERMINATE."@]
    } else {
        match static_text(sr.resolved_value) {
            Some(s) => if s != "TERMINATE"@ && s != "NOTIFY_THEN_TERMINATE"@ {
                seq!["mode must resolve to TERMINATE or NOTIFY_THEN_TERMINATE, got '"@ + s + "'."@]
            } else {
                Seq::empty()
            },
            None => Seq::empty(),
        }
    }
}

/// The problems of a text resolution.
pub open spec fn text_errors(sr: StaticResolutionView, max: nat, forbid_control: bool, forbid_empty: bool) -> Seq<Seq<char>> {
    (if sr.min_resolved_string_len > max {
        seq![too_long_message(sr.min_resolved_string_len as nat, max)]
    } else {
        Seq::empty()
    }) + match static_text(sr.resolved_value) {
        Some(s) => (if forbid_empty && s.len() == 0 {
            seq!["must not resolve to an empty string."@]
        } else {
            Seq::empty()
        }) + (if forbid_control && has_control(s) {
            seq!["contains control characters."@]
        } else {
            Seq::empty()
        }),
        None => Seq::empty(),
    }
}

/// An optional bound with its message, by the message's text.
pub open spec fn opt_pair_view(m: Option<(i64, String)>) -> Option<(i64, Seq<char>)> {
    match m {
        Some((v, t)) => Some((v, t@)),
        None => None,
    }
}

/// The problems, in order, of a resolution under a constraint.
pub open spec fn resolution_errors(sr: StaticResolutionView, c: ResolvedConstraint) -> Seq<Seq<char>> {
    match c {
        ResolvedConstraint::Text { max_len, forbid_control_chars, forbid_empty } =>
            text_errors(sr, max_len as nat, forbid_control_chars, forbid_empty),
        ResolvedConstraint::TextListItem { max_len, forbid_empty } => list_item_errors(sr, max_len as nat, forbid_empty),
        ResolvedConstraint::ResolvedString { max_len } => if sr.min_resolved_string_len > max_len {
            seq![too_long_message(sr.min_resolved_string_len as nat, max_len as nat)]
        } else {
            Seq::empty()
        },
        ResolvedConstraint::ArgListItem { max_len } => list_item_errors(sr, max_len as nat, false),
        ResolvedConstraint::Int { min, min_msg, max, parse_msg, nullable } =>
            int_errors(sr, min, min_msg@, opt_pair_view(max), parse_msg@, nullable),
        ResolvedConstraint::CancelationMode => mode_errors(sr),
    }
}

/// `new` is `old` followed by errors at `path` with the messages `msgs`.
pub open spec fn appended(old: Seq<ValidationError>, new: Seq<ValidationError>, path: Seq<PathElement>, msgs: Seq<Seq<char>>) -> bool {
    &&& new.len() == old.len() + msgs.len()
    &&& new.take(old.len() as int) == old
    &&& forall|j: int| 0 <= j < msgs.len() ==> (#[trigger] new[old.len() + j]).path@ == path
        && new[old.len() + j].message@ == msgs[j] && new[old.len() + j].detail is None
}

/// Adds one error at `path`, extending what has been added so far.
fn add_message(errors: &mut ValidationErrors, path: &[PathElement], msg: &str, Ghost(base): Ghost<Seq<ValidationError>>, Ghost(msgs): Ghost<Seq<Seq<char>>>)
    requires
        appended(base, old(errors).error_list(), path@, msgs),
    ensures
        appended(base, final(errors).error_list(), path@, msgs.push(msg@)),
        final(errors).model_name() == old(errors).model_name(),
{
    errors.add(path, msg);
    proof {
        let new = errors.error_list();
        assert(new.take(base.len() as int) =~= base) by {
            assert(new.drop_last().take(base.len() as int) =~= base);
        }
        assert forall|j: int| 0 <= j < msgs.push(msg@).len() implies (#[trigger] new[base.len() + j]).path@ == path@
            && new[base.len() + j].message@ == msgs.push(msg@)[j] && new[base.len() + j].detail is None by {
            if j < msgs.len() {
                assert(new[base.len() + j] == new.drop_last()[base.len() + j]);
            }
        }
    }
}

/// `resolves to at least <n> characters, exceeding the maximum of <max>.`
fn too_long_text(n: usize, max: usize) -> (s: String)
    ensures
        s@ == too_long_message(n as nat, max as nat),
{
    let mut s = String::from_str("resolves to at least ");
    append_usize(&mut s, n);
    s.append(" characters, exceeding the maximum of ");
    append_usize(&mut s, max);
    s.append(".");
    proof {
        assert(s@ =~= too_long_message(n as nat, max as nat));
    }
    s
}

/// `<a><n><b>`, with `n` in decimal.
fn count_text(a: &str, n: usize, b: &str) -> (s: String)
    ensures
        s@ == a@ + nat_text(n as nat) + b@,
{
    let mut s = String::from_str(a);
    append_usize(&mut s, n);
    s.append(b);
    proof {
        assert(s@ =~= a@ + nat_text(n as nat) + b@);
    }
    s
}

/// The display text of a value, unless it is `null`.
fn static_text_of(v: &Option<ResolvedValue>) -> (r: Option<&String>)
    ensures
        opt_text(match r {
            Some(s) => Some(*s),
            None => None,
        }) == static_text(*v),
{
    match v {
        None => None,
        Some(ResolvedValue::Null) => None,
        Some(ResolvedValue::Int { display, .. }) => Some(display),
        Some(ResolvedValue::List { display, .. }) => Some(display),
        Some(ResolvedValue::Other { display }) => Some(display),
    }
}

/// Adds the problems of the elements of a list-item resolution.
fn add_item_errors(
    errors: &mut ValidationErrors,
    path: &[PathElement],
    v: &ResolvedValue,
    max: usize,
    forbid_empty: bool,
    Ghost(base): Ghost<Seq<ValidationError>>,
    Ghost(msgs): Ghost<Seq<Seq<char>>>,
)
    requires
        appended(base, old(errors).error_list(), path@, msgs),
    ensures
        appended(base, final(errors).error_list(), path@,
            msgs + item_errors(item_elements(*v), *v is List, max as nat, forbid_empty)),
        final(errors).model_name() == old(errors).model_name(),
{
    let ghost elems = item_elements(*v);
    let ghost is_list = *v is List;
    let mut items: Vec<Option<String>> = Vec::new();
    match v {
        ResolvedValue::Null => {
            items.push(None);
        },
        ResolvedValue::Int { display, .. } => {
            items.push(Some(display.clone()));
        },
        ResolvedValue::List { elements, .. } => {
            items = elements.clone();
        },
        ResolvedValue::Other { display } => {
            items.push(Some(display.clone()));
        },
    }
    let list = match v {
        ResolvedValue::List { .. } => true,
        _ => false,
    };
    proof {
        assert(items@.map_values(|e: Option<String>| opt_text(e)) =~= elems);
    }
    let mut i: usize = 0;
    while i < items.len()
        invariant
            i <= items.len(),
            list == is_list,
            items@.map_values(|e: Option<String>| opt_text(e)) == elems,
            appended(base, errors.error_list(), path@, msgs + item_errors(elems.take(i as int), is_list, max as nat, forbid_empty)),
            errors.model_name() == old(errors).model_name(),
        decreases items.len() - i,
    {
        let ghost before = msgs + item_errors(elems.take(i as int), is_list, max as nat, forbid_empty);
        proof {
            assert(elems.take(i + 1).drop_last() =~= elems.take(i as int));
            assert(elems.take(i + 1).last() == elems[i as int]);
            assert(elems[i as int] == opt_text(items@[i as int]));
        }
        match &items[i] {
            None => {},
            Some(t) => {
                let n = crate::text::char_count(t.as_str());
                if n > max {
                    let mut m = String::new();
                    if list {
                        m = count_text("list element ", i, " ");
                    }
                    m.append("resolves to ");
                    append_usize(&mut m, n);
                    m.append(" characters, exceeding the maximum of ");
                    append_usize(&mut m, max);
                    m.append(".");
                    proof {
                        assert(m@ =~= element_label(is_list, i as nat) + "resolves to "@ + nat_text(n as nat)
                            + " characters, exceeding the maximum of "@ + nat_text(max as nat) + "."@);
                    }
                    add_message(errors, path, m.as_str(), Ghost(base), Ghost(before));
                } else if n == 0 && forbid_empty {
                    let mut m = String::new();
                    if list {
                        m = count_text("list element ", i, " ");
                    }
                    m.append("must not resolve to an empty string.");
                    proof {
                        assert(m@ =~= element_label(is_list, i as nat) + "must not resolve to an empty string."@);
                    }
                    add_message(errors, path, m.as_str(), Ghost(base), Ghost(before));
                }
            },
        }
        proof {
            let after = msgs + item_errors(elems.take(i + 1), is_list, max as nat, forbid_empty);
            assert(before.push(item_errors(elems.take(i + 1), is_list, max as nat, forbid_empty).last()) =~= after
                || before =~= after);
        }
        i = i + 1;
    }
    proof {
        assert(elems.take(items.len() as int) =~= elems);
    }
}

/// Checks what static evaluation determined about a format string field
/// against the field's constraint, adding each problem at `path`, in the
/// order `resolution_errors` gives them.
pub fn check_resolved_constraint(sr: &StaticResolutionView, constraint: &ResolvedConstraint, path: &[PathElement], errors: &mut ValidationErrors)
    ensures
        appended(old(errors).error_list(), final(errors).error_list(), path@, resolution_errors(*sr, *constraint)),
        final(errors).model_name() == old(errors).model_name(),
{
    let ghost base = errors.error_list();
    proof {
        assert(base.take(base.len() as int) =~= base);
        assert(appended(base, base, path@, Seq::empty()));
    }
    let len = sr.min_resolved_string_len;
    match constraint {
        ResolvedConstraint::Text { max_len, forbid_control_chars, forbid_empty } => {
            let ghost mut acc: Seq<Seq<char>> = Seq::empty();
            if len > *max_len {
                let t = too_long_text(len, *max_len);
                add_message(errors, path, t.as_str(), Ghost(base), Ghost(acc));
                proof {
                    acc = acc.push(t@);
                }
            }
            if let Some(s) = static_text_of(&sr.resolved_value) {
                if *forbid_empty && crate::text::char_count(s.as_str()) == 0 {
                    add_message(errors, path, "must not resolve to an empty string.", Ghost(base), Ghost(acc));
                    proof {
                        acc = acc.push("must not resolve to an empty string."@);
                    }
                }
                if *forbid_control_chars && contains_control(s.as_str()) {
                    add_message(errors, path, "contains control characters.", Ghost(base), Ghost(acc));
                    proof {
                        acc = acc.push("contains control characters."@);
                    }
                }
            }
            proof {
                assert(acc =~= resolution_errors(*sr, *constraint));
            }
        },
        ResolvedConstraint::TextListItem { max_len, forbid_empty } => {
            if sr.resolves_to_string && len > *max_len {
                let t = too_long_text(len, *max_len);
                add_message(errors, path, t.as_str(), Ghost(base), Ghost(Seq::empty()));
                proof {
                    assert(Seq::<Seq<char>>::empty().push(t@) =~= resolution_errors(*sr, *constraint));
                }
            } else if let Some(v) = &sr.resolved_value {
                add_item_errors(errors, path, v, *max_len, *forbid_empty, Ghost(base), Ghost(Seq::empty()));
                proof {
                    assert(Seq::<Seq<char>>::empty() + item_errors(item_elements(*v), *v is List, *max_len as nat, *forbid_empty)
                        =~= resolution_errors(*sr, *constraint));
                }
            }
        },
        ResolvedConstraint::ResolvedString { max_len } => {
            if len > *max_len {
                let t = too_long_text(len, *max_len);
                add_message(errors, path, t.as_str(), Ghost(base), Ghost(Seq::empty()));
                proof {
                    assert(Seq::<Seq<char>>::empty().push(t@) =~= resolution_errors(*sr, *constraint));
                }
            }
        },
        ResolvedConstraint::ArgListItem { max_len } => {
            if sr.resolves_to_string && len > *max_len {
                let t = too_long_text(len, *max_len);
                add_message(errors, path, t.as_str(), Ghost(base), Ghost(Seq::empty()));
                proof {
                    assert(Seq::<Seq<char>>::empty().push(t@) =~= resolution_errors(*sr, *constraint));
                }
            } else if let Some(v) = &sr.resolved_value {
                add_item_errors(errors, path, v, *max_len, false, Ghost(base), Ghost(Seq::empty()));
                proof {
                    assert(Seq::<Seq<char>>::empty() + item_errors(item_elements(*v), *v is List, *max_len as nat, false)
                        =~= resolution_errors(*sr, *constraint));
                }
            }
        },
        ResolvedConstraint::Int { min, min_msg, max, parse_msg, nullable } => {
            check_int_resolution(sr, *min, min_msg, max, parse_msg, *nullable, path, errors, Ghost(base));
        },
        ResolvedConstraint::CancelationMode => {
            if len > MODE_MAX_LEN {
                let t = count_text("mode resolves to at least ", len,
                    " characters; valid values are TERMINATE and NOTIFY_THEN_TERMINATE.");
                add_message(errors, path, t.as_str(), Ghost(base), Ghost(Seq::empty()));
                proof {
                    assert(Seq::<Seq<char>>::empty().push(t@) =~= resolution_errors(*sr, *constraint));
                }
            } else if let Some(s) = static_text_of(&sr.resolved_value) {
                if !text_eq(s.as_str(), "TERMINATE") && !text_eq(s.as_str(), "NOTIFY_THEN_TERMINATE") {
                    let mut m = String::from_str("mode must resolve to TERMINATE or NOTIFY_THEN_TERMINATE, got '");
                    m.append(s.as_str());
                    m.append("'.");
                    add_message(errors, path, m.as_str(), Ghost(base), Ghost(Seq::empty()));
                    proof {
                        assert(Seq::<Seq<char>>::empty().push(m@) =~= resolution_errors(*sr, *constraint));
                    }
                }
            }
        },
    }
}

/// The integer check of `check_resolved_constraint`.
fn check_int_resolution(
    sr: &StaticResolutionView,
    min: i64,
    min_msg: &String,
    max: &Option<(i64, String)>,
    parse_msg: &String,
    nullable: bool,
    path: &[PathElement],
    errors: &mut ValidationErrors,
    Ghost(base): Ghost<Seq<ValidationError>>,
)
    requires
        appended(base, old(errors).error_list(), path@, Seq::empty()),
    ensures
        appended(base, final(errors).error_list(), path@, int_errors(*sr, min, min_msg@,
            opt_pair_view(*max), parse_msg@, nullable)),
        final(errors).model_name() == old(errors).model_name(),
{
    let ghost expected = int_errors(*sr, min, min_msg@,
        opt_pair_view(*max), parse_msg@, nullable);
    let len = sr.min_resolved_string_len;
    if len > MAX_RESOLVED_NUMERIC_LEN {
        let t = count_text("resolves to at least ", len, " characters, which cannot be a reasonable integer value.");
        add_message(errors, path, t.as_str(), Ghost(base), Ghost(Seq::empty()));
        proof {
            assert(Seq::<Seq<char>>::empty().push(t@) =~= expected);
        }
        return;
    }
    let value: i64 = match &sr.resolved_value {
        None => {
            assert(expected =~= Seq::<Seq<char>>::empty());
            return;
        },
        Some(ResolvedValue::Null) => {
            if !nullable {
                add_message(errors, path, parse_msg.as_str(), Ghost(base), Ghost(Seq::empty()));
                proof {
                    assert(Seq::<Seq<char>>::empty().push(parse_msg@) =~= expected);
                }
            } else {
                assert(expected =~= Seq::<Seq<char>>::empty());
            }
            return;
        },
        Some(ResolvedValue::Int { value, .. }) => *value,
        Some(ResolvedValue::List { display, .. }) | Some(ResolvedValue::Other { display }) => {
            let t = trim_text(display.as_str());
            match parse_i64(t.as_str()) {
                Some(x) => x,
                None => {
                    add_message(errors, path, parse_msg.as_str(), Ghost(base), Ghost(Seq::empty()));
                    proof {
                        assert(Seq::<Seq<char>>::empty().push(parse_msg@) =~= expected);
                    }
                    return;
                },
            }
        },
    };
    if value < min {
        add_message(errors, path, min_msg.as_str(), Ghost(base), Ghost(Seq::empty()));
        proof {
            assert(Seq::<Seq<char>>::empty().push(min_msg@) =~= expected);
        }
    } else if let Some((hi, hi_msg)) = max {
        if value > *hi {
            add_message(errors, path, hi_msg.as_str(), Ghost(base), Ghost(Seq::empty()));
            proof {
                assert(Seq::<Seq<char>>::empty().push(hi_msg@) =~= expected);
            }
        } else {
            assert(expected =~= Seq::<Seq<char>>::empty());
        }
    } else {
        assert(expected =~= Seq::<Seq<char>>::empty());
    }
}


/// Law: under a text constraint that does not refuse control characters, a
/// resolution within the length bound, and not refused as empty, adds no
/// error, whatever characters its value holds; where control characters are
/// refused, a non-empty static value within the bound that holds one (a
/// character up to U+001F, or from U+007F to U+009F) adds exactly the
/// control-character error.
pub proof fn law_control_characters_only_where_refused(sr: StaticResolutionView, max_len: usize, forbid_empty: bool)
    ensures
        sr.min_resolved_string_len <= max_len
            && !(forbid_empty && (static_text(sr.resolved_value) matches Some(s) && s.len() == 0))
            ==> resolution_errors(sr, ResolvedConstraint::Text { max_len, forbid_control_chars: false, forbid_empty })
                == Seq::<Seq<char>>::empty(),
        sr.min_resolved_string_len <= max_len
            && (static_text(sr.resolved_value) matches Some(s) && s.len() > 0
                && exists|i: int| 0 <= i < s.len() && ((s[i] as u32) <= 0x1f || (0x7f <= (s[i] as u32) && (s[i] as u32) <= 0x9f)))
            ==> resolution_errors(sr, ResolvedConstraint::Text { max_len, forbid_control_chars: true, forbid_empty })
                == seq!["contains control characters."@],
{
    if sr.min_resolved_string_len <= max_len {
        if let Some(s) = static_text(sr.resolved_value) {
            if s.len() > 0 && exists|i: int| 0 <= i < s.len() && ((s[i] as u32) <= 0x1f || (0x7f <= (s[i] as u32) && (s[i] as u32) <= 0x9f)) {
                let i = choose|i: int| 0 <= i < s.len() && ((s[i] as u32) <= 0x1f || (0x7f <= (s[i] as u32) && (s[i] as u32) <= 0x9f));
                assert(crate::constrained_strings::control_char(s[i]));
                assert(has_control(s));
                assert(resolution_errors(sr, ResolvedConstraint::Text { max_len, forbid_control_chars: true, forbid_empty })
                    =~= seq!["contains control characters."@]);
            }
        }
        if !(forbid_empty && (static_text(sr.resolved_value) matches Some(s) && s.len() == 0)) {
            assert(resolution_errors(sr, ResolvedConstraint::Text { max_len, forbid_control_chars: false, forbid_empty })
                =~= Seq::<Seq<char>>::empty());
        }
    }
}


/// Law: an integer field with a static integer value, resolving to at most
/// 100 characters, is refused with the minimum's message below `min`, with
/// the maximum's message above the maximum, and accepted between them; a
/// static `null` is accepted only where the field is nullable; a value not
/// known statically is accepted; a resolution of more than 100 characters is
/// refused as no reasonable integer.
pub proof fn law_int_resolution(
    len: usize,
    x: i64,
    display: String,
    min: i64,
    min_msg: String,
    max: Option<(i64, String)>,
    parse_msg: String,
    nullable: bool,
    is_string: bool,
)
    ensures ({
        let c = ResolvedConstraint::Int { min, min_msg, max, parse_msg, nullable };
        let int_sr = StaticResolutionView { min_resolved_string_len: len, resolves_to_string: is_string,
            resolved_value: Some(ResolvedValue::Int { value: x, display }) };
        let null_sr = StaticResolutionView { min_resolved_string_len: len, resolves_to_string: is_string,
            resolved_value: Some(ResolvedValue::Null) };
        let open_sr = StaticResolutionView { min_resolved_string_len: len, resolves_to_string: is_string,
            resolved_value: None };
        &&& (len <= 100 && x < min ==> resolution_errors(int_sr, c) == seq![min_msg@])
        &&& (len <= 100 && x >= min && max is Some && x > max.unwrap().0
            ==> resolution_errors(int_sr, c) == seq![max.unwrap().1@])
        &&& (len <= 100 && x >= min && !(max is Some && x > max.unwrap().0)
            ==> resolution_errors(int_sr, c) == Seq::<Seq<char>>::empty())
        &&& (len <= 100 && nullable ==> resolution_errors(null_sr, c) == Seq::<Seq<char>>::empty())
        &&& (len <= 100 && !nullable ==> resolution_errors(null_sr, c) == seq![parse_msg@])
        &&& (len <= 100 ==> resolution_errors(open_sr, c) == Seq::<Seq<char>>::empty())
        &&& (len > 100 ==> resolution_errors(open_sr, c) == seq!["resolves to at least "@ + nat_text(len as nat)
            + " characters, which cannot be a reasonable integer value."@])
    }),
{
}

/// Law: a cancelation mode resolving to `TERMINATE` or
/// `NOTIFY_THEN_TERMINATE` is accepted; any other static text is refused,
/// naming it; a mode not known statically is accepted when it can be short
/// enough.
pub proof fn law_mode_resolution(len: usize, t: String, is_string: bool)
    ensures ({
        let sr = StaticResolutionView { min_resolved_string_len: len, resolves_to_string: is_string,
            resolved_value: Some(ResolvedValue::Other { display: t }) };
        let open_sr = StaticResolutionView { min_resolved_string_len: len, resolves_to_string: is_string,
            resolved_value: None };
        &&& (len <= 21 && (t@ == "TERMINATE"@ || t@ == "NOTIFY_THEN_TERMINATE"@)
            ==> resolution_errors(sr, ResolvedConstraint::CancelationMode) == Seq::<Seq<char>>::empty())
        &&& (len <= 21 && t@ != "TERMINATE"@ && t@ != "NOTIFY_THEN_TERMINATE"@
            ==> resolution_errors(sr, ResolvedConstraint::CancelationMode)
                == seq!["mode must resolve to TERMINATE or NOTIFY_THEN_TERMINATE, got '"@ + t@ + "'."@])
        &&& (len <= 21 ==> resolution_errors(open_sr, ResolvedConstraint::CancelationMode) == Seq::<Seq<char>>::empty())
        &&& (len > 21 ==> resolution_errors(open_sr, ResolvedConstraint::CancelationMode).len() == 1)
    }),
{
    let sr = StaticResolutionView { min_resolved_string_len: len, resolves_to_string: is_string,
        resolved_value: Some(ResolvedValue::Other { display: t }) };
    assert(static_text(sr.resolved_value) == Some(t@));
}

/// Law: a list-item field that certainly resolves to a string longer than
/// the maximum is refused with the length error alone; a `null` item, or one
/// not known statically, adds nothing; a single static text within the
/// maximum, and not refused as empty, adds nothing.
pub proof fn law_list_item_resolution(len: usize, t: String, max_len: usize, forbid_empty: bool)
    ensures ({
        let c = ResolvedConstraint::TextListItem { max_len, forbid_empty };
        let null_sr = StaticResolutionView { min_resolved_string_len: len, resolves_to_string: false,
            resolved_value: Some(ResolvedValue::Null) };
        let one_sr = StaticResolutionView { min_resolved_string_len: len, resolves_to_string: true,
            resolved_value: Some(ResolvedValue::Other { display: t }) };
        &&& (len > max_len ==> resolution_errors(StaticResolutionView { min_resolved_string_len: len,
            resolves_to_string: true, resolved_value: None }, c)
                == seq![too_long_message(len as nat, max_len as nat)])
        &&& resolution_errors(null_sr, c) == Seq::<Seq<char>>::empty()
        &&& resolution_errors(StaticResolutionView { min_resolved_string_len: len, resolves_to_string: false,
            resolved_value: None }, c) == Seq::<Seq<char>>::empty()
        &&& (len <= max_len && t@.len() <= max_len && !(forbid_empty && t@.len() == 0)
            ==> resolution_errors(one_sr, c) == Seq::<Seq<char>>::empty())
    }),
{
    let null_elems = item_elements(ResolvedValue::Null);
    assert(null_elems.drop_last() =~= Seq::<Option<Seq<char>>>::empty());
    assert(item_errors(null_elems.drop_last(), false, max_len as nat, forbid_empty) == Seq::<Seq<char>>::empty());
    assert(item_errors(null_elems, false, max_len as nat, forbid_empty) == Seq::<Seq<char>>::empty());
    let one_elems = item_elements(ResolvedValue::Other { display: t });
    assert(one_elems.drop_last() =~= Seq::<Option<Seq<char>>>::empty());
    assert(item_errors(one_elems.drop_last(), false, max_len as nat, forbid_empty) == Seq::<Seq<char>>::empty());
    if len <= max_len && t@.len() <= max_len && !(forbid_empty && t@.len() == 0) {
        assert(one_elems.last() == Some(t@));
        assert(item_errors(one_elems, false, max_len as nat, forbid_empty) == Seq::<Seq<char>>::empty());
    }
}


proof fn lemma_trim_front(s: Seq<char>)
    ensures
        exists|a: int| 0 <= a <= s.len() && trim_front(s) == s.skip(a)
            && (forall|j: int| 0 <= j < a ==> char_is_whitespace(#[trigger] s[j]))
            && (a < s.len() ==> !char_is_whitespace(s[a])),
    decreases s.len(),
{
    if s.len() > 0 && char_is_whitespace(s[0]) {
        lemma_trim_front(s.drop_first());
        let a = choose|a: int| 0 <= a <= s.drop_first().len() && trim_front(s.drop_first()) == s.drop_first().skip(a)
            && (forall|j: int| 0 <= j < a ==> char_is_whitespace(#[trigger] s.drop_first()[j]))
            && (a < s.drop_first().len() ==> !char_is_whitespace(s.drop_first()[a]));
        assert(s.drop_first().skip(a) =~= s.skip(a + 1));
        assert forall|j: int| 0 <= j < a + 1 implies char_is_whitespace(#[trigger] s[j]) by {
            if j > 0 {
                assert(s[j] == s.drop_first()[j - 1]);
            }
        }
        if a + 1 < s.len() {
            assert(s[a + 1] == s.drop_first()[a]);
        }
    } else {
        assert(s.skip(0) =~= s);
    }
}

proof fn lemma_trim_back(s: Seq<char>)
    ensures
        exists|b: int| 0 <= b <= s.len() && trim_back(s) == s.take(b)
            && (forall|j: int| b <= j < s.len() ==> char_is_whitespace(#[trigger] s[j]))
            && (b > 0 ==> !char_is_whitespace(s[b - 1])),
    decreases s.len(),
{
    if s.len() > 0 && char_is_whitespace(s.last()) {
        lemma_trim_back(s.drop_last());
        let b = choose|b: int| 0 <= b <= s.drop_last().len() && trim_back(s.drop_last()) == s.drop_last().take(b)
            && (forall|j: int| b <= j < s.drop_last().len() ==> char_is_whitespace(#[trigger] s.drop_last()[j]))
            && (b > 0 ==> !char_is_whitespace(s.drop_last()[b - 1]));
        assert(s.drop_last().take(b) =~= s.take(b));
        assert forall|j: int| b <= j < s.len() implies char_is_whitespace(#[trigger] s[j]) by {
            if j < s.len() - 1 {
                assert(s[j] == s.drop_last()[j]);
            }
        }
        if b > 0 {
            assert(s[b - 1] == s.drop_last()[b - 1]);
        }
    } else {
        assert(s.take(s.len() as int) =~= s);
    }
}

/// Law: trimming keeps the part of a text between its leading and its
/// trailing whitespace: it is a run of the text, everything before and after
/// it is whitespace, and it neither starts nor ends with whitespace.
pub proof fn law_trimmed(s: Seq<char>)
    ensures
        exists|a: int, b: int| 0 <= a <= b <= s.len() && #[trigger] trimmed(s) == s.subrange(a, b)
            && (forall|j: int| 0 <= j < a ==> char_is_whitespace(#[trigger] s[j]))
            && (forall|j: int| b <= j < s.len() ==> char_is_whitespace(#[trigger] s[j])),
        trimmed(s).len() > 0 ==> !char_is_whitespace(trimmed(s)[0]) && !char_is_whitespace(trimmed(s).last()),
{
    lemma_trim_front(s);
    let a = choose|a: int| 0 <= a <= s.len() && trim_front(s) == s.skip(a)
        && (forall|j: int| 0 <= j < a ==> char_is_whitespace(#[trigger] s[j]))
        && (a < s.len() ==> !char_is_whitespace(s[a]));
    let f = s.skip(a);
    lemma_trim_back(f);
    let b = choose|b: int| 0 <= b <= f.len() && trim_back(f) == f.take(b)
        && (forall|j: int| b <= j < f.len() ==> char_is_whitespace(#[trigger] f[j]))
        && (b > 0 ==> !char_is_whitespace(f[b - 1]));
    assert(f.take(b) =~= s.subrange(a, a + b));
    assert forall|j: int| a + b <= j < s.len() implies char_is_whitespace(#[trigger] s[j]) by {
        assert(s[j] == f[j - a]);
    }
    if b > 0 {
        assert(trimmed(s)[0] == s[a]);
        assert(trimmed(s).last() == f[b - 1]);
    }
}

} // verus!

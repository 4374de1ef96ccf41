//! Job parameter definitions: the constraints a value must meet, and the
//! checks of a definition itself.

use vstd::prelude::*;
use vstd::utf8::encode_utf8;
use crate::constrained_strings::{control_char, is_control, Description, Identifier};
use crate::text::{
    append_i64, append_usize, char_count, i64_parse, int_text, lowercase_of, nat_text,
    parse_i64, push_char, str_chars, text_eq, to_lowercase,
};
use crate::types::{DataFlow, ObjectType};

verus! {

/// A list that is either absent or present (possibly empty). An explicit
/// `null` in a document is refused while reading it, so absence and an
/// empty list stay apart.
#[derive(Debug, Clone)]
pub struct NullableVec<T>(pub Option<Vec<T>>);

impl<T> Default for NullableVec<T> {
    fn default() -> (r: Self)
        ensures
            r.0 is None,
    {
        NullableVec(None)
    }
}

impl<T> NullableVec<T> {
    /// The list, when present.
    pub fn as_ref(&self) -> (r: Option<&Vec<T>>)
        ensures
            r is Some <==> self.0 is Some,
            r matches Some(v) ==> *v == self.0.unwrap(),
    {
        match &self.0 {
            Some(v) => Some(v),
            None => None,
        }
    }

    /// Whether the list is present.
    pub fn is_some(&self) -> (b: bool)
        ensures
            b == self.0 is Some,
    {
        self.0.is_some()
    }

    /// Whether the list is absent.
    pub fn is_none(&self) -> (b: bool)
        ensures
            b == self.0 is None,
    {
        self.0.is_none()
    }
}

/// An integer read from a document that may have written it as an integer,
/// an integer-valued float or a numeric string.
#[derive(Debug, Clone)]
pub struct FlexInt(pub i64);

/// User interface of a STRING parameter.
#[derive(Debug, Clone)]
pub struct StringUserInterface {
    pub control: Option<String>,
    pub label: Option<String>,
    pub group_label: Option<String>,
}

/// User interface of an INT parameter.
#[derive(Debug, Clone)]
pub struct IntUserInterface {
    pub control: Option<String>,
    pub label: Option<String>,
    pub group_label: Option<String>,
    pub single_step_delta: Option<FlexInt>,
}

/// A file filter of a PATH parameter's file chooser.
#[derive(Debug, Clone)]
pub struct FileFilter {
    pub label: String,
    pub patterns: Vec<String>,
}

/// User interface of a PATH parameter.
#[derive(Debug, Clone)]
pub struct PathUserInterface {
    pub control: Option<String>,
    pub label: Option<String>,
    pub group_label: Option<String>,
    pub file_filters: Option<Vec<FileFilter>>,
    pub file_filter_default: Option<FileFilter>,
}

/// The limits in effect while a template is checked.
#[derive(Debug, Clone, Copy)]
pub struct EffectiveLimits {
    /// Most characters of a string or path parameter's value.
    pub max_job_param_string_len: usize,
}

/// Most characters of a user-interface label.
pub const MAX_UI_LABEL_CHARS: usize = 64;

/// Most file filters of a PATH parameter.
pub const MAX_FILE_FILTERS: usize = 20;

/// Most bytes of a file filter pattern.
pub const MAX_FILE_FILTER_PATTERN_BYTES: usize = 20;

// ----- views -----

/// The texts of a list of strings.
pub open spec fn texts(v: Seq<String>) -> Seq<Seq<char>> {
    v.map_values(|s: String| s@)
}

/// The text of an optional string.
pub open spec fn opt_text(o: Option<String>) -> Option<Seq<char>> {
    match o {
        Some(s) => Some(s@),
        None => None,
    }
}

/// The texts of an optional list of strings.
pub open spec fn opt_texts(o: Option<Vec<String>>) -> Option<Seq<Seq<char>>> {
    match o {
        Some(v) => Some(texts(v@)),
        None => None,
    }
}

/// The integers of a list of flexible integers.
pub open spec fn flex_values(v: Seq<FlexInt>) -> Seq<i64> {
    v.map_values(|f: FlexInt| f.0)
}

/// The integer of an optional flexible integer.
pub open spec fn opt_flex(o: Option<FlexInt>) -> Option<i64> {
    match o {
        Some(f) => Some(f.0),
        None => None,
    }
}

/// The integers of an optional list of flexible integers.
pub open spec fn opt_flex_values(n: NullableVec<FlexInt>) -> Option<Seq<i64>> {
    match n.0 {
        Some(v) => Some(flex_values(v@)),
        None => None,
    }
}

// ----- messages -----

/// A message about parameter `name`.
pub open spec fn param_message(name: Seq<char>, tail: Seq<char>) -> Seq<char> {
    "Parameter '"@ + name + "': "@ + tail
}

/// The message `m` when `b` holds, else nothing.
pub open spec fn when(b: bool, m: Seq<char>) -> Seq<Seq<char>> {
    if b {
        seq![m]
    } else {
        seq![]
    }
}

/// The message of an optional error.
pub open spec fn opt_seq(o: Option<Seq<char>>) -> Seq<Seq<char>> {
    match o {
        Some(m) => seq![m],
        None => seq![],
    }
}

/// `Parameter '<name>': `.
fn param_prefix(name: &str) -> (s: String)
    ensures
        s@ == "Parameter '"@ + name@ + "': "@,
{
    let mut s = String::from_str("Parameter '");
    s.append(name);
    s.append("': ");
    s
}

/// A message about parameter `name` that ends in the fixed text `tail`.
fn param_msg(name: &str, tail: &str) -> (s: String)
    ensures
        s@ == param_message(name@, tail@),
{
    let mut s = param_prefix(name);
    s.append(tail);
    proof {
        assert(s@ =~= param_message(name@, tail@));
    }
    s
}

/// Appends a message to a list of messages.
fn push_text(errors: &mut Vec<String>, m: String)
    ensures
        texts(final(errors)@) == texts(old(errors)@).push(m@),
{
    let ghost t = m@;
    errors.push(m);
    proof {
        assert(texts(errors@) =~= texts(old(errors)@).push(t));
    }
}

/// Appends the messages of `more` to `errors`.
fn extend_texts(errors: &mut Vec<String>, more: Vec<String>)
    ensures
        texts(final(errors)@) == texts(old(errors)@) + texts(more@),
{
    let mut i: usize = 0;
    while i < more.len()
        invariant
            i <= more.len(),
            texts(errors@) == texts(old(errors)@) + texts(more@.take(i as int)),
        decreases more.len() - i,
    {
        let m = more[i].clone();
        push_text(errors, m);
        proof {
            assert(texts(more@.take(i + 1)) =~= texts(more@.take(i as int)).push(more@[i as int]@));
        }
        i = i + 1;
    }
    proof {
        assert(more@.take(more.len() as int) =~= more@);
    }
}

// ----- user-interface labels -----

/// Whether a text holds a control character (Unicode category Cc).
pub open spec fn has_control(s: Seq<char>) -> bool {
    exists|i: int| 0 <= i < s.len() && #[trigger] control_char(s[i])
}

/// The problems of an optional user-interface label, in the order they
/// are reported.
pub open spec fn ui_label_errors(label: Option<Seq<char>>, field: Seq<char>, param: Seq<char>) -> Seq<Seq<char>> {
    match label {
        None => seq![],
        Some(l) => when(l.len() == 0, param_message(param, field + " must not be empty."@))
            + when(l.len() > MAX_UI_LABEL_CHARS, param_message(param, field + " exceeds 64 characters."@))
            + when(has_control(l), param_message(param, field + " contains control characters."@)),
    }
}

/// Whether a text holds a control character.
pub(crate) fn contains_control(s: &str) -> (b: bool)
    ensures
        b == has_control(s@),
{
    let cs = str_chars(s);
    let mut i: usize = 0;
    while i < cs.len()
        invariant
            i <= cs.len(),
            cs@ == s@,
            forall|j: int| 0 <= j < i ==> !#[trigger] control_char(cs@[j]),
        decreases cs.len() - i,
    {
        if is_control(cs[i]) {
            assert(control_char(s@[i as int]));
            return true;
        }
        i = i + 1;
    }
    false
}

/// The message `Parameter '<param>': <field><tail>`.
fn field_msg(param: &str, field: &str, tail: &str) -> (s: String)
    ensures
        s@ == param_message(param@, field@ + tail@),
{
    let mut s = param_prefix(param);
    s.append(field);
    s.append(tail);
    proof {
        assert(s@ =~= param_message(param@, field@ + tail@));
    }
    s
}

/// Checks a user-interface label: not empty, at most 64 characters, no
/// control characters.
pub fn validate_ui_label(label: &Option<String>, field_name: &str, param_name: &str) -> (r: Vec<String>)
    ensures
        texts(r@) == ui_label_errors(opt_text(*label), field_name@, param_name@),
{
    let mut errors: Vec<String> = Vec::new();
    if let Some(l) = label {
        let n = char_count(l.as_str());
        if n == 0 {
            push_text(&mut errors, field_msg(param_name, field_name, " must not be empty."));
        }
        if n > MAX_UI_LABEL_CHARS {
            push_text(&mut errors, field_msg(param_name, field_name, " exceeds 64 characters."));
        }
        if contains_control(l.as_str()) {
            push_text(&mut errors, field_msg(param_name, field_name, " contains control characters."));
        }
    }
    proof {
        assert(texts(errors@) =~= ui_label_errors(opt_text(*label), field_name@, param_name@));
    }
    errors
}

// ----- values of STRING and PATH parameters -----

/// The first constraint a STRING or PATH value of `v` breaks: its length
/// in characters against `min` and `max`, then membership in `allowed`.
pub open spec fn text_value_error(
    name: Seq<char>,
    min: Option<usize>,
    max: Option<usize>,
    allowed: Option<Seq<Seq<char>>>,
    v: Seq<char>,
) -> Option<Seq<char>> {
    if min is Some && v.len() < min.unwrap() {
        Some(param_message(name, "value length "@ + nat_text(v.len()) + " is less than minimum "@
            + nat_text(min.unwrap() as nat)))
    } else if max is Some && v.len() > max.unwrap() {
        Some(param_message(name, "value length "@ + nat_text(v.len()) + " exceeds maximum "@
            + nat_text(max.unwrap() as nat)))
    } else if allowed is Some && !allowed.unwrap().contains(v) {
        Some(param_message(name, "value '"@ + v + "' is not in allowed values"@))
    } else {
        None
    }
}

/// Whether `v` is one of `allowed`.
fn texts_contain(allowed: &Vec<String>, v: &str) -> (b: bool)
    ensures
        b == texts(allowed@).contains(v@),
{
    let target = String::from_str(v);
    let mut i: usize = 0;
    while i < allowed.len()
        invariant
            i <= allowed.len(),
            target@ == v@,
            forall|j: int| 0 <= j < i ==> allowed@[j]@ != v@,
        decreases allowed.len() - i,
    {
        if allowed[i] == target {
            assert(texts(allowed@)[i as int] == v@);
            return true;
        }
        i = i + 1;
    }
    proof {
        if texts(allowed@).contains(v@) {
            let k = choose|k: int| 0 <= k < texts(allowed@).len() && texts(allowed@)[k] == v@;
            assert(allowed@[k]@ == v@);
        }
    }
    false
}

/// Checks a STRING or PATH value against its length bounds and allowed values.
fn check_text_value(
    name: &str,
    min: Option<usize>,
    max: Option<usize>,
    allowed: &Option<Vec<String>>,
    value: &str,
) -> (r: Result<(), String>)
    ensures
        r is Ok <==> text_value_error(name@, min, max, opt_texts(*allowed), value@) is None,
        r matches Err(m) ==> text_value_error(name@, min, max, opt_texts(*allowed), value@) == Some(m@),
{
    let n = char_count(value);
    if let Some(lo) = min {
        if n < lo {
            let mut m = param_prefix(name);
            m.append("value length ");
            append_usize(&mut m, n);
            m.append(" is less than minimum ");
            append_usize(&mut m, lo);
            proof {
                assert(m@ =~= param_message(name@, "value length "@ + nat_text(value@.len()) + " is less than minimum "@ + nat_text(lo as nat)));
            }
            return Err(m);
        }
    }
    if let Some(hi) = max {
        if n > hi {
            let mut m = param_prefix(name);
            m.append("value length ");
            append_usize(&mut m, n);
            m.append(" exceeds maximum ");
            append_usize(&mut m, hi);
            proof {
                assert(m@ =~= param_message(name@, "value length "@ + nat_text(value@.len()) + " exceeds maximum "@ + nat_text(hi as nat)));
            }
            return Err(m);
        }
    }
    if let Some(a) = allowed {
        if !texts_contain(a, value) {
            let mut m = param_prefix(name);
            m.append("value '");
            m.append(value);
            m.append("' is not in allowed values");
            proof {
                assert(m@ =~= param_message(name@, "value '"@ + value@ + "' is not in allowed values"@));
            }
            return Err(m);
        }
    }
    Ok(())
}

// ----- values of INT parameters -----

/// The first constraint an INT value written as `v` breaks: it must parse
/// as an `i64`, then lie within `min` and `max`, then be one of `allowed`.
pub open spec fn int_value_error(
    name: Seq<char>,
    min: Option<i64>,
    max: Option<i64>,
    allowed: Option<Seq<i64>>,
    v: Seq<char>,
) -> Option<Seq<char>> {
    match i64_parse(v) {
        None => Some(param_message(name, "value '"@ + v + "' is not a valid integer"@)),
        Some(p) => if min is Some && p < min.unwrap() {
            Some(param_message(name, "value "@ + int_text(p as int) + " is less than minimum "@
                + int_text(min.unwrap() as int)))
        } else if max is Some && p > max.unwrap() {
            Some(param_message(name, "value "@ + int_text(p as int) + " exceeds maximum "@
                + int_text(max.unwrap() as int)))
        } else if allowed is Some && !allowed.unwrap().contains(p) {
            Some(param_message(name, "value "@ + int_text(p as int) + " is not in allowed values"@))
        } else {
            None
        },
    }
}

/// Whether `x` is one of `allowed`.
fn flex_contains(allowed: &Vec<FlexInt>, x: i64) -> (b: bool)
    ensures
        b == flex_values(allowed@).contains(x),
{
    let mut i: usize = 0;
    while i < allowed.len()
        invariant
            i <= allowed.len(),
            forall|j: int| 0 <= j < i ==> allowed@[j].0 != x,
        decreases allowed.len() - i,
    {
        if allowed[i].0 == x {
            assert(flex_values(allowed@)[i as int] == x);
            return true;
        }
        i = i + 1;
    }
    proof {
        if flex_values(allowed@).contains(x) {
            let k = choose|k: int| 0 <= k < flex_values(allowed@).len() && flex_values(allowed@)[k] == x;
            assert(allowed@[k].0 == x);
        }
    }
    false
}

// ----- file filter patterns -----

/// A character that a file filter's extension may not hold.
pub open spec fn filter_forbidden_char(c: char) -> bool {
    control_char(c) || c == '\\' || c == '/' || c == '*' || c == '?' || c == '[' || c == ']'
        || c == '#' || c == '%' || c == '&' || c == '{' || c == '}' || c == '<' || c == '>'
        || c == '$' || c == '!' || c == '\'' || c == '"' || c == ':' || c == '@' || c == '`'
        || c == '|' || c == '='
}

/// The first forbidden character of a text, if any.
pub open spec fn first_forbidden(s: Seq<char>) -> Option<char>
    decreases s.len(),
{
    if s.len() == 0 {
        None
    } else if filter_forbidden_char(s[0]) {
        Some(s[0])
    } else {
        first_forbidden(s.skip(1))
    }
}

/// The problem of a file filter pattern `p` of `nbytes` bytes, if any: it
/// must be 1..=20 bytes, and `*`, `*.*` or `*.` followed by a non-empty
/// extension without forbidden characters.
pub open spec fn file_filter_pattern_error(p: Seq<char>, nbytes: int, name: Seq<char>) -> Option<Seq<char>> {
    if p.len() == 0 || nbytes > MAX_FILE_FILTER_PATTERN_BYTES {
        Some(param_message(name, "file filter pattern must be 1..=20 characters."@))
    } else if p == "*"@ || p == "*.*"@ {
        None
    } else if !(p.len() >= 2 && p[0] == '*' && p[1] == '.') {
        Some(param_message(name, "file filter pattern '"@ + p + "' must be '*', '*.*', or '*.ext'."@))
    } else if p.len() == 2 {
        Some(param_message(name, "file filter pattern '"@ + p + "' has empty extension."@))
    } else {
        match first_forbidden(p.skip(2)) {
            Some(c) => Some(param_message(name, "file filter pattern '"@ + p
                + "' contains disallowed character '"@ + seq![c] + "'."@)),
            None => None,
        }
    }
}

/// The number of bytes of a text in UTF-8, as `str::len` reports it.
pub open spec fn byte_len(s: Seq<char>) -> int {
    (encode_utf8(s).len() as usize) as int
}

/// Whether a character is forbidden in a file filter's extension.
fn is_filter_forbidden(c: char) -> (b: bool)
    ensures
        b == filter_forbidden_char(c),
{
    is_control(c) || c == '\\' || c == '/' || c == '*' || c == '?' || c == '[' || c == ']'
        || c == '#' || c == '%' || c == '&' || c == '{' || c == '}' || c == '<' || c == '>'
        || c == '$' || c == '!' || c == '\'' || c == '"' || c == ':' || c == '@' || c == '`'
        || c == '|' || c == '='
}

/// Checks one file filter pattern and appends its problem, if any.
fn validate_file_filter_pattern(pattern: &str, param_name: &str, errors: &mut Vec<String>)
    ensures
        texts(final(errors)@) == texts(old(errors)@)
            + opt_seq(file_filter_pattern_error(pattern@, byte_len(pattern@), param_name@)),
{
    let ghost err = file_filter_pattern_error(pattern@, byte_len(pattern@), param_name@);
    let cs = str_chars(pattern);
    if cs.len() == 0 || pattern.len() > MAX_FILE_FILTER_PATTERN_BYTES {
        push_text(errors, param_msg(param_name, "file filter pattern must be 1..=20 characters."));
        assert(texts(errors@) =~= texts(old(errors)@) + opt_seq(err));
        return;
    }
    if text_eq(pattern, "*") || text_eq(pattern, "*.*") {
        assert(texts(errors@) =~= texts(old(errors)@) + opt_seq(err));
        return;
    }
    if !(cs.len() >= 2 && cs[0] == '*' && cs[1] == '.') {
        let mut m = param_prefix(param_name);
        m.append("file filter pattern '");
        m.append(pattern);
        m.append("' must be '*', '*.*', or '*.ext'.");
        proof {
            assert(m@ =~= param_message(param_name@, "file filter pattern '"@ + pattern@ + "' must be '*', '*.*', or '*.ext'."@));
        }
        push_text(errors, m);
        assert(texts(errors@) =~= texts(old(errors)@) + opt_seq(err));
        return;
    }
    if cs.len() == 2 {
        let mut m = param_prefix(param_name);
        m.append("file filter pattern '");
        m.append(pattern);
        m.append("' has empty extension.");
        proof {
            assert(m@ =~= param_message(param_name@, "file filter pattern '"@ + pattern@ + "' has empty extension."@));
        }
        push_text(errors, m);
        assert(texts(errors@) =~= texts(old(errors)@) + opt_seq(err));
        return;
    }
    let ghost ext = pattern@.skip(2);
    let mut i: usize = 2;
    while i < cs.len()
        invariant
            2 <= i <= cs.len(),
            cs@ == pattern@,
            ext == pattern@.skip(2),
            first_forbidden(ext) == first_forbidden(pattern@.skip(i as int)),
            texts(errors@) == texts(old(errors)@),
            err == file_filter_pattern_error(pattern@, byte_len(pattern@), param_name@),
            cs.len() > 2,
            byte_len(pattern@) <= MAX_FILE_FILTER_PATTERN_BYTES,
            !(pattern@ == "*"@ || pattern@ == "*.*"@),
            cs@[0] == '*' && cs@[1] == '.',
        decreases cs.len() - i,
    {
        let c = cs[i];
        proof {
            assert(pattern@.skip(i as int)[0] == c);
            assert(pattern@.skip(i as int).skip(1) =~= pattern@.skip(i + 1));
        }
        if is_filter_forbidden(c) {
            let mut m = param_prefix(param_name);
            m.append("file filter pattern '");
            m.append(pattern);
            m.append("' contains disallowed character '");
            push_char(&mut m, c);
            m.append("'.");
            proof {
                assert(m@ =~= param_message(param_name@, "file filter pattern '"@ + pattern@
                    + "' contains disallowed character '"@ + seq![c] + "'."@));
            }
            push_text(errors, m);
            assert(texts(errors@) =~= texts(old(errors)@) + opt_seq(err));
            return;
        }
        i = i + 1;
    }
    proof {
        assert(pattern@.skip(i as int).len() == 0);
        assert(texts(errors@) =~= texts(old(errors)@) + opt_seq(err));
    }
}

// ----- sections of a definition's check, shared by STRING and PATH -----

/// The problems of the allowed value at index `i`, of `vlen` characters:
/// its length against the limit and against `min` and `max`. `lt` and `gt`
/// are the words between the length and the bound.
pub open spec fn allowed_entry_errors(
    name: Seq<char>,
    i: nat,
    vlen: nat,
    limit: nat,
    min: Option<usize>,
    max: Option<usize>,
    lt: Seq<char>,
    gt: Seq<char>,
) -> Seq<Seq<char>> {
    when(vlen > limit, param_message(name, "allowedValues["@ + nat_text(i) + "] exceeds "@
        + nat_text(limit) + " characters."@))
    + when(min is Some && vlen < min.unwrap(), param_message(name, "allowedValues["@ + nat_text(i)
        + "] length "@ + nat_text(vlen) + lt + nat_text(min.unwrap() as nat) + "."@))
    + when(max is Some && vlen > max.unwrap(), param_message(name, "allowedValues["@ + nat_text(i)
        + "] length "@ + nat_text(vlen) + gt + nat_text(max.unwrap() as nat) + "."@))
}

/// The problems of the allowed values `vals`, entry by entry.
pub open spec fn allowed_entries_errors(
    name: Seq<char>,
    vals: Seq<Seq<char>>,
    limit: nat,
    min: Option<usize>,
    max: Option<usize>,
    lt: Seq<char>,
    gt: Seq<char>,
) -> Seq<Seq<char>>
    decreases vals.len(),
{
    if vals.len() == 0 {
        seq![]
    } else {
        allowed_entries_errors(name, vals.drop_last(), limit, min, max, lt, gt)
            + allowed_entry_errors(name, (vals.len() - 1) as nat, vals.last().len(), limit, min, max, lt, gt)
    }
}

/// The problems of an optional list of allowed values: it may not be
/// empty, and each entry is checked.
pub open spec fn allowed_section(
    name: Seq<char>,
    allowed: Option<Seq<Seq<char>>>,
    limit: nat,
    min: Option<usize>,
    max: Option<usize>,
    lt: Seq<char>,
    gt: Seq<char>,
) -> Seq<Seq<char>> {
    match allowed {
        None => seq![],
        Some(a) => when(a.len() == 0, param_message(name, "allowedValues must not be empty."@))
            + allowed_entries_errors(name, a, limit, min, max, lt, gt),
    }
}

/// The problem of length bounds in the wrong order.
pub open spec fn length_bounds_section(name: Seq<char>, min: Option<usize>, max: Option<usize>) -> Seq<Seq<char>> {
    when(min is Some && max is Some && min.unwrap() > max.unwrap(), param_message(name, "minLength ("@
        + nat_text(min.unwrap() as nat) + ") > maxLength ("@ + nat_text(max.unwrap() as nat) + ")."@))
}

/// The problems of an optional default value: its length against the
/// limit, `min` and `max`, and membership in the allowed values.
pub open spec fn default_section(
    name: Seq<char>,
    default: Option<Seq<char>>,
    allowed: Option<Seq<Seq<char>>>,
    limit: nat,
    min: Option<usize>,
    max: Option<usize>,
    lt: Seq<char>,
    gt: Seq<char>,
) -> Seq<Seq<char>> {
    match default {
        None => seq![],
        Some(d) => when(d.len() > limit, param_message(name, "default exceeds "@ + nat_text(limit)
                + " characters."@))
            + when(min is Some && d.len() < min.unwrap(), param_message(name, "default length "@
                + nat_text(d.len()) + lt + nat_text(min.unwrap() as nat) + "."@))
            + when(max is Some && d.len() > max.unwrap(), param_message(name, "default length "@
                + nat_text(d.len()) + gt + nat_text(max.unwrap() as nat) + "."@))
            + when(allowed is Some && !allowed.unwrap().contains(d), param_message(name, "default '"@
                + d + "' is not in allowedValues."@)),
    }
}

/// The problems of the two labels of a user interface.
pub open spec fn labels_errors(name: Seq<char>, label: Option<String>, group_label: Option<String>) -> Seq<Seq<char>> {
    ui_label_errors(opt_text(label), "label"@, name) + ui_label_errors(opt_text(group_label), "groupLabel"@, name)
}

/// `Parameter '<name>': <a><n><b>`, with `n` in decimal.
fn num_msg(name: &str, a: &str, n: usize, b: &str) -> (s: String)
    ensures
        s@ == param_message(name@, a@ + nat_text(n as nat) + b@),
{
    let mut s = param_prefix(name);
    s.append(a);
    append_usize(&mut s, n);
    s.append(b);
    proof {
        assert(s@ =~= param_message(name@, a@ + nat_text(n as nat) + b@));
    }
    s
}

/// `Parameter '<name>': <a><n><b><m><c>`, with `n` and `m` in decimal.
fn two_num_msg(name: &str, a: &str, n: usize, b: &str, m: usize, c: &str) -> (s: String)
    ensures
        s@ == param_message(name@, a@ + nat_text(n as nat) + b@ + nat_text(m as nat) + c@),
{
    let mut s = param_prefix(name);
    s.append(a);
    append_usize(&mut s, n);
    s.append(b);
    append_usize(&mut s, m);
    s.append(c);
    proof {
        assert(s@ =~= param_message(name@, a@ + nat_text(n as nat) + b@ + nat_text(m as nat) + c@));
    }
    s
}

/// `Parameter '<name>': allowedValues[<i>] length <vlen><word><bound>.`
fn entry_length_msg(name: &str, i: usize, vlen: usize, word: &str, bound: usize) -> (s: String)
    ensures
        s@ == param_message(name@, "allowedValues["@ + nat_text(i as nat) + "] length "@
            + nat_text(vlen as nat) + word@ + nat_text(bound as nat) + "."@),
{
    let mut s = param_prefix(name);
    s.append("allowedValues[");
    append_usize(&mut s, i);
    s.append("] length ");
    append_usize(&mut s, vlen);
    s.append(word);
    append_usize(&mut s, bound);
    s.append(".");
    proof {
        assert(s@ =~= param_message(name@, "allowedValues["@ + nat_text(i as nat) + "] length "@
            + nat_text(vlen as nat) + word@ + nat_text(bound as nat) + "."@));
    }
    s
}

/// Appends the problems of one allowed value.
fn push_allowed_entry_errors(
    errors: &mut Vec<String>,
    name: &str,
    i: usize,
    vlen: usize,
    limit: usize,
    min: Option<usize>,
    max: Option<usize>,
    lt: &str,
    gt: &str,
)
    ensures
        texts(final(errors)@) == texts(old(errors)@)
            + allowed_entry_errors(name@, i as nat, vlen as nat, limit as nat, min, max, lt@, gt@),
{
    if vlen > limit {
        push_text(errors, two_num_msg(name, "allowedValues[", i, "] exceeds ", limit, " characters."));
    }
    let ghost mid = texts(errors@);
    if let Some(lo) = min {
        if vlen < lo {
            push_text(errors, entry_length_msg(name, i, vlen, lt, lo));
        }
    }
    let ghost mid2 = texts(errors@);
    if let Some(hi) = max {
        if vlen > hi {
            push_text(errors, entry_length_msg(name, i, vlen, gt, hi));
        }
    }
    proof {
        let e = allowed_entry_errors(name@, i as nat, vlen as nat, limit as nat, min, max, lt@, gt@);
        assert(texts(errors@) =~= texts(old(errors)@) + e);
    }
}

/// Appends the problems of an optional list of allowed values.
fn push_allowed_section(
    errors: &mut Vec<String>,
    name: &str,
    allowed: &Option<Vec<String>>,
    limit: usize,
    min: Option<usize>,
    max: Option<usize>,
    lt: &str,
    gt: &str,
)
    ensures
        texts(final(errors)@) == texts(old(errors)@)
            + allowed_section(name@, opt_texts(*allowed), limit as nat, min, max, lt@, gt@),
{
    if let Some(a) = allowed {
        if a.len() == 0 {
            push_text(errors, param_msg(name, "allowedValues must not be empty."));
        }
        let ghost base = texts(errors@);
        let ghost vals = texts(a@);
        let mut i: usize = 0;
        while i < a.len()
            invariant
                i <= a.len(),
                vals == texts(a@),
                texts(errors@) == base + allowed_entries_errors(name@, vals.take(i as int), limit as nat, min, max, lt@, gt@),
            decreases a.len() - i,
        {
            let vlen = char_count(a[i].as_str());
            push_allowed_entry_errors(errors, name, i, vlen, limit, min, max, lt, gt);
            proof {
                let t = vals.take(i + 1);
                assert(t.drop_last() =~= vals.take(i as int));
                assert(t.last() == a@[i as int]@);
                assert(texts(errors@) =~= base + allowed_entries_errors(name@, t, limit as nat, min, max, lt@, gt@));
            }
            i = i + 1;
        }
        proof {
            assert(vals.take(a.len() as int) =~= vals);
            assert(texts(errors@) =~= texts(old(errors)@)
                + allowed_section(name@, opt_texts(*allowed), limit as nat, min, max, lt@, gt@));
        }
    } else {
        assert(texts(errors@) =~= texts(old(errors)@)
            + allowed_section(name@, opt_texts(*allowed), limit as nat, min, max, lt@, gt@));
    }
}

/// Appends the problem of length bounds in the wrong order.
fn push_length_bounds(errors: &mut Vec<String>, name: &str, min: Option<usize>, max: Option<usize>)
    ensures
        texts(final(errors)@) == texts(old(errors)@) + length_bounds_section(name@, min, max),
{
    if let (Some(lo), Some(hi)) = (min, max) {
        if lo > hi {
            push_text(errors, two_num_msg(name, "minLength (", lo, ") > maxLength (", hi, ")."));
        }
    }
    assert(texts(errors@) =~= texts(old(errors)@) + length_bounds_section(name@, min, max));
}

/// Appends the problems of an optional default value.
fn push_default_section(
    errors: &mut Vec<String>,
    name: &str,
    default: &Option<String>,
    allowed: &Option<Vec<String>>,
    limit: usize,
    min: Option<usize>,
    max: Option<usize>,
    lt: &str,
    gt: &str,
)
    ensures
        texts(final(errors)@) == texts(old(errors)@)
            + default_section(name@, opt_text(*default), opt_texts(*allowed), limit as nat, min, max, lt@, gt@),
{
    if let Some(d) = default {
        let dlen = char_count(d.as_str());
        if dlen > limit {
            push_text(errors, num_msg(name, "default exceeds ", limit, " characters."));
        }
        if let Some(lo) = min {
            if dlen < lo {
                let mut m = param_prefix(name);
                m.append("default length ");
                append_usize(&mut m, dlen);
                m.append(lt);
                append_usize(&mut m, lo);
                m.append(".");
                proof {
                    assert(m@ =~= param_message(name@, "default length "@ + nat_text(dlen as nat) + lt@
                        + nat_text(lo as nat) + "."@));
                }
                push_text(errors, m);
            }
        }
        if let Some(hi) = max {
            if dlen > hi {
                let mut m = param_prefix(name);
                m.append("default length ");
                append_usize(&mut m, dlen);
                m.append(gt);
                append_usize(&mut m, hi);
                m.append(".");
                proof {
                    assert(m@ =~= param_message(name@, "default length "@ + nat_text(dlen as nat) + gt@
                        + nat_text(hi as nat) + "."@));
                }
                push_text(errors, m);
            }
        }
        if let Some(a) = allowed {
            if !texts_contain(a, d.as_str()) {
                let mut m = param_prefix(name);
                m.append("default '");
                m.append(d.as_str());
                m.append("' is not in allowedValues.");
                proof {
                    assert(m@ =~= param_message(name@, "default '"@ + d@ + "' is not in allowedValues."@));
                }
                push_text(errors, m);
            }
        }
    }
    assert(texts(errors@) =~= texts(old(errors)@)
        + default_section(name@, opt_text(*default), opt_texts(*allowed), limit as nat, min, max, lt@, gt@));
}

/// Appends the problems of the two labels of a user interface.
fn push_labels(errors: &mut Vec<String>, name: &str, label: &Option<String>, group_label: &Option<String>)
    ensures
        texts(final(errors)@) == texts(old(errors)@) + labels_errors(name@, *label, *group_label),
{
    extend_texts(errors, validate_ui_label(label, "label", name));
    extend_texts(errors, validate_ui_label(group_label, "groupLabel", name));
    assert(texts(errors@) =~= texts(old(errors)@) + labels_errors(name@, *label, *group_label));
}

/// `Parameter '<name>': <a><t><b>`.
fn text_msg(name: &str, a: &str, t: &str, b: &str) -> (s: String)
    ensures
        s@ == param_message(name@, a@ + t@ + b@),
{
    let mut s = param_prefix(name);
    s.append(a);
    s.append(t);
    s.append(b);
    proof {
        assert(s@ =~= param_message(name@, a@ + t@ + b@));
    }
    s
}

// ----- STRING parameters -----

/// Words of the STRING checks between a length and its lower bound.
pub open spec fn string_lt() -> Seq<char> {
    " is less than minLength "@
}

/// Words of the STRING checks between a length and its upper bound.
pub open spec fn string_gt() -> Seq<char> {
    " exceeds maxLength "@
}

/// Whether two lower-case texts spell one of the accepted boolean pairs.
pub open spec fn boolean_pair(x: Seq<char>, y: Seq<char>) -> bool {
    ||| x == "true"@ && y == "false"@
    ||| x == "false"@ && y == "true"@
    ||| x == "yes"@ && y == "no"@
    ||| x == "no"@ && y == "yes"@
    ||| x == "on"@ && y == "off"@
    ||| x == "off"@ && y == "on"@
    ||| x == "1"@ && y == "0"@
    ||| x == "0"@ && y == "1"@
}

/// The problems of a STRING parameter's user-interface control.
pub open spec fn string_control_errors(name: Seq<char>, control: Seq<char>, allowed: Option<Seq<Seq<char>>>) -> Seq<Seq<char>> {
    if control == "LINE_EDIT"@ || control == "MULTILINE_EDIT"@ {
        when(allowed is Some, param_message(name, "control '"@ + control + "' cannot be used with allowedValues."@))
    } else if control == "DROPDOWN_LIST"@ {
        when(allowed is None, param_message(name, "DROPDOWN_LIST requires allowedValues."@))
    } else if control == "CHECK_BOX"@ {
        match allowed {
            Some(a) => if a.len() != 2 {
                seq![param_message(name, "CHECK_BOX requires exactly 2 allowedValues."@)]
            } else {
                when(!boolean_pair(lowercase_of(a[0]), lowercase_of(a[1])),
                    param_message(name, "CHECK_BOX allowedValues must be a valid boolean pair."@))
            },
            None => seq![param_message(name, "CHECK_BOX requires allowedValues."@)],
        }
    } else if control == "HIDDEN"@ {
        seq![]
    } else {
        seq![param_message(name, "unknown control '"@ + control + "'."@)]
    }
}

/// The problems of a STRING parameter's user interface.
pub open spec fn string_ui_errors(name: Seq<char>, ui: Option<StringUserInterface>, allowed: Option<Seq<Seq<char>>>) -> Seq<Seq<char>> {
    match ui {
        None => seq![],
        Some(u) => labels_errors(name, u.label, u.group_label) + match u.control {
            Some(c) => string_control_errors(name, c@, allowed),
            None => seq![],
        },
    }
}

/// A STRING job parameter.
#[derive(Debug, Clone)]
pub struct JobStringParameterDefinition {
    pub name: Identifier,
    pub description: Option<Description>,
    pub default: Option<String>,
    pub allowed_values: Option<Vec<String>>,
    pub min_length: Option<usize>,
    pub max_length: Option<usize>,
    pub user_interface: Option<StringUserInterface>,
}

/// Whether the lower-case forms of two texts spell an accepted boolean pair.
fn is_boolean_pair(a: &str, b: &str) -> (r: bool)
    ensures
        r == boolean_pair(lowercase_of(a@), lowercase_of(b@)),
{
    let x = to_lowercase(a);
    let y = to_lowercase(b);
    let x = x.as_str();
    let y = y.as_str();
    (text_eq(x, "true") && text_eq(y, "false"))
        || (text_eq(x, "false") && text_eq(y, "true"))
        || (text_eq(x, "yes") && text_eq(y, "no"))
        || (text_eq(x, "no") && text_eq(y, "yes"))
        || (text_eq(x, "on") && text_eq(y, "off"))
        || (text_eq(x, "off") && text_eq(y, "on"))
        || (text_eq(x, "1") && text_eq(y, "0"))
        || (text_eq(x, "0") && text_eq(y, "1"))
}

/// Appends the problems of a STRING parameter's control.
fn push_string_control_errors(errors: &mut Vec<String>, name: &str, control: &str, allowed: &Option<Vec<String>>)
    ensures
        texts(final(errors)@) == texts(old(errors)@) + string_control_errors(name@, control@, opt_texts(*allowed)),
{
    if text_eq(control, "LINE_EDIT") || text_eq(control, "MULTILINE_EDIT") {
        if allowed.is_some() {
            push_text(errors, text_msg(name, "control '", control, "' cannot be used with allowedValues."));
        }
    } else if text_eq(control, "DROPDOWN_LIST") {
        if allowed.is_none() {
            push_text(errors, param_msg(name, "DROPDOWN_LIST requires allowedValues."));
        }
    } else if text_eq(control, "CHECK_BOX") {
        match allowed {
            Some(a) => {
                if a.len() != 2 {
                    push_text(errors, param_msg(name, "CHECK_BOX requires exactly 2 allowedValues."));
                } else if !is_boolean_pair(a[0].as_str(), a[1].as_str()) {
                    push_text(errors, param_msg(name, "CHECK_BOX allowedValues must be a valid boolean pair."));
                }
            },
            None => {
                push_text(errors, param_msg(name, "CHECK_BOX requires allowedValues."));
            },
        }
    } else if text_eq(control, "HIDDEN") {
    } else {
        push_text(errors, text_msg(name, "unknown control '", control, "'."));
    }
    assert(texts(errors@) =~= texts(old(errors)@) + string_control_errors(name@, control@, opt_texts(*allowed)));
}

impl JobStringParameterDefinition {
    /// The first constraint that the value `v` breaks, if any.
    pub open spec fn value_error(&self, v: Seq<char>) -> Option<Seq<char>> {
        text_value_error(self.name.0@, self.min_length, self.max_length, opt_texts(self.allowed_values), v)
    }

    /// The problems of this definition, in the order they are reported.
    pub open spec fn definition_errors(&self, limits: EffectiveLimits) -> Seq<Seq<char>> {
        let name = self.name.0@;
        let allowed = opt_texts(self.allowed_values);
        let limit = limits.max_job_param_string_len as nat;
        allowed_section(name, allowed, limit, self.min_length, self.max_length, string_lt(), string_gt())
            + length_bounds_section(name, self.min_length, self.max_length)
            + when(self.max_length == Some(0usize), param_message(name, "maxLength must be > 0."@))
            + default_section(name, opt_text(self.default), allowed, limit, self.min_length,
                self.max_length, string_lt(), string_gt())
            + string_ui_errors(name, self.user_interface, allowed)
    }

    /// Checks a value: its length in characters against `minLength` and
    /// `maxLength`, then membership in `allowedValues`.
    pub fn check_constraints(&self, value: &str) -> (r: Result<(), String>)
        ensures
            r is Ok <==> self.value_error(value@) is None,
            r matches Err(m) ==> self.value_error(value@) == Some(m@),
    {
        check_text_value(self.name.as_str(), self.min_length, self.max_length, &self.allowed_values, value)
    }

    /// Checks the definition: its allowed values, length bounds, default and
    /// user interface. Every problem found is reported.
        pub fn validate_definition(&self, limits: &EffectiveLimits) -> (r: Result<(), Vec<String>>)
        ensures
            r is Ok <==> self.definition_errors(*limits).len() == 0,
            r matches Err(v) ==> texts(v@) == self.definition_errors(*limits),
    {
        let name = self.name.as_str();
        let limit = limits.max_job_param_string_len;
        let mut errors: Vec<String> = Vec::new();
        push_allowed_section(&mut errors, name, &self.allowed_values, limit, self.min_length,
            self.max_length, " is less than minLength ", " exceeds maxLength ");
        push_length_bounds(&mut errors, name, self.min_length, self.max_length);
        if let Some(hi) = self.max_length {
            if hi == 0 {
                push_text(&mut errors, param_msg(name, "maxLength must be > 0."));
            }
        }
        let ghost mid = texts(errors@);
        push_default_section(&mut errors, name, &self.default, &self.allowed_values, limit,
            self.min_length, self.max_length, " is less than minLength ", " exceeds maxLength ");
        if let Some(ui) = &self.user_interface {
            push_labels(&mut errors, name, &ui.label, &ui.group_label);
            if let Some(control) = &ui.control {
                push_string_control_errors(&mut errors, name, control.as_str(), &self.allowed_values);
            }
        }
        proof {
            assert(texts(errors@) =~= self.definition_errors(*limits));
        }
        if errors.len() == 0 {
            Ok(())
        } else {
            Err(errors)
        }
    }
}

// ----- INT parameters -----

/// The problems of an INT parameter's user-interface control `control`.
pub open spec fn int_control_errors(name: Seq<char>, control: Seq<char>, allowed_some: bool, delta: Option<i64>) -> Seq<Seq<char>> {
    if control == "SPIN_BOX"@ {
        when(allowed_some, param_message(name, "SPIN_BOX cannot be used with allowedValues."@))
    } else if control == "DROPDOWN_LIST"@ {
        when(!allowed_some, param_message(name, "DROPDOWN_LIST requires allowedValues."@))
            + when(delta is Some, param_message(name, "singleStepDelta is only valid with SPIN_BOX."@))
    } else if control == "HIDDEN"@ {
        when(delta is Some, param_message(name, "singleStepDelta is not valid with HIDDEN."@))
    } else {
        seq![param_message(name, "unknown control '"@ + control + "'."@)]
    }
}

/// The problems of an INT parameter's user interface whose control is `control`.
pub open spec fn int_ui_errors(name: Seq<char>, u: IntUserInterface, control: Seq<char>, allowed_some: bool) -> Seq<Seq<char>> {
    labels_errors(name, u.label, u.group_label)
        + int_control_errors(name, control, allowed_some, opt_flex(u.single_step_delta))
        + when(u.single_step_delta is Some && u.single_step_delta.unwrap().0 <= 0,
            param_message(name, "singleStepDelta must be positive."@))
}

/// An INT job parameter.
#[derive(Debug, Clone)]
pub struct JobIntParameterDefinition {
    pub name: Identifier,
    pub description: Option<Description>,
    pub default: Option<FlexInt>,
    pub allowed_values: NullableVec<FlexInt>,
    pub min_value: Option<FlexInt>,
    pub max_value: Option<FlexInt>,
    pub user_interface: Option<IntUserInterface>,
}

/// `Parameter '<name>': <a><x><b>`, with `x` in decimal.
fn int_msg(name: &str, a: &str, x: i64, b: &str) -> (s: String)
    ensures
        s@ == param_message(name@, a@ + int_text(x as int) + b@),
{
    let mut s = param_prefix(name);
    s.append(a);
    append_i64(&mut s, x);
    s.append(b);
    proof {
        assert(s@ =~= param_message(name@, a@ + int_text(x as int) + b@));
    }
    s
}

/// `Parameter '<name>': <a><x><b><y><c>`, with `x` and `y` in decimal.
fn two_int_msg(name: &str, a: &str, x: i64, b: &str, y: i64, c: &str) -> (s: String)
    ensures
        s@ == param_message(name@, a@ + int_text(x as int) + b@ + int_text(y as int) + c@),
{
    let mut s = param_prefix(name);
    s.append(a);
    append_i64(&mut s, x);
    s.append(b);
    append_i64(&mut s, y);
    s.append(c);
    proof {
        assert(s@ =~= param_message(name@, a@ + int_text(x as int) + b@ + int_text(y as int) + c@));
    }
    s
}

/// `Parameter '<name>': <a><x><b><y>`, with `x` and `y` in decimal.
fn int_pair_msg(name: &str, a: &str, x: i64, b: &str, y: i64) -> (s: String)
    ensures
        s@ == param_message(name@, a@ + int_text(x as int) + b@ + int_text(y as int)),
{
    let mut s = param_prefix(name);
    s.append(a);
    append_i64(&mut s, x);
    s.append(b);
    append_i64(&mut s, y);
    proof {
        assert(s@ =~= param_message(name@, a@ + int_text(x as int) + b@ + int_text(y as int)));
    }
    s
}

/// `Parameter '<name>': <t><b>`.
fn lead_msg(name: &str, t: &str, b: &str) -> (s: String)
    ensures
        s@ == param_message(name@, t@ + b@),
{
    let mut s = param_prefix(name);
    s.append(t);
    s.append(b);
    proof {
        assert(s@ =~= param_message(name@, t@ + b@));
    }
    s
}

/// Appends the problems of an INT parameter's control.
fn push_int_control_errors(errors: &mut Vec<String>, name: &str, control: &str, allowed_some: bool, delta: Option<i64>)
    ensures
        texts(final(errors)@) == texts(old(errors)@) + int_control_errors(name@, control@, allowed_some, delta),
{
    if text_eq(control, "SPIN_BOX") {
        if allowed_some {
            push_text(errors, param_msg(name, "SPIN_BOX cannot be used with allowedValues."));
        }
    } else if text_eq(control, "DROPDOWN_LIST") {
        if !allowed_some {
            push_text(errors, param_msg(name, "DROPDOWN_LIST requires allowedValues."));
        }
        if delta.is_some() {
            push_text(errors, param_msg(name, "singleStepDelta is only valid with SPIN_BOX."));
        }
    } else if text_eq(control, "HIDDEN") {
        if delta.is_some() {
            push_text(errors, param_msg(name, "singleStepDelta is not valid with HIDDEN."));
        }
    } else {
        push_text(errors, text_msg(name, "unknown control '", control, "'."));
    }
    assert(texts(errors@) =~= texts(old(errors)@) + int_control_errors(name@, control@, allowed_some, delta));
}

/// Appends the problems of an INT parameter's user interface.
fn push_int_ui_errors(errors: &mut Vec<String>, name: &str, ui: &IntUserInterface, control: &str, allowed_some: bool)
    ensures
        texts(final(errors)@) == texts(old(errors)@) + int_ui_errors(name@, *ui, control@, allowed_some),
{
    push_labels(errors, name, &ui.label, &ui.group_label);
    let delta: Option<i64> = match &ui.single_step_delta {
        Some(d) => Some(d.0),
        None => None,
    };
    push_int_control_errors(errors, name, control, allowed_some, delta);
    if let Some(d) = delta {
        if d <= 0 {
            push_text(errors, param_msg(name, "singleStepDelta must be positive."));
        }
    }
    assert(texts(errors@) =~= texts(old(errors)@) + int_ui_errors(name@, *ui, control@, allowed_some));
}

impl JobIntParameterDefinition {
    /// The first constraint that a value written as `v` breaks, if any.
    pub open spec fn value_error(&self, v: Seq<char>) -> Option<Seq<char>> {
        int_value_error(self.name.0@, opt_flex(self.min_value), opt_flex(self.max_value),
            opt_flex_values(self.allowed_values), v)
    }

    /// The control a user interface names, or the one it defaults to:
    /// a drop-down list with allowed values, else a spin box.
    pub open spec fn control_name(&self, u: IntUserInterface) -> Seq<char> {
        match u.control {
            Some(c) => c@,
            None => if self.allowed_values.0 is Some { "DROPDOWN_LIST"@ } else { "SPIN_BOX"@ },
        }
    }

    /// The problems of this definition, in the order they are reported.
    pub open spec fn definition_errors(&self) -> Seq<Seq<char>> {
        let name = self.name.0@;
        when(self.allowed_values.0 is Some && self.allowed_values.0.unwrap()@.len() == 0,
            param_message(name, "allowedValues must not be empty."@))
        + when(self.min_value is Some && self.max_value is Some
            && self.min_value.unwrap().0 > self.max_value.unwrap().0,
            param_message(name, "minValue ("@ + int_text(self.min_value.unwrap().0 as int) + ") > maxValue ("@
                + int_text(self.max_value.unwrap().0 as int) + ")."@))
        + match self.default {
            Some(d) => opt_seq(self.value_error(int_text(d.0 as int))),
            None => seq![],
        }
        + match self.user_interface {
            None => seq![],
            Some(u) => int_ui_errors(name, u, self.control_name(u), self.allowed_values.0 is Some),
        }
    }

    /// Checks a value: it must parse as an integer, then lie within
    /// `minValue` and `maxValue`, then be one of `allowedValues`.
    pub fn check_constraints(&self, value: &str) -> (r: Result<(), String>)
        ensures
            r is Ok <==> self.value_error(value@) is None,
            r matches Err(m) ==> self.value_error(value@) == Some(m@),
    {
        let name = self.name.as_str();
        let parsed = match parse_i64(value) {
            Some(p) => p,
            None => {
                return Err(text_msg(name, "value '", value, "' is not a valid integer"));
            },
        };
        if let Some(lo) = &self.min_value {
            if parsed < lo.0 {
                return Err(int_pair_msg(name, "value ", parsed, " is less than minimum ", lo.0));
            }
        }
        if let Some(hi) = &self.max_value {
            if parsed > hi.0 {
                return Err(int_pair_msg(name, "value ", parsed, " exceeds maximum ", hi.0));
            }
        }
        if let Some(a) = self.allowed_values.as_ref() {
            if !flex_contains(a, parsed) {
                return Err(int_msg(name, "value ", parsed, " is not in allowed values"));
            }
        }
        Ok(())
    }

    /// Checks the definition: its allowed values, bounds, default and user
    /// interface. Every problem found is reported.
        pub fn validate_definition(&self) -> (r: Result<(), Vec<String>>)
        ensures
            r is Ok <==> self.definition_errors().len() == 0,
            r matches Err(v) ==> texts(v@) == self.definition_errors(),
    {
        let name = self.name.as_str();
        let mut errors: Vec<String> = Vec::new();
        if let Some(a) = self.allowed_values.as_ref() {
            if a.len() == 0 {
                push_text(&mut errors, param_msg(name, "allowedValues must not be empty."));
            }
        }
        if let (Some(lo), Some(hi)) = (&self.min_value, &self.max_value) {
            if lo.0 > hi.0 {
                push_text(&mut errors, two_int_msg(name, "minValue (", lo.0, ") > maxValue (", hi.0, ")."));
            }
        }
        if let Some(d) = &self.default {
            let text = crate::text::i64_text(d.0);
            if let Err(e) = self.check_constraints(text.as_str()) {
                push_text(&mut errors, e);
            }
        }
        let ghost mid = texts(errors@);
        if let Some(ui) = &self.user_interface {
            let allowed_some = self.allowed_values.is_some();
            let control: &str = match &ui.control {
                Some(c) => c.as_str(),
                None => if allowed_some { "DROPDOWN_LIST" } else { "SPIN_BOX" },
            };
            push_int_ui_errors(&mut errors, name, ui, control, allowed_some);
        }
        proof {
            assert(texts(errors@) =~= self.definition_errors());
        }
        if errors.len() == 0 {
            Ok(())
        } else {
            Err(errors)
        }
    }
}

// ----- PATH parameters -----

/// Words of the PATH checks between a length and its lower bound.
pub open spec fn path_lt() -> Seq<char> {
    " < minLength "@
}

/// Words of the PATH checks between a length and its upper bound.
pub open spec fn path_gt() -> Seq<char> {
    " > maxLength "@
}

/// Whether a control is one of the two file choosers.
pub open spec fn is_file_chooser(control: Seq<char>) -> bool {
    control == "CHOOSE_INPUT_FILE"@ || control == "CHOOSE_OUTPUT_FILE"@
}

/// The problems of a PATH parameter's user-interface control `control`.
pub open spec fn path_control_errors(name: Seq<char>, control: Seq<char>, allowed_some: bool, object: ObjectType) -> Seq<Seq<char>> {
    if is_file_chooser(control) {
        when(allowed_some, param_message(name, control + " cannot be used with allowedValues."@))
            + when(object == ObjectType::Directory, param_message(name, control + " requires objectType FILE."@))
    } else if control == "CHOOSE_DIRECTORY"@ {
        when(allowed_some, param_message(name, "CHOOSE_DIRECTORY cannot be used with allowedValues."@))
            + when(object == ObjectType::File, param_message(name, "CHOOSE_DIRECTORY requires objectType DIRECTORY."@))
    } else if control == "DROPDOWN_LIST"@ {
        when(!allowed_some, param_message(name, "DROPDOWN_LIST requires allowedValues."@))
    } else if control == "HIDDEN"@ {
        seq![]
    } else {
        seq![param_message(name, "unknown control '"@ + control + "'."@)]
    }
}

/// The problems of a list of file filter patterns, pattern by pattern.
pub open spec fn patterns_errors(name: Seq<char>, ps: Seq<String>) -> Seq<Seq<char>>
    decreases ps.len(),
{
    if ps.len() == 0 {
        seq![]
    } else {
        patterns_errors(name, ps.drop_last())
            + opt_seq(file_filter_pattern_error(ps.last()@, byte_len(ps.last()@), name))
    }
}

/// The problems of a list of file filters, filter by filter.
pub open spec fn filters_errors(name: Seq<char>, fs: Seq<FileFilter>) -> Seq<Seq<char>>
    decreases fs.len(),
{
    if fs.len() == 0 {
        seq![]
    } else {
        filters_errors(name, fs.drop_last())
            + when(fs.last().patterns@.len() == 0, param_message(name, "fileFilter patterns must not be empty."@))
            + patterns_errors(name, fs.last().patterns@)
    }
}

/// The problems of a PATH parameter's file filters, given its control.
pub open spec fn file_filters_section(name: Seq<char>, u: PathUserInterface, control: Seq<char>) -> Seq<Seq<char>> {
    (match u.file_filters {
        Some(fs) => when(!is_file_chooser(control), param_message(name, "fileFilters only valid with file chooser controls."@))
            + when(fs@.len() > MAX_FILE_FILTERS, param_message(name, "fileFilters exceeds 20 elements."@))
            + filters_errors(name, fs@),
        None => seq![],
    }) + (match u.file_filter_default {
        Some(f) => when(!is_file_chooser(control), param_message(name, "fileFilterDefault only valid with file chooser controls."@))
            + patterns_errors(name, f.patterns@),
        None => seq![],
    })
}

/// A PATH job parameter.
#[derive(Debug, Clone)]
pub struct JobPathParameterDefinition {
    pub name: Identifier,
    pub description: Option<Description>,
    pub default: Option<String>,
    pub allowed_values: Option<Vec<String>>,
    pub min_length: Option<usize>,
    pub max_length: Option<usize>,
    pub object_type: Option<ObjectType>,
    pub data_flow: Option<DataFlow>,
    pub user_interface: Option<PathUserInterface>,
}

/// Appends the problems of a PATH parameter's control.
fn push_path_control_errors(errors: &mut Vec<String>, name: &str, control: &str, allowed_some: bool, object: ObjectType)
    ensures
        texts(final(errors)@) == texts(old(errors)@) + path_control_errors(name@, control@, allowed_some, object),
{
    if text_eq(control, "CHOOSE_INPUT_FILE") || text_eq(control, "CHOOSE_OUTPUT_FILE") {
        if allowed_some {
            push_text(errors, lead_msg(name, control, " cannot be used with allowedValues."));
        }
        if object == ObjectType::Directory {
            push_text(errors, lead_msg(name, control, " requires objectType FILE."));
        }
    } else if text_eq(control, "CHOOSE_DIRECTORY") {
        if allowed_some {
            push_text(errors, param_msg(name, "CHOOSE_DIRECTORY cannot be used with allowedValues."));
        }
        if object == ObjectType::File {
            push_text(errors, param_msg(name, "CHOOSE_DIRECTORY requires objectType DIRECTORY."));
        }
    } else if text_eq(control, "DROPDOWN_LIST") {
        if !allowed_some {
            push_text(errors, param_msg(name, "DROPDOWN_LIST requires allowedValues."));
        }
    } else if text_eq(control, "HIDDEN") {
    } else {
        push_text(errors, text_msg(name, "unknown control '", control, "'."));
    }
    assert(texts(errors@) =~= texts(old(errors)@) + path_control_errors(name@, control@, allowed_some, object));
}

/// Appends the problems of a list of file filter patterns.
fn push_patterns_errors(errors: &mut Vec<String>, name: &str, ps: &Vec<String>)
    ensures
        texts(final(errors)@) == texts(old(errors)@) + patterns_errors(name@, ps@),
{
    let mut i: usize = 0;
    while i < ps.len()
        invariant
            i <= ps.len(),
            texts(errors@) == texts(old(errors)@) + patterns_errors(name@, ps@.take(i as int)),
        decreases ps.len() - i,
    {
        validate_file_filter_pattern(ps[i].as_str(), name, errors);
        proof {
            let t = ps@.take(i + 1);
            assert(t.drop_last() =~= ps@.take(i as int));
            assert(texts(errors@) =~= texts(old(errors)@) + patterns_errors(name@, t));
        }
        i = i + 1;
    }
    proof {
        assert(ps@.take(ps.len() as int) =~= ps@);
    }
}

/// Appends the problems of a list of file filters.
fn push_filters_errors(errors: &mut Vec<String>, name: &str, fs: &Vec<FileFilter>)
    ensures
        texts(final(errors)@) == texts(old(errors)@) + filters_errors(name@, fs@),
{
    let mut i: usize = 0;
    while i < fs.len()
        invariant
            i <= fs.len(),
            texts(errors@) == texts(old(errors)@) + filters_errors(name@, fs@.take(i as int)),
        decreases fs.len() - i,
    {
        let f = &fs[i];
        let ghost before = texts(errors@);
        if f.patterns.len() == 0 {
            push_text(errors, param_msg(name, "fileFilter patterns must not be empty."));
        }
        push_patterns_errors(errors, name, &f.patterns);
        proof {
            let t = fs@.take(i + 1);
            assert(t.drop_last() =~= fs@.take(i as int));
            assert(texts(errors@) =~= texts(old(errors)@) + filters_errors(name@, t));
        }
        i = i + 1;
    }
    proof {
        assert(fs@.take(fs.len() as int) =~= fs@);
    }
}

/// Appends the problems of a PATH parameter's file filters.
fn push_file_filters_section(errors: &mut Vec<String>, name: &str, u: &PathUserInterface, control: &str)
    ensures
        texts(final(errors)@) == texts(old(errors)@) + file_filters_section(name@, *u, control@),
{
    let chooser = text_eq(control, "CHOOSE_INPUT_FILE") || text_eq(control, "CHOOSE_OUTPUT_FILE");
    if let Some(fs) = &u.file_filters {
        if !chooser {
            push_text(errors, param_msg(name, "fileFilters only valid with file chooser controls."));
        }
        if fs.len() > MAX_FILE_FILTERS {
            push_text(errors, param_msg(name, "fileFilters exceeds 20 elements."));
        }
        push_filters_errors(errors, name, fs);
    }
    let ghost mid = texts(errors@);
    if let Some(f) = &u.file_filter_default {
        if !chooser {
            push_text(errors, param_msg(name, "fileFilterDefault only valid with file chooser controls."));
        }
        push_patterns_errors(errors, name, &f.patterns);
    }
    assert(texts(errors@) =~= texts(old(errors)@) + file_filters_section(name@, *u, control@));
}

impl JobPathParameterDefinition {
    /// The first constraint that the value `v` breaks, if any.
    pub open spec fn value_error(&self, v: Seq<char>) -> Option<Seq<char>> {
        text_value_error(self.name.0@, self.min_length, self.max_length, opt_texts(self.allowed_values), v)
    }

    /// The object type, a directory when none is given.
    pub open spec fn object(&self) -> ObjectType {
        match self.object_type {
            Some(o) => o,
            None => ObjectType::Directory,
        }
    }

    /// The control a user interface names, or the one it defaults to: a
    /// drop-down list with allowed values, else a file chooser (output when
    /// data flows out) for a file, else a directory chooser.
    pub open spec fn control_name(&self, u: PathUserInterface) -> Seq<char> {
        match u.control {
            Some(c) => c@,
            None => if self.allowed_values is Some {
                "DROPDOWN_LIST"@
            } else if self.object() == ObjectType::File {
                if self.data_flow == Some(DataFlow::Out) { "CHOOSE_OUTPUT_FILE"@ } else { "CHOOSE_INPUT_FILE"@ }
            } else {
                "CHOOSE_DIRECTORY"@
            },
        }
    }

    /// The problems of this definition, in the order they are reported.
    pub open spec fn definition_errors(&self, limits: EffectiveLimits) -> Seq<Seq<char>> {
        let name = self.name.0@;
        let allowed = opt_texts(self.allowed_values);
        let limit = limits.max_job_param_string_len as nat;
        allowed_section(name, allowed, limit, self.min_length, self.max_length, path_lt(), path_gt())
            + length_bounds_section(name, self.min_length, self.max_length)
            + default_section(name, opt_text(self.default), allowed, limit, self.min_length,
                self.max_length, path_lt(), path_gt())
            + match self.user_interface {
                None => seq![],
                Some(u) => labels_errors(name, u.label, u.group_label)
                    + path_control_errors(name, self.control_name(u), allowed is Some, self.object())
                    + file_filters_section(name, u, self.control_name(u)),
            }
    }

    /// Checks a value: its length in characters against `minLength` and
    /// `maxLength`, then membership in `allowedValues`.
    pub fn check_constraints(&self, value: &str) -> (r: Result<(), String>)
        ensures
            r is Ok <==> self.value_error(value@) is None,
            r matches Err(m) ==> self.value_error(value@) == Some(m@),
    {
        check_text_value(self.name.as_str(), self.min_length, self.max_length, &self.allowed_values, value)
    }

    /// Checks the definition: its allowed values, length bounds, default and
    /// user interface with its file filters. Every problem found is reported.
        pub fn validate_definition(&self, limits: &EffectiveLimits) -> (r: Result<(), Vec<String>>)
        ensures
            r is Ok <==> self.definition_errors(*limits).len() == 0,
            r matches Err(v) ==> texts(v@) == self.definition_errors(*limits),
    {
        let name = self.name.as_str();
        let limit = limits.max_job_param_string_len;
        let object = match self.object_type {
            Some(o) => o,
            None => ObjectType::Directory,
        };
        let mut errors: Vec<String> = Vec::new();
        push_allowed_section(&mut errors, name, &self.allowed_values, limit, self.min_length,
            self.max_length, " < minLength ", " > maxLength ");
        push_length_bounds(&mut errors, name, self.min_length, self.max_length);
        push_default_section(&mut errors, name, &self.default, &self.allowed_values, limit,
            self.min_length, self.max_length, " < minLength ", " > maxLength ");
        let ghost mid = texts(errors@);
        if let Some(ui) = &self.user_interface {
            push_labels(&mut errors, name, &ui.label, &ui.group_label);
            let allowed_some = self.allowed_values.is_some();
            let out_flow = match self.data_flow {
                Some(DataFlow::Out) => true,
                _ => false,
            };
            let control: &str = match &ui.control {
                Some(c) => c.as_str(),
                None => if allowed_some {
                    "DROPDOWN_LIST"
                } else if object == ObjectType::File {
                    if out_flow { "CHOOSE_OUTPUT_FILE" } else { "CHOOSE_INPUT_FILE" }
                } else {
                    "CHOOSE_DIRECTORY"
                },
            };
            push_path_control_errors(&mut errors, name, control, allowed_some, object);
            push_file_filters_section(&mut errors, name, ui, control);
        }
        proof {
            assert(texts(errors@) =~= self.definition_errors(*limits));
        }
        if errors.len() == 0 {
            Ok(())
        } else {
            Err(errors)
        }
    }
}

// ----- laws -----

/// The middle part of an empty concatenation is empty.
proof fn lemma_third_empty(a: Seq<Seq<char>>, b: Seq<Seq<char>>, c: Seq<Seq<char>>)
    requires
        (a + b + c).len() == 0,
    ensures
        b.len() == 0,
{
}

/// Law: when a STRING definition passes its own check, its default (if
/// any) meets the constraints that values are checked against.
#[verifier::spinoff_prover]
pub proof fn law_string_default_meets_constraints(d: JobStringParameterDefinition, limits: EffectiveLimits)
    requires
        d.definition_errors(limits).len() == 0,
        d.default is Some,
    ensures
        d.value_error(d.default.unwrap()@) is None,
{
    let name = d.name.0@;
    let allowed = opt_texts(d.allowed_values);
    let limit = limits.max_job_param_string_len as nat;
    let ds = default_section(name, opt_text(d.default), allowed, limit, d.min_length, d.max_length,
        string_lt(), string_gt());
    lemma_third_empty(
        allowed_section(name, allowed, limit, d.min_length, d.max_length, string_lt(), string_gt())
            + length_bounds_section(name, d.min_length, d.max_length)
            + when(d.max_length == Some(0usize), param_message(name, "maxLength must be > 0."@)),
        ds, string_ui_errors(name, d.user_interface, allowed));
    assert(ds.len() == 0);
}

/// Law: when a PATH definition passes its own check, its default (if any)
/// meets the constraints that values are checked against.
#[verifier::spinoff_prover]
pub proof fn law_path_default_meets_constraints(d: JobPathParameterDefinition, limits: EffectiveLimits)
    requires
        d.definition_errors(limits).len() == 0,
        d.default is Some,
    ensures
        d.value_error(d.default.unwrap()@) is None,
{
    let name = d.name.0@;
    let allowed = opt_texts(d.allowed_values);
    let limit = limits.max_job_param_string_len as nat;
    let ds = default_section(name, opt_text(d.default), allowed, limit, d.min_length, d.max_length,
        path_lt(), path_gt());
    lemma_third_empty(
        allowed_section(name, allowed, limit, d.min_length, d.max_length, path_lt(), path_gt())
            + length_bounds_section(name, d.min_length, d.max_length),
        ds, match d.user_interface {
            None => seq![],
            Some(u) => labels_errors(name, u.label, u.group_label)
                + path_control_errors(name, d.control_name(u), allowed is Some, d.object())
                + file_filters_section(name, u, d.control_name(u)),
        });
    assert(ds.len() == 0);
}

/// Law: when an INT definition passes its own check, its default (if any)
/// lies within `minValue` and `maxValue` and among the allowed values, and
/// its decimal text passes `check_constraints`.
pub proof fn law_int_default_meets_constraints(d: JobIntParameterDefinition)
    requires
        d.definition_errors().len() == 0,
        d.default is Some,
    ensures
        d.value_error(int_text(d.default.unwrap().0 as int)) is None,
        d.min_value matches Some(lo) ==> lo.0 <= d.default.unwrap().0,
        d.max_value matches Some(hi) ==> d.default.unwrap().0 <= hi.0,
        opt_flex_values(d.allowed_values) matches Some(a) ==> a.contains(d.default.unwrap().0),
{
    let x = d.default.unwrap().0;
    crate::text::law_i64_text_parses_back(x);
    let part = opt_seq(d.value_error(int_text(x as int)));
    assert(part.len() == 0);
}


/// Law: a STRING value is refused exactly when it is shorter than
/// `minLength`, longer than `maxLength`, or not among `allowedValues`; the
/// first of these that holds gives the message.
pub proof fn law_string_value_bounds(d: JobStringParameterDefinition, v: Seq<char>)
    ensures
        d.min_length matches Some(lo) && v.len() < lo ==> d.value_error(v) == Some(param_message(d.name.0@,
            "value length "@ + nat_text(v.len()) + " is less than minimum "@ + nat_text(d.min_length.unwrap() as nat))),
        d.max_length matches Some(hi) && v.len() > hi && !(d.min_length matches Some(lo) && v.len() < lo)
            ==> d.value_error(v) == Some(param_message(d.name.0@,
                "value length "@ + nat_text(v.len()) + " exceeds maximum "@ + nat_text(d.max_length.unwrap() as nat))),
        d.max_length matches Some(hi) && v.len() > hi ==> d.value_error(v) is Some,
        !(d.min_length matches Some(lo) && v.len() < lo) && !(d.max_length matches Some(hi) && v.len() > hi)
            && (d.allowed_values matches Some(a) ==> texts(a@).contains(v))
            ==> d.value_error(v) is None,
{
}

/// Law: a PATH value is refused exactly when it is shorter than
/// `minLength`, longer than `maxLength`, or not among `allowedValues`; the
/// first of these that holds gives the message.
pub proof fn law_path_value_bounds(d: JobPathParameterDefinition, v: Seq<char>)
    ensures
        d.min_length matches Some(lo) && v.len() < lo ==> d.value_error(v) == Some(param_message(d.name.0@,
            "value length "@ + nat_text(v.len()) + " is less than minimum "@ + nat_text(d.min_length.unwrap() as nat))),
        d.max_length matches Some(hi) && v.len() > hi && !(d.min_length matches Some(lo) && v.len() < lo)
            ==> d.value_error(v) == Some(param_message(d.name.0@,
                "value length "@ + nat_text(v.len()) + " exceeds maximum "@ + nat_text(d.max_length.unwrap() as nat))),
        d.max_length matches Some(hi) && v.len() > hi ==> d.value_error(v) is Some,
        !(d.min_length matches Some(lo) && v.len() < lo) && !(d.max_length matches Some(hi) && v.len() > hi)
            && (d.allowed_values matches Some(a) ==> texts(a@).contains(v))
            ==> d.value_error(v) is None,
{
}

/// Law: a STRING CHECK_BOX whose two allowed values are, in lower case,
/// true/false, false/true, yes/no, no/yes, on/off, off/on, 1/0 or 0/1 draws
/// no control error; with two values that are none of these pairs it draws
/// the boolean-pair error, and with another number of values the count
/// error.
pub proof fn law_check_box_pairs(name: Seq<char>, a: Seq<Seq<char>>)
    ensures
        a.len() == 2 && ({
            let x = lowercase_of(a[0]);
            let y = lowercase_of(a[1]);
            ||| x == "true"@ && y == "false"@
            ||| x == "false"@ && y == "true"@
            ||| x == "yes"@ && y == "no"@
            ||| x == "no"@ && y == "yes"@
            ||| x == "on"@ && y == "off"@
            ||| x == "off"@ && y == "on"@
            ||| x == "1"@ && y == "0"@
            ||| x == "0"@ && y == "1"@
        }) ==> string_control_errors(name, "CHECK_BOX"@, Some(a)) == Seq::<Seq<char>>::empty(),
        a.len() == 2 && !({
            let x = lowercase_of(a[0]);
            let y = lowercase_of(a[1]);
            ||| x == "true"@ && y == "false"@
            ||| x == "false"@ && y == "true"@
            ||| x == "yes"@ && y == "no"@
            ||| x == "no"@ && y == "yes"@
            ||| x == "on"@ && y == "off"@
            ||| x == "off"@ && y == "on"@
            ||| x == "1"@ && y == "0"@
            ||| x == "0"@ && y == "1"@
        }) ==> string_control_errors(name, "CHECK_BOX"@, Some(a))
            == seq![param_message(name, "CHECK_BOX allowedValues must be a valid boolean pair."@)],
        a.len() != 2 ==> string_control_errors(name, "CHECK_BOX"@, Some(a))
            == seq![param_message(name, "CHECK_BOX requires exactly 2 allowedValues."@)],
{
    reveal_strlit("CHECK_BOX");
    reveal_strlit("LINE_EDIT");
    reveal_strlit("MULTILINE_EDIT");
    reveal_strlit("DROPDOWN_LIST");
    assert("CHECK_BOX"@ != "LINE_EDIT"@) by { assert("CHECK_BOX"@[0] != "LINE_EDIT"@[0]); }
    assert("CHECK_BOX"@ != "MULTILINE_EDIT"@) by { assert("CHECK_BOX"@[0] != "MULTILINE_EDIT"@[0]); }
    assert("CHECK_BOX"@ != "DROPDOWN_LIST"@) by { assert("CHECK_BOX"@[0] != "DROPDOWN_LIST"@[0]); }
    if a.len() == 2 {
        let x = lowercase_of(a[0]);
        let y = lowercase_of(a[1]);
        if boolean_pair(x, y) {
            assert(string_control_errors(name, "CHECK_BOX"@, Some(a)) =~= Seq::<Seq<char>>::empty());
        } else {
            assert(string_control_errors(name, "CHECK_BOX"@, Some(a))
                =~= seq![param_message(name, "CHECK_BOX allowedValues must be a valid boolean pair."@)]);
        }
    }
}


/// Law: an INT value is refused when it is not a decimal integer, is below
/// `minValue`, is above `maxValue`, or is not among `allowedValues`, in that
/// order, and accepted otherwise.
pub proof fn law_int_value_checks(d: JobIntParameterDefinition, v: Seq<char>)
    ensures
        i64_parse(v) is None ==> d.value_error(v)
            == Some(param_message(d.name.0@, "value '"@ + v + "' is not a valid integer"@)),
        i64_parse(v) is Some && d.min_value is Some && i64_parse(v).unwrap() < d.min_value.unwrap().0
            ==> d.value_error(v) == Some(param_message(d.name.0@, "value "@ + int_text(i64_parse(v).unwrap() as int)
                + " is less than minimum "@ + int_text(d.min_value.unwrap().0 as int))),
        i64_parse(v) is Some && !(d.min_value is Some && i64_parse(v).unwrap() < d.min_value.unwrap().0)
            && d.max_value is Some && i64_parse(v).unwrap() > d.max_value.unwrap().0
            ==> d.value_error(v) == Some(param_message(d.name.0@, "value "@ + int_text(i64_parse(v).unwrap() as int)
                + " exceeds maximum "@ + int_text(d.max_value.unwrap().0 as int))),
        i64_parse(v) is Some && !(d.min_value is Some && i64_parse(v).unwrap() < d.min_value.unwrap().0)
            && !(d.max_value is Some && i64_parse(v).unwrap() > d.max_value.unwrap().0)
            && (d.allowed_values.0 is Some ==> exists|j: int| 0 <= j < d.allowed_values.0.unwrap()@.len()
                && #[trigger] d.allowed_values.0.unwrap()@[j].0 == i64_parse(v).unwrap())
            ==> d.value_error(v) is None,
{
    if i64_parse(v) is Some && d.allowed_values.0 is Some && exists|j: int| 0 <= j < d.allowed_values.0.unwrap()@.len()
        && #[trigger] d.allowed_values.0.unwrap()@[j].0 == i64_parse(v).unwrap() {
        let a = d.allowed_values.0.unwrap()@;
        let j = choose|j: int| 0 <= j < a.len() && #[trigger] a[j].0 == i64_parse(v).unwrap();
        assert(flex_values(a)[j] == a[j].0);
        assert(flex_values(a).contains(i64_parse(v).unwrap()));
    }
}

/// Law: a user-interface label is accepted when it has 1 to 64 characters
/// and no control character; an empty one draws the emptiness error first,
/// and one longer than 64 characters draws the length error.
pub proof fn law_ui_label_rules(l: Seq<char>, field: Seq<char>, param: Seq<char>)
    ensures
        ui_label_errors(None, field, param) == Seq::<Seq<char>>::empty(),
        1 <= l.len() <= 64 && (forall|i: int| 0 <= i < l.len() ==>
            !((#[trigger] l[i] as u32) <= 0x1f || (0x7f <= (l[i] as u32) && (l[i] as u32) <= 0x9f)))
            ==> ui_label_errors(Some(l), field, param) == Seq::<Seq<char>>::empty(),
        l.len() == 0 ==> ui_label_errors(Some(l), field, param) == seq![param_message(param, field + " must not be empty."@)],
        l.len() > 64 ==> ui_label_errors(Some(l), field, param).contains(param_message(param, field + " exceeds 64 characters."@)),
{
    if 1 <= l.len() <= 64 && (forall|i: int| 0 <= i < l.len() ==>
        !((#[trigger] l[i] as u32) <= 0x1f || (0x7f <= (l[i] as u32) && (l[i] as u32) <= 0x9f))) {
        assert(!has_control(l)) by {
            if has_control(l) {
                let i = choose|i: int| 0 <= i < l.len() && #[trigger] control_char(l[i]);
            }
        }
        assert(ui_label_errors(Some(l), field, param) =~= Seq::<Seq<char>>::empty());
    }
    if l.len() == 0 {
        assert(!has_control(l));
        assert(ui_label_errors(Some(l), field, param) =~= seq![param_message(param, field + " must not be empty."@)]);
    }
    if l.len() > 64 {
        let e = ui_label_errors(Some(l), field, param);
        assert(e[0] == param_message(param, field + " exceeds 64 characters."@));
    }
}

/// Law: the STRING controls: LINE_EDIT and MULTILINE_EDIT refuse allowed
/// values, DROPDOWN_LIST and CHECK_BOX require them, HIDDEN takes either.
pub proof fn law_string_controls(name: Seq<char>, a: Seq<Seq<char>>)
    ensures
        string_control_errors(name, "LINE_EDIT"@, None) == Seq::<Seq<char>>::empty(),
        string_control_errors(name, "MULTILINE_EDIT"@, None) == Seq::<Seq<char>>::empty(),
        string_control_errors(name, "LINE_EDIT"@, Some(a))
            == seq![param_message(name, "control 'LINE_EDIT' cannot be used with allowedValues."@)],
        string_control_errors(name, "MULTILINE_EDIT"@, Some(a))
            == seq![param_message(name, "control 'MULTILINE_EDIT' cannot be used with allowedValues."@)],
        string_control_errors(name, "DROPDOWN_LIST"@, Some(a)) == Seq::<Seq<char>>::empty(),
        string_control_errors(name, "DROPDOWN_LIST"@, None) == seq![param_message(name, "DROPDOWN_LIST requires allowedValues."@)],
        string_control_errors(name, "CHECK_BOX"@, None) == seq![param_message(name, "CHECK_BOX requires allowedValues."@)],
        string_control_errors(name, "HIDDEN"@, None) == Seq::<Seq<char>>::empty(),
        string_control_errors(name, "HIDDEN"@, Some(a)) == Seq::<Seq<char>>::empty(),
{
    reveal_strlit("LINE_EDIT");
    reveal_strlit("MULTILINE_EDIT");
    reveal_strlit("DROPDOWN_LIST");
    reveal_strlit("CHECK_BOX");
    reveal_strlit("HIDDEN");
    reveal_strlit("control '");
    reveal_strlit("' cannot be used with allowedValues.");
    reveal_strlit("control 'LINE_EDIT' cannot be used with allowedValues.");
    reveal_strlit("control 'MULTILINE_EDIT' cannot be used with allowedValues.");
    assert("LINE_EDIT"@ != "MULTILINE_EDIT"@) by { assert("LINE_EDIT"@[0] != "MULTILINE_EDIT"@[0]); }
    assert("DROPDOWN_LIST"@ != "LINE_EDIT"@) by { assert("DROPDOWN_LIST"@[0] != "LINE_EDIT"@[0]); }
    assert("DROPDOWN_LIST"@ != "MULTILINE_EDIT"@) by { assert("DROPDOWN_LIST"@[0] != "MULTILINE_EDIT"@[0]); }
    assert("CHECK_BOX"@ != "LINE_EDIT"@) by { assert("CHECK_BOX"@[0] != "LINE_EDIT"@[0]); }
    assert("CHECK_BOX"@ != "MULTILINE_EDIT"@) by { assert("CHECK_BOX"@[0] != "MULTILINE_EDIT"@[0]); }
    assert("CHECK_BOX"@ != "DROPDOWN_LIST"@) by { assert("CHECK_BOX"@[0] != "DROPDOWN_LIST"@[0]); }
    assert("HIDDEN"@ != "LINE_EDIT"@) by { assert("HIDDEN"@[0] != "LINE_EDIT"@[0]); }
    assert("HIDDEN"@ != "MULTILINE_EDIT"@) by { assert("HIDDEN"@[0] != "MULTILINE_EDIT"@[0]); }
    assert("HIDDEN"@ != "DROPDOWN_LIST"@) by { assert("HIDDEN"@[0] != "DROPDOWN_LIST"@[0]); }
    assert("HIDDEN"@ != "CHECK_BOX"@) by { assert("HIDDEN"@[0] != "CHECK_BOX"@[0]); }
    assert("control '"@ + "LINE_EDIT"@ + "' cannot be used with allowedValues."@
        =~= "control 'LINE_EDIT' cannot be used with allowedValues."@);
    assert("control '"@ + "MULTILINE_EDIT"@ + "' cannot be used with allowedValues."@
        =~= "control 'MULTILINE_EDIT' cannot be used with allowedValues."@);
    assert(string_control_errors(name, "LINE_EDIT"@, None) =~= Seq::<Seq<char>>::empty());
    assert(string_control_errors(name, "MULTILINE_EDIT"@, None) =~= Seq::<Seq<char>>::empty());
    assert(string_control_errors(name, "DROPDOWN_LIST"@, Some(a)) =~= Seq::<Seq<char>>::empty());
}

/// Law: the INT controls: SPIN_BOX refuses allowed values, DROPDOWN_LIST
/// requires them and refuses a step, HIDDEN refuses a step.
pub proof fn law_int_controls(name: Seq<char>, delta: Option<i64>)
    ensures
        int_control_errors(name, "SPIN_BOX"@, false, delta) == Seq::<Seq<char>>::empty(),
        int_control_errors(name, "SPIN_BOX"@, true, delta) == seq![param_message(name, "SPIN_BOX cannot be used with allowedValues."@)],
        int_control_errors(name, "DROPDOWN_LIST"@, true, None) == Seq::<Seq<char>>::empty(),
        int_control_errors(name, "DROPDOWN_LIST"@, false, None) == seq![param_message(name, "DROPDOWN_LIST requires allowedValues."@)],
        delta is Some ==> int_control_errors(name, "DROPDOWN_LIST"@, true, delta)
            == seq![param_message(name, "singleStepDelta is only valid with SPIN_BOX."@)],
        int_control_errors(name, "HIDDEN"@, true, None) == Seq::<Seq<char>>::empty(),
        delta is Some ==> int_control_errors(name, "HIDDEN"@, false, delta)
            == seq![param_message(name, "singleStepDelta is not valid with HIDDEN."@)],
{
    reveal_strlit("SPIN_BOX");
    reveal_strlit("DROPDOWN_LIST");
    reveal_strlit("HIDDEN");
    assert("DROPDOWN_LIST"@ != "SPIN_BOX"@) by { assert("DROPDOWN_LIST"@[0] != "SPIN_BOX"@[0]); }
    assert("HIDDEN"@ != "SPIN_BOX"@) by { assert("HIDDEN"@[0] != "SPIN_BOX"@[0]); }
    assert("HIDDEN"@ != "DROPDOWN_LIST"@) by { assert("HIDDEN"@[0] != "DROPDOWN_LIST"@[0]); }
    assert(int_control_errors(name, "SPIN_BOX"@, false, delta) =~= Seq::<Seq<char>>::empty());
    assert(int_control_errors(name, "DROPDOWN_LIST"@, true, None) =~= Seq::<Seq<char>>::empty());
    assert(int_control_errors(name, "HIDDEN"@, true, None) =~= Seq::<Seq<char>>::empty());
    if delta is Some {
        assert(int_control_errors(name, "DROPDOWN_LIST"@, true, delta)
            =~= seq![param_message(name, "singleStepDelta is only valid with SPIN_BOX."@)]);
    }
}

/// Law: the PATH controls: the file choosers need objectType FILE and
/// CHOOSE_DIRECTORY needs DIRECTORY, neither with allowed values;
/// DROPDOWN_LIST requires allowed values; HIDDEN takes anything.
pub proof fn law_path_controls(name: Seq<char>, allowed_some: bool, object: ObjectType)
    ensures
        path_control_errors(name, "CHOOSE_INPUT_FILE"@, false, ObjectType::File) == Seq::<Seq<char>>::empty(),
        path_control_errors(name, "CHOOSE_OUTPUT_FILE"@, false, ObjectType::File) == Seq::<Seq<char>>::empty(),
        path_control_errors(name, "CHOOSE_INPUT_FILE"@, false, ObjectType::Directory)
            == seq![param_message(name, "CHOOSE_INPUT_FILE"@ + " requires objectType FILE."@)],
        path_control_errors(name, "CHOOSE_DIRECTORY"@, false, ObjectType::Directory) == Seq::<Seq<char>>::empty(),
        path_control_errors(name, "CHOOSE_DIRECTORY"@, false, ObjectType::File)
            == seq![param_message(name, "CHOOSE_DIRECTORY requires objectType DIRECTORY."@)],
        path_control_errors(name, "CHOOSE_DIRECTORY"@, true, ObjectType::Directory)
            == seq![param_message(name, "CHOOSE_DIRECTORY cannot be used with allowedValues."@)],
        path_control_errors(name, "DROPDOWN_LIST"@, true, object) == Seq::<Seq<char>>::empty(),
        path_control_errors(name, "DROPDOWN_LIST"@, false, object) == seq![param_message(name, "DROPDOWN_LIST requires allowedValues."@)],
        path_control_errors(name, "HIDDEN"@, allowed_some, object) == Seq::<Seq<char>>::empty(),
{
    reveal_strlit("CHOOSE_INPUT_FILE");
    reveal_strlit("CHOOSE_OUTPUT_FILE");
    reveal_strlit("CHOOSE_DIRECTORY");
    reveal_strlit("DROPDOWN_LIST");
    reveal_strlit("HIDDEN");
    assert("CHOOSE_DIRECTORY"@ != "CHOOSE_INPUT_FILE"@) by { assert("CHOOSE_DIRECTORY"@[7] != "CHOOSE_INPUT_FILE"@[7]); }
    assert("CHOOSE_DIRECTORY"@ != "CHOOSE_OUTPUT_FILE"@) by { assert("CHOOSE_DIRECTORY"@[7] != "CHOOSE_OUTPUT_FILE"@[7]); }
    assert("DROPDOWN_LIST"@ != "CHOOSE_INPUT_FILE"@) by { assert("DROPDOWN_LIST"@[0] != "CHOOSE_INPUT_FILE"@[0]); }
    assert("DROPDOWN_LIST"@ != "CHOOSE_OUTPUT_FILE"@) by { assert("DROPDOWN_LIST"@[0] != "CHOOSE_OUTPUT_FILE"@[0]); }
    assert("DROPDOWN_LIST"@ != "CHOOSE_DIRECTORY"@) by { assert("DROPDOWN_LIST"@[0] != "CHOOSE_DIRECTORY"@[0]); }
    assert("HIDDEN"@ != "CHOOSE_INPUT_FILE"@) by { assert("HIDDEN"@[0] != "CHOOSE_INPUT_FILE"@[0]); }
    assert("HIDDEN"@ != "CHOOSE_OUTPUT_FILE"@) by { assert("HIDDEN"@[0] != "CHOOSE_OUTPUT_FILE"@[0]); }
    assert("HIDDEN"@ != "CHOOSE_DIRECTORY"@) by { assert("HIDDEN"@[0] != "CHOOSE_DIRECTORY"@[0]); }
    assert("HIDDEN"@ != "DROPDOWN_LIST"@) by { assert("HIDDEN"@[0] != "DROPDOWN_LIST"@[0]); }
    assert(path_control_errors(name, "CHOOSE_INPUT_FILE"@, false, ObjectType::File) =~= Seq::<Seq<char>>::empty());
    assert(path_control_errors(name, "CHOOSE_OUTPUT_FILE"@, false, ObjectType::File) =~= Seq::<Seq<char>>::empty());
    assert(path_control_errors(name, "CHOOSE_INPUT_FILE"@, false, ObjectType::Directory)
        =~= seq![param_message(name, "CHOOSE_INPUT_FILE"@ + " requires objectType FILE."@)]);
    assert(path_control_errors(name, "CHOOSE_DIRECTORY"@, false, ObjectType::Directory) =~= Seq::<Seq<char>>::empty());
    assert(path_control_errors(name, "CHOOSE_DIRECTORY"@, false, ObjectType::File)
        =~= seq![param_message(name, "CHOOSE_DIRECTORY requires objectType DIRECTORY."@)]);
    assert(path_control_errors(name, "CHOOSE_DIRECTORY"@, true, ObjectType::Directory)
        =~= seq![param_message(name, "CHOOSE_DIRECTORY cannot be used with allowedValues."@)]);
    assert(path_control_errors(name, "DROPDOWN_LIST"@, true, object) =~= Seq::<Seq<char>>::empty());
}

} // verus!

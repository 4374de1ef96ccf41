//! Validation of `let` bindings: each binding is `name = expression`, the
//! names are checked, and each expression is type-checked against the
//! symbols bound so far.

use vstd::prelude::*;
use crate::error::{path_index, PathElement, ValidationError, ValidationErrors};
use crate::parameters::texts;
use crate::resolved::{trim_front, trim_text, trimmed};
use crate::text::{char_count, is_whitespace, push_char, str_chars};
use openjd_expr::error::ExpressionError;
use openjd_expr::eval::ParsedExpression;
use openjd_expr::function_library::FunctionLibrary;
use openjd_expr::profile::ExprProfile;
use openjd_expr::symbol_table::SymbolTable;
use openjd_expr::types::ExprType;
use openjd_expr::value::ExprValue;

verus! {

/// Most bindings one list may hold.
pub const MAX_LET_BINDINGS: usize = 50;

/// Longest name of a binding, in characters.
pub const MAX_LET_IDENTIFIER_LEN: usize = 512;

/// The parts of a binding that has a name and an expression.
#[derive(Debug, Clone)]
pub struct BindingParts {
    /// The trimmed text before the first `=`.
    pub name: String,
    /// The trimmed text after the first `=`.
    pub expr: String,
    /// The binding up to where the expression starts.
    pub prefix: String,
}

/// What parsing and evaluating a binding's expression gave.
#[derive(Debug, Clone)]
pub enum ExprOutcome {
    /// It parsed and evaluated; `self_reference` says whether it reads the
    /// name being bound.
    Evaluated { self_reference: bool },
    /// It parsed but did not evaluate, with the evaluation error's message.
    EvalFailed { self_reference: bool, message: String },
    /// It did not parse, with the parse error's message.
    ParseFailed { message: String },
}

// ----- the model -----

/// `p` is the position of the first `=` of `b`.
pub open spec fn is_first_eq(b: Seq<char>, p: int) -> bool {
    &&& 0 <= p < b.len()
    &&& b[p] == '='
    &&& forall|j: int| 0 <= j < p ==> b[j] != '='
}

/// The position of the first `=` of `b` (meaningful where there is one).
pub open spec fn first_eq(b: Seq<char>) -> int {
    choose|p: int| is_first_eq(b, p)
}

/// The name of a binding: the trimmed text before its first `=`.
pub open spec fn binding_name(b: Seq<char>) -> Seq<char> {
    trimmed(b.take(first_eq(b)))
}

/// The expression of a binding: the trimmed text after its first `=`.
pub open spec fn binding_expr(b: Seq<char>) -> Seq<char> {
    trimmed(b.skip(first_eq(b) + 1))
}

/// The binding up to where its expression starts: through the `=` and the
/// whitespace that follows it.
pub open spec fn binding_prefix(b: Seq<char>) -> Seq<char> {
    let rest = b.skip(first_eq(b) + 1);
    b.take(first_eq(b) + 1 + (rest.len() - trim_front(rest).len()))
}

/// Whether a binding has a `=`, a name and an expression.
pub open spec fn well_formed(b: Seq<char>) -> bool {
    &&& b.contains('=')
    &&& binding_name(b).len() > 0
    &&& binding_expr(b).len() > 0
}

/// The names of the well-formed bindings, in order.
pub open spec fn bound_names(bs: Seq<Seq<char>>) -> Seq<Seq<char>>
    decreases bs.len(),
{
    if bs.len() == 0 {
        seq![]
    } else if well_formed(bs.last()) {
        bound_names(bs.drop_last()).push(binding_name(bs.last()))
    } else {
        bound_names(bs.drop_last())
    }
}

/// An ASCII lower-case letter.
pub open spec fn is_ascii_lower(c: char) -> bool {
    'a' <= c && c <= 'z'
}

/// A character a name may hold: an ASCII letter or digit, or `_`.
pub open spec fn is_name_char(c: char) -> bool {
    ('a' <= c && c <= 'z') || ('A' <= c && c <= 'Z') || ('0' <= c && c <= '9') || c == '_'
}

/// `x` between `a` and `b`.
pub open spec fn quoted(a: Seq<char>, x: Seq<char>, b: Seq<char>) -> Seq<char> {
    a + x + b
}

/// The message `m` where `c` holds, else none.
pub open spec fn when(c: bool, m: Seq<char>) -> Seq<Seq<char>> {
    if c { seq![m] } else { seq![] }
}

/// The errors on a name, given the names bound before it in the same list
/// and those of the enclosing scope.
pub open spec fn name_messages(name: Seq<char>, seen: Seq<Seq<char>>, enclosing: Seq<Seq<char>>) -> Seq<Seq<char>> {
    when(!(is_ascii_lower(name[0]) || name[0] == '_'),
        quoted("name '"@, name, "' must start with lowercase letter or underscore."@))
    + when(!(forall|k: int| 0 <= k < name.len() ==> is_name_char(#[trigger] name[k])),
        quoted("name '"@, name, "' contains invalid characters."@))
    + when(name.len() > MAX_LET_IDENTIFIER_LEN, quoted("name '"@, name, "' exceeds 512 characters."@))
    + when(seen.contains(name), quoted("duplicate name '"@, name, "'."@))
    + when(enclosing.contains(name), quoted("'"@, name, "' shadows enclosing scope."@))
}

/// The errors on the form of a binding, before its expression is looked at.
pub open spec fn syntax_messages(b: Seq<char>, seen: Seq<Seq<char>>, enclosing: Seq<Seq<char>>) -> Seq<Seq<char>> {
    if !b.contains('=') {
        seq![quoted("missing '=' in '"@, b, "'."@)]
    } else if binding_name(b).len() == 0 {
        seq!["has empty name."@]
    } else if binding_expr(b).len() == 0 {
        seq![quoted("binding '"@, binding_name(b), "' has no expression after '='."@)]
    } else {
        name_messages(binding_name(b), seen, enclosing)
    }
}

/// `Invalid expression in let binding '<name>': <message>`.
pub open spec fn invalid_message(name: Seq<char>, m: Seq<char>) -> Seq<char> {
    "Invalid expression in let binding '"@ + name + "': "@ + m
}

/// The errors that an expression's outcome gives a binding named `name`.
pub open spec fn outcome_messages(name: Seq<char>, o: ExprOutcome) -> Seq<Seq<char>> {
    match o {
        ExprOutcome::Evaluated { self_reference } =>
            when(self_reference, quoted("'"@, name, "' references itself."@)),
        ExprOutcome::EvalFailed { self_reference, message } =>
            when(self_reference, quoted("'"@, name, "' references itself."@))
            + seq![invalid_message(name, message@)],
        ExprOutcome::ParseFailed { message } => seq![invalid_message(name, message@)],
    }
}

/// The errors of one binding: those on its form, then, where it is well
/// formed, those that its expression's outcome `o` gives.
pub open spec fn binding_messages(b: Seq<char>, seen: Seq<Seq<char>>, enclosing: Seq<Seq<char>>, o: ExprOutcome) -> Seq<Seq<char>> {
    syntax_messages(b, seen, enclosing) + if well_formed(b) {
        outcome_messages(binding_name(b), o)
    } else {
        seq![]
    }
}

/// Each message, at `path`.
pub open spec fn located(path: Seq<PathElement>, msgs: Seq<Seq<char>>) -> Seq<(Seq<PathElement>, Seq<char>)> {
    msgs.map_values(|m: Seq<char>| (path, m))
}

/// The errors of the first `n` bindings, each at its index under `path`;
/// `outs[i]` is the outcome of the expression of binding `i`.
pub open spec fn bindings_errors_upto(
    bs: Seq<Seq<char>>,
    path: Seq<PathElement>,
    enclosing: Seq<Seq<char>>,
    outs: Seq<ExprOutcome>,
    n: nat,
) -> Seq<(Seq<PathElement>, Seq<char>)>
    decreases n,
{
    if n == 0 {
        seq![]
    } else {
        let i = (n - 1) as nat;
        bindings_errors_upto(bs, path, enclosing, outs, i)
            + located(path.push(PathElement::Index(i as usize)),
                binding_messages(bs[i as int], bound_names(bs.take(i as int)), enclosing, outs[i as int]))
    }
}

/// The errors of a list of bindings at `path`: an empty list is refused
/// alone; a list longer than the limit is refused, and its bindings are
/// still checked.
pub open spec fn let_binding_errors(
    bs: Seq<Seq<char>>,
    path: Seq<PathElement>,
    enclosing: Seq<Seq<char>>,
    outs: Seq<ExprOutcome>,
) -> Seq<(Seq<PathElement>, Seq<char>)> {
    if bs.len() == 0 {
        seq![(path, "if provided, must not be empty."@)]
    } else {
        (if bs.len() > MAX_LET_BINDINGS {
            seq![(path, "must not contain more than 50 bindings."@)]
        } else {
            seq![]
        }) + bindings_errors_upto(bs, path, enclosing, outs, bs.len())
    }
}

/// `new` is `old` followed by errors with the paths and messages of
/// `entries`.
pub open spec fn errors_extended(old: Seq<ValidationError>, new: Seq<ValidationError>, entries: Seq<(Seq<PathElement>, Seq<char>)>) -> bool {
    &&& new.len() == old.len() + entries.len()
    &&& new.take(old.len() as int) == old
    &&& forall|j: int| 0 <= j < entries.len() ==> (#[trigger] new[old.len() + j]).path@ == entries[j].0
        && new[old.len() + j].message@ == entries[j].1 && new[old.len() + j].detail is None
}

/// `old` with each of `add` that it does not yet hold added, in order.
pub open spec fn merged(old: Seq<Seq<char>>, add: Seq<Seq<char>>) -> Seq<Seq<char>>
    decreases add.len(),
{
    if add.len() == 0 {
        old
    } else {
        let m = merged(old, add.drop_last());
        if m.contains(add.last()) {
            m
        } else {
            m.push(add.last())
        }
    }
}

// ----- building texts -----

/// `a`, then `x`, then `b`.
fn quote3(a: &str, x: &str, b: &str) -> (s: String)
    ensures
        s@ == quoted(a@, x@, b@),
{
    let mut s = String::from_str(a);
    s.append(x);
    s.append(b);
    proof {
        assert(s@ =~= quoted(a@, x@, b@));
    }
    s
}

/// The characters `cs[from..to]` as a string.
fn chars_between(cs: &Vec<char>, from: usize, to: usize) -> (s: String)
    requires
        from <= to <= cs.len(),
    ensures
        s@ == cs@.subrange(from as int, to as int),
{
    let mut s = String::new();
    let mut i: usize = from;
    while i < to
        invariant
            from <= i <= to <= cs.len(),
            s@ == cs@.subrange(from as int, i as int),
        decreases to - i,
    {
        push_char(&mut s, cs[i]);
        proof {
            assert(cs@.subrange(from as int, i + 1) =~= cs@.subrange(from as int, i as int).push(cs@[i as int]));
        }
        i = i + 1;
    }
    s
}

/// Appends `m` to a list of messages.
fn push_message(msgs: &mut Vec<String>, m: String)
    ensures
        texts(final(msgs)@) == texts(old(msgs)@).push(m@),
{
    msgs.push(m);
    proof {
        assert(texts(msgs@) =~= texts(old(msgs)@).push(m@));
    }
}

/// Whether `v` is one of `names`.
fn names_contain(names: &Vec<String>, v: &str) -> (b: bool)
    ensures
        b == texts(names@).contains(v@),
{
    let target = String::from_str(v);
    let mut i: usize = 0;
    while i < names.len()
        invariant
            i <= names.len(),
            target@ == v@,
            forall|j: int| 0 <= j < i ==> names@[j]@ != v@,
        decreases names.len() - i,
    {
        if names[i] == target {
            assert(texts(names@)[i as int] == v@);
            return true;
        }
        i = i + 1;
    }
    proof {
        if texts(names@).contains(v@) {
            let k = choose|k: int| 0 <= k < texts(names@).len() && texts(names@)[k] == v@;
            assert(names@[k]@ == v@);
        }
    }
    false
}

// ----- the checks -----

/// The errors on a binding's name: its first character, its characters,
/// its length, a repeat of a name bound earlier in the list (`seen`), and a
/// name of the enclosing scope.
pub fn name_message_list(name: &str, seen: &Vec<String>, enclosing: &Vec<String>) -> (r: Vec<String>)
    requires
        name@.len() > 0,
    ensures
        texts(r@) == name_messages(name@, texts(seen@), texts(enclosing@)),
{
    let cs = str_chars(name);
    let mut r: Vec<String> = Vec::new();
    let first = cs[0];
    let ghost m1 = when(!(is_ascii_lower(name@[0]) || name@[0] == '_'),
        quoted("name '"@, name@, "' must start with lowercase letter or underscore."@));
    if !(('a' <= first && first <= 'z') || first == '_') {
        push_message(&mut r, quote3("name '", name, "' must start with lowercase letter or underscore."));
    }
    assert(texts(r@) =~= m1);
    let mut all_ok = true;
    let mut i: usize = 0;
    while i < cs.len()
        invariant
            i <= cs.len(),
            cs@ == name@,
            all_ok == (forall|k: int| 0 <= k < i ==> is_name_char(#[trigger] name@[k])),
        decreases cs.len() - i,
    {
        let c = cs[i];
        if !(('a' <= c && c <= 'z') || ('A' <= c && c <= 'Z') || ('0' <= c && c <= '9') || c == '_') {
            all_ok = false;
        }
        i = i + 1;
    }
    let ghost m2 = when(!(forall|k: int| 0 <= k < name@.len() ==> is_name_char(#[trigger] name@[k])),
        quoted("name '"@, name@, "' contains invalid characters."@));
    if !all_ok {
        push_message(&mut r, quote3("name '", name, "' contains invalid characters."));
    }
    assert(texts(r@) =~= m1 + m2);
    let ghost m3 = when(name@.len() > 512, quoted("name '"@, name@, "' exceeds 512 characters."@));
    if cs.len() > MAX_LET_IDENTIFIER_LEN {
        push_message(&mut r, quote3("name '", name, "' exceeds 512 characters."));
    }
    assert(texts(r@) =~= m1 + m2 + m3);
    let ghost m4 = when(texts(seen@).contains(name@), quoted("duplicate name '"@, name@, "'."@));
    if names_contain(seen, name) {
        push_message(&mut r, quote3("duplicate name '", name, "'."));
    }
    assert(texts(r@) =~= m1 + m2 + m3 + m4);
    let ghost m5 = when(texts(enclosing@).contains(name@), quoted("'"@, name@, "' shadows enclosing scope."@));
    if names_contain(enclosing, name) {
        push_message(&mut r, quote3("'", name, "' shadows enclosing scope."));
    }
    assert(texts(r@) =~= m1 + m2 + m3 + m4 + m5);
    r
}

/// The errors that an expression's outcome gives the binding named `name`:
/// a reference to the name itself, and a parse or evaluation failure.
pub fn outcome_message_list(name: &str, outcome: &ExprOutcome) -> (r: Vec<String>)
    ensures
        texts(r@) == outcome_messages(name@, *outcome),
{
    let mut r: Vec<String> = Vec::new();
    match outcome {
        ExprOutcome::Evaluated { self_reference } => {
            if *self_reference {
                push_message(&mut r, quote3("'", name, "' references itself."));
            }
        },
        ExprOutcome::EvalFailed { self_reference, message } => {
            if *self_reference {
                push_message(&mut r, quote3("'", name, "' references itself."));
            }
            let mut m = quote3("Invalid expression in let binding '", name, "': ");
            m.append(message.as_str());
            proof {
                assert(m@ =~= invalid_message(name@, message@));
            }
            push_message(&mut r, m);
        },
        ExprOutcome::ParseFailed { message } => {
            let mut m = quote3("Invalid expression in let binding '", name, "': ");
            m.append(message.as_str());
            proof {
                assert(m@ =~= invalid_message(name@, message@));
            }
            push_message(&mut r, m);
        },
    }
    assert(texts(r@) =~= outcome_messages(name@, *outcome));
    r
}

/// The position of the first `=` of `cs`, if it has one.
fn find_eq(cs: &Vec<char>) -> (r: Option<usize>)
    ensures
        r is None <==> !cs@.contains('='),
        r matches Some(p) ==> is_first_eq(cs@, p as int) && first_eq(cs@) == p,
{
    let mut i: usize = 0;
    while i < cs.len()
        invariant
            i <= cs.len(),
            forall|j: int| 0 <= j < i ==> cs@[j] != '=',
        decreases cs.len() - i,
    {
        if cs[i] == '=' {
            proof {
                assert(is_first_eq(cs@, i as int));
                let q = first_eq(cs@);
                assert(is_first_eq(cs@, q));
                if q < i {
                    assert(cs@[q] != '=');
                } else if q > i {
                    assert(cs@[i as int] != '=');
                }
                assert(cs@.contains('='));
            }
            return Some(i);
        }
        i = i + 1;
    }
    None
}

/// Splits a binding into its name, expression and prefix, and gives the
/// errors on its form: a missing `=`, an empty name, an empty expression,
/// then the errors on the name (`seen` holds the names bound earlier in
/// the list). The parts come back where the binding is well formed.
pub fn check_binding_syntax(binding: &str, seen: &Vec<String>, enclosing: &Vec<String>) -> (r: (Vec<String>, Option<BindingParts>))
    ensures
        texts(r.0@) == syntax_messages(binding@, texts(seen@), texts(enclosing@)),
        r.1 is Some <==> well_formed(binding@),
        r.1 matches Some(p) ==> p.name@ == binding_name(binding@) && p.expr@ == binding_expr(binding@)
            && p.prefix@ == binding_prefix(binding@),
{
    let cs = str_chars(binding);
    let mut msgs: Vec<String> = Vec::new();
    let eq = match find_eq(&cs) {
        None => {
            push_message(&mut msgs, quote3("missing '=' in '", binding, "'."));
            return (msgs, None);
        },
        Some(p) => p,
    };
    let n = cs.len();
    let name = trim_text(&chars_between(&cs, 0, eq));
    let expr = trim_text(&chars_between(&cs, eq + 1, n));
    proof {
        assert(cs@.subrange(0, eq as int) =~= binding@.take(eq as int));
        assert(cs@.subrange(eq + 1, n as int) =~= binding@.skip(eq + 1));
    }
    if char_count(name.as_str()) == 0 {
        push_message(&mut msgs, String::from_str("has empty name."));
        proof {
            assert(texts(msgs@) =~= syntax_messages(binding@, texts(seen@), texts(enclosing@)));
        }
        return (msgs, None);
    }
    if char_count(expr.as_str()) == 0 {
        push_message(&mut msgs, quote3("binding '", name.as_str(), "' has no expression after '='."));
        return (msgs, None);
    }
    let msgs = name_message_list(name.as_str(), seen, enclosing);
    let ghost rest = binding@.skip(eq + 1);
    let mut k: usize = eq + 1;
    proof {
        assert(rest.skip(0) =~= rest);
    }
    while k < n && is_whitespace(cs[k])
        invariant
            eq + 1 <= k <= n,
            n == cs.len(),
            cs@ == binding@,
            rest == binding@.skip(eq + 1),
            trim_front(rest) == trim_front(rest.skip(k - (eq + 1))),
        decreases n - k,
    {
        proof {
            assert(rest.skip(k - (eq + 1)).drop_first() =~= rest.skip(k + 1 - (eq + 1)));
        }
        k = k + 1;
    }
    proof {
        assert(trim_front(rest) == rest.skip(k - (eq + 1)));
    }
    let prefix = chars_between(&cs, 0, k);
    proof {
        assert(prefix@ =~= binding_prefix(binding@));
    }
    (msgs, Some(BindingParts { name, expr, prefix }))
}

// ----- the expression library -----

#[verifier::external_type_specification]
#[verifier::external_body]
pub struct ExSymbolTable(openjd_expr::symbol_table::SymbolTable);

#[verifier::external_type_specification]
#[verifier::external_body]
pub struct ExFunctionLibrary(openjd_expr::function_library::FunctionLibrary);

#[verifier::external_type_specification]
#[verifier::external_body]
pub struct ExExprProfile(openjd_expr::profile::ExprProfile);

#[verifier::external_type_specification]
#[verifier::external_body]
pub struct ExParsedExpression(openjd_expr::eval::ParsedExpression);

#[verifier::external_type_specification]
#[verifier::external_body]
pub struct ExExpressionError(openjd_expr::error::ExpressionError);

#[verifier::external_type_specification]
#[verifier::external_body]
pub struct ExExprValue(openjd_expr::value::ExprValue);

/// Whether the expression parser accepts `expr`. In this version of the
/// expression library every profile has the one revision and no extension,
/// so what parses is a function of the text alone.
pub uninterp spec fn expression_parses(expr: Seq<char>) -> bool;

/// The symbols that `expr`, once parsed, reads (`accessed_symbols`).
pub uninterp spec fn expression_symbols(expr: Seq<char>) -> Set<Seq<char>>;

/// The dotted names at which a symbol table holds a value.
pub uninterp spec fn symbol_paths(t: SymbolTable) -> Set<Seq<char>>;

/// The dotted names at which a symbol table holds a nested table.
pub uninterp spec fn symbol_tables(t: SymbolTable) -> Set<Seq<char>>;

/// A symbol table by where it holds values and where it holds tables.
pub open spec fn symbol_state(t: SymbolTable) -> (Set<Seq<char>>, Set<Seq<char>>) {
    (symbol_paths(t), symbol_tables(t))
}

/// The dotted names that lead to `key`: each part of it before a `.`.
pub open spec fn dotted_prefixes(key: Seq<char>) -> Set<Seq<char>> {
    Set::new(|p: Seq<char>| exists|i: int| 0 <= i < key.len() && key[i] == '.' && p == key.take(i))
}

/// Whether setting `key` fails: a table is at `key`, or a value is at a
/// name that leads to it.
pub open spec fn set_fails(st: (Set<Seq<char>>, Set<Seq<char>>), key: Seq<char>) -> bool {
    st.1.contains(key) || exists|i: int| 0 <= i < key.len() && key[i] == '.' && #[trigger] st.0.contains(key.take(i))
}

/// A table after setting `key`: where it succeeds, a value is at `key` and
/// tables are at the names leading to it; where it fails, nothing changes.
pub open spec fn after_set(st: (Set<Seq<char>>, Set<Seq<char>>), key: Seq<char>) -> (Set<Seq<char>>, Set<Seq<char>>) {
    if set_fails(st, key) {
        st
    } else {
        (st.0.insert(key), st.1.union(dotted_prefixes(key)))
    }
}

/// A table after setting each of `keys`, in order.
pub open spec fn after_sets(st: (Set<Seq<char>>, Set<Seq<char>>), keys: Seq<Seq<char>>) -> (Set<Seq<char>>, Set<Seq<char>>)
    decreases keys.len(),
{
    if keys.len() == 0 {
        st
    } else {
        after_set(after_sets(st, keys.drop_last()), keys.last())
    }
}

/// Longest expression, in characters, that the parser takes on the calling
/// thread (`FAST_PATH_INPUT_LEN`, 200 bytes, at up to 4 bytes a character);
/// a longer one is parsed on a thread of its own, which may fail to start.
pub const PARSE_ON_CALLER_CHARS: usize = 50;

/// `ParsedExpression::with_profile`, with the parsed expression's
/// `accessed_symbols`. A text that does not parse is refused, one that
/// does is accepted where it is parsed on the calling thread, and the
/// symbols given back are those the text reads. The profile's revision and
/// extensions, which govern the syntax, have one possible value each in this
/// version, so the result is stated over the text alone.
#[verifier::external_body]
fn parse_expression(expr: &str, profile: &ExprProfile) -> (r: Result<(ParsedExpression, Vec<String>), ExpressionError>)
    ensures
        r is Ok ==> expression_parses(expr@),
        expr@.len() <= PARSE_ON_CALLER_CHARS && expression_parses(expr@) ==> r is Ok,
        r matches Ok(p) ==> texts(p.1@).to_set() == expression_symbols(expr@),
{
    match ParsedExpression::with_profile(expr, profile) {
        Ok(p) => {
            let symbols: Vec<String> = p.accessed_symbols().iter().cloned().collect();
            Ok((p, symbols))
        },
        Err(e) => Err(e),
    }
}

/// `ParsedExpression::with_library` then `EvalBuilder::evaluate` against one
/// symbol table: the expression's value or type, or why it has none. The
/// outcome depends on the values in the table, which are opaque here, and is
/// not stated.
#[verifier::external_body]
fn evaluate_expression(parsed: &ParsedExpression, lib: &FunctionLibrary, symtab: &SymbolTable) -> (r: Result<ExprValue, ExpressionError>) {
    parsed.with_library(lib).evaluate(&[symtab])
}

/// `ExpressionError::message_with_expr_prefix`: the error's message, with its
/// caret line shifted by the prefix. The text is not stated.
#[verifier::external_body]
fn prefixed_message(e: &ExpressionError, prefix: &str) -> (r: String) {
    e.message_with_expr_prefix(prefix)
}

/// `SymbolTable::set`, telling whether it succeeded. It fails where a table
/// is at `name` or a value is at a name leading to it, and then nothing
/// changes; otherwise a value is at `name` and tables are at the names
/// leading to it (created where missing).
#[verifier::external_body]
fn bind_symbol(symtab: &mut SymbolTable, name: &str, value: ExprValue) -> (bound: bool)
    ensures
        bound == !set_fails((symbol_paths(*old(symtab)), symbol_tables(*old(symtab))), name@),
        (symbol_paths(*final(symtab)), symbol_tables(*final(symtab)))
            == after_set((symbol_paths(*old(symtab)), symbol_tables(*old(symtab))), name@),
{
    symtab.set(name, value).is_ok()
}

/// `ExprValue::unresolved` of `ExprType::ANY`: a value of unknown type.
#[verifier::external_body]
fn unresolved_any() -> (r: ExprValue) {
    ExprValue::unresolved(ExprType::ANY)
}

/// What the parser's verdict says of an expression's outcome: a parse
/// failure only where the text does not parse or is parsed off the calling
/// thread, and otherwise a self-reference exactly where the expression
/// reads `name`.
pub open spec fn outcome_fits(expr: Seq<char>, name: Seq<char>, o: ExprOutcome) -> bool {
    match o {
        ExprOutcome::ParseFailed { .. } => !(expr.len() <= PARSE_ON_CALLER_CHARS && expression_parses(expr)),
        ExprOutcome::Evaluated { self_reference } =>
            expression_parses(expr) && self_reference == expression_symbols(expr).contains(name),
        ExprOutcome::EvalFailed { self_reference, .. } =>
            expression_parses(expr) && self_reference == expression_symbols(expr).contains(name),
    }
}

/// Each well-formed binding's outcome fits its expression.
pub open spec fn outcomes_fit(bs: Seq<Seq<char>>, outs: Seq<ExprOutcome>) -> bool {
    forall|i: int| 0 <= i < bs.len() && well_formed(#[trigger] bs[i]) ==>
        outcome_fits(binding_expr(bs[i]), binding_name(bs[i]), outs[i])
}

/// Parses and evaluates a binding's expression against the symbols bound so
/// far, and binds the name to the value, or to a value of unknown type where
/// the expression fails, so that later bindings are still checked. Tells
/// whether the name was bound.
fn expression_outcome(parts: &BindingParts, symtab: &mut SymbolTable, lib: &FunctionLibrary, profile: &ExprProfile) -> (r: (ExprOutcome, bool))
    ensures
        outcome_fits(parts.expr@, parts.name@, r.0),
        r.1 == !set_fails(symbol_state(*old(symtab)), parts.name@),
        symbol_state(*final(symtab)) == after_set(symbol_state(*old(symtab)), parts.name@),
{
    match parse_expression(parts.expr.as_str(), profile) {
        Ok((parsed, symbols)) => {
            let self_reference = names_contain(&symbols, parts.name.as_str());
            proof {
                if expression_symbols(parts.expr@).contains(parts.name@) {
                    assert(texts(symbols@).to_set().contains(parts.name@));
                }
            }
            match evaluate_expression(&parsed, lib, symtab) {
                Ok(v) => {
                    let bound = bind_symbol(symtab, parts.name.as_str(), v);
                    (ExprOutcome::Evaluated { self_reference }, bound)
                },
                Err(e) => {
                    let message = prefixed_message(&e, parts.prefix.as_str());
                    let bound = bind_symbol(symtab, parts.name.as_str(), unresolved_any());
                    (ExprOutcome::EvalFailed { self_reference, message }, bound)
                },
            }
        },
        Err(e) => {
            let message = prefixed_message(&e, parts.prefix.as_str());
            let bound = bind_symbol(symtab, parts.name.as_str(), unresolved_any());
            (ExprOutcome::ParseFailed { message }, bound)
        },
    }
}

/// Adds each of `msgs` at `path`, extending what has been added so far.
fn add_all(errors: &mut ValidationErrors, path: &[PathElement], msgs: &Vec<String>, Ghost(base): Ghost<Seq<ValidationError>>, Ghost(entries): Ghost<Seq<(Seq<PathElement>, Seq<char>)>>)
    requires
        errors_extended(base, old(errors).error_list(), entries),
    ensures
        errors_extended(base, final(errors).error_list(), entries + located(path@, texts(msgs@))),
        final(errors).model_name() == old(errors).model_name(),
{
    let mut k: usize = 0;
    proof {
        assert(entries + located(path@, texts(msgs@).take(0)) =~= entries);
    }
    while k < msgs.len()
        invariant
            k <= msgs.len(),
            errors_extended(base, errors.error_list(), entries + located(path@, texts(msgs@).take(k as int))),
            errors.model_name() == old(errors).model_name(),
        decreases msgs.len() - k,
    {
        let ghost before = errors.error_list();
        errors.add(path, msgs[k].as_str());
        proof {
            let want = entries + located(path@, texts(msgs@).take(k + 1));
            let had = entries + located(path@, texts(msgs@).take(k as int));
            assert(want =~= had.push((path@, msgs@[k as int]@)));
            let new = errors.error_list();
            assert(new.drop_last() == before);
            assert(new.take(base.len() as int) =~= base) by {
                assert(before.take(base.len() as int) =~= new.take(base.len() as int));
            }
            assert forall|j: int| 0 <= j < want.len() implies (#[trigger] new[base.len() + j]).path@ == want[j].0
                && new[base.len() + j].message@ == want[j].1 && new[base.len() + j].detail is None by {
                if j < had.len() {
                    assert(new[base.len() + j] == before[base.len() + j]);
                }
            }
        }
        k = k + 1;
    }
    proof {
        assert(texts(msgs@).take(msgs.len() as int) =~= texts(msgs@));
    }
}

/// The errors of the first `n` bindings read only the first `n` outcomes.
proof fn lemma_upto_outcomes(
    bs: Seq<Seq<char>>,
    path: Seq<PathElement>,
    enclosing: Seq<Seq<char>>,
    o1: Seq<ExprOutcome>,
    o2: Seq<ExprOutcome>,
    n: nat,
)
    requires
        n <= o1.len(),
        n <= o2.len(),
        forall|j: int| 0 <= j < n ==> o1[j] == o2[j],
    ensures
        bindings_errors_upto(bs, path, enclosing, o1, n) == bindings_errors_upto(bs, path, enclosing, o2, n),
    decreases n,
{
    if n > 0 {
        lemma_upto_outcomes(bs, path, enclosing, o1, o2, (n - 1) as nat);
    }
}

/// Checks a list of `let` bindings at `path`, type-checking each
/// expression against `symtab` and binding each name in it.
///
/// An empty list gives one error and nothing else; a list of more than
/// `MAX_LET_BINDINGS` gives one error and is still checked. Each binding
/// gets, at its index, the errors on its form and name (a name bound earlier
/// in the list, or one of `enclosing_names`, is refused), then those that its
/// expression's outcome gives, an outcome that fits what the parser says of
/// the expression. The names of the well-formed bindings are added to
/// `out_names`, and each of those names is set in the table, in order,
/// where the table allows it (`after_sets`).
#[verifier::rlimit(40)]
pub fn validate_let_bindings(
    bindings: &[String],
    path: &[PathElement],
    enclosing_names: &Vec<String>,
    out_names: &mut Vec<String>,
    symtab: &mut SymbolTable,
    lib: &FunctionLibrary,
    profile: &ExprProfile,
    errors: &mut ValidationErrors,
)
    ensures
        exists|outs: Seq<ExprOutcome>| outs.len() == bindings@.len() && outcomes_fit(texts(bindings@), outs)
            && errors_extended(
            old(errors).error_list(),
            final(errors).error_list(),
            #[trigger] let_binding_errors(texts(bindings@), path@, texts(enclosing_names@), outs),
        ),
        symbol_state(*final(symtab)) == after_sets(symbol_state(*old(symtab)), bound_names(texts(bindings@))),
        final(errors).model_name() == old(errors).model_name(),
        texts(final(out_names)@) == merged(texts(old(out_names)@), bound_names(texts(bindings@))),
{
    let ghost bs = texts(bindings@);
    let ghost enc = texts(enclosing_names@);
    let ghost base = old(errors).error_list();
    let ghost first_names = texts(old(out_names)@);
    if bindings.len() == 0 {
        errors.add(path, "if provided, must not be empty.");
        proof {
            let outs: Seq<ExprOutcome> = seq![];
            let want = let_binding_errors(bs, path@, enc, outs);
            let new = errors.error_list();
            assert(new.drop_last() == base);
            assert(new.take(base.len() as int) =~= base);
            assert(errors_extended(base, new, want));
            assert(bs.len() == 0);
            assert(bound_names(bs) =~= seq![]);
        }
        return;
    }
    let ghost mut head: Seq<(Seq<PathElement>, Seq<char>)> = seq![];
    proof {
        assert(base.take(base.len() as int) =~= base);
    }
    if bindings.len() > MAX_LET_BINDINGS {
        errors.add(path, "must not contain more than 50 bindings.");
        proof {
            head = seq![(path@, "must not contain more than 50 bindings."@)];
            let new = errors.error_list();
            assert(new.drop_last() == base);
            assert(new.take(base.len() as int) =~= base);
            assert(errors_extended(base, new, head));
        }
    }
    let mut seen: Vec<String> = Vec::new();
    let ghost mut outs: Seq<ExprOutcome> = seq![];
    let ghost first_state = symbol_state(*old(symtab));
    let mut i: usize = 0;
    proof {
        assert(head + bindings_errors_upto(bs, path@, enc, outs, 0) =~= head);
        assert(bs.take(0) =~= seq![]);
        assert(texts(seen@) =~= seq![]);
    }
    while i < bindings.len()
        invariant
            i <= bindings.len(),
            bs == texts(bindings@),
            enc == texts(enclosing_names@),
            head == (if bindings.len() > MAX_LET_BINDINGS {
                seq![(path@, "must not contain more than 50 bindings."@)]
            } else {
                seq![]
            }),
            outs.len() == i,
            errors_extended(base, errors.error_list(), head + bindings_errors_upto(bs, path@, enc, outs, i as nat)),
            errors.model_name() == old(errors).model_name(),
            texts(seen@) == bound_names(bs.take(i as int)),
            texts(out_names@) == merged(first_names, bound_names(bs.take(i as int))),
            forall|j: int| 0 <= j < i && well_formed(#[trigger] bs[j]) ==>
                outcome_fits(binding_expr(bs[j]), binding_name(bs[j]), outs[j]),
            symbol_state(*symtab) == after_sets(first_state, bound_names(bs.take(i as int))),
        decreases bindings.len() - i,
    {
        let b_path = path_index(path, i);
        let ghost before = head + bindings_errors_upto(bs, path@, enc, outs, i as nat);
        let (msgs, parts) = check_binding_syntax(bindings[i].as_str(), &seen, enclosing_names);
        add_all(errors, &b_path, &msgs, Ghost(base), Ghost(before));
        let ghost mid = before + located(b_path@, texts(msgs@));
        let ghost b = bs[i as int];
        proof {
            assert(bs.take(i + 1).drop_last() =~= bs.take(i as int));
            assert(bs.take(i + 1).last() == b);
        }
        let ghost o: ExprOutcome;
        match parts {
            None => {
                proof {
                    o = ExprOutcome::Evaluated { self_reference: false };
                    assert(bound_names(bs.take(i + 1)) == bound_names(bs.take(i as int)));
                    assert(!well_formed(b));
                    assert(mid =~= before + located(b_path@, binding_messages(b, bound_names(bs.take(i as int)), enc, o)));
                }
            },
            Some(p) => {
                proof {
                    let bn = bound_names(bs.take(i as int));
                    assert(bound_names(bs.take(i + 1)) == bn.push(p.name@));
                    assert(bn.push(p.name@).drop_last() =~= bn);
                    assert(bn.push(p.name@).last() == p.name@);
                    bn.lemma_push_to_set_commute(p.name@);
                    assert(well_formed(b));
                }
                seen.push(String::from_str(p.name.as_str()));
                if !names_contain(out_names, p.name.as_str()) {
                    out_names.push(String::from_str(p.name.as_str()));
                    proof {
                        assert(texts(out_names@) =~= merged(first_names, bound_names(bs.take(i as int))).push(p.name@));
                    }
                }
                let (outcome, bound) = expression_outcome(&p, symtab, lib, profile);
                proof {
                    let bn = bound_names(bs.take(i as int));
                    assert(after_sets(first_state, bn.push(p.name@)) == after_set(after_sets(first_state, bn), p.name@));
                }
                let more = outcome_message_list(p.name.as_str(), &outcome);
                add_all(errors, &b_path, &more, Ghost(base), Ghost(mid));
                proof {
                    o = outcome;
                    assert(located(b_path@, texts(msgs@)) + located(b_path@, texts(more@))
                        =~= located(b_path@, binding_messages(b, bound_names(bs.take(i as int)), enc, o)));
                    assert(mid + located(b_path@, texts(more@))
                        =~= before + located(b_path@, binding_messages(b, bound_names(bs.take(i as int)), enc, o)));
                }
            },
        }
        proof {
            assert(texts(seen@) =~= bound_names(bs.take(i + 1)));
            assert(bound_names(bs.take(i as int)).to_set().subset_of(bound_names(bs.take(i + 1)).to_set())) by {
                bound_names(bs.take(i as int)).lemma_push_to_set_commute(binding_name(b));
            }
            let outs2 = outs.push(o);
            assert forall|j: int| 0 <= j < i + 1 && well_formed(#[trigger] bs[j]) implies
                outcome_fits(binding_expr(bs[j]), binding_name(bs[j]), outs2[j]) by {
                if j < i {
                    assert(outs2[j] == outs[j]);
                }
            }
            lemma_upto_outcomes(bs, path@, enc, outs, outs2, i as nat);
            assert(head + bindings_errors_upto(bs, path@, enc, outs2, (i + 1) as nat)
                =~= before + located(b_path@, binding_messages(b, bound_names(bs.take(i as int)), enc, o)));
            outs = outs2;
        }
        i = i + 1;
    }
    proof {
        assert(bs.take(bindings.len() as int) =~= bs);
        assert(let_binding_errors(bs, path@, enc, outs) == head + bindings_errors_upto(bs, path@, enc, outs, bs.len()));
        assert(outcomes_fit(bs, outs));
    }
}

/// Law: the names that `validate_let_bindings` leaves in `out_names` behave
/// as a set: none is held twice where none was before, and they are the
/// earlier names together with those of the well-formed bindings.
pub proof fn law_bound_names_form_a_set(old: Seq<Seq<char>>, add: Seq<Seq<char>>)
    requires
        old.no_duplicates(),
    ensures
        merged(old, add).no_duplicates(),
        merged(old, add).to_set() == old.to_set().union(add.to_set()),
    decreases add.len(),
{
    if add.len() == 0 {
        assert(add.to_set() =~= Set::empty());
        assert(old.to_set().union(add.to_set()) =~= old.to_set());
    } else {
        let rest = add.drop_last();
        let x = add.last();
        law_bound_names_form_a_set(old, rest);
        let m = merged(old, rest);
        assert(add =~= rest.push(x));
        assert(add.to_set() =~= rest.to_set().insert(x)) by {
            rest.lemma_push_to_set_commute(x);
        }
        if !m.contains(x) {
            assert(m.push(x).to_set() =~= m.to_set().insert(x)) by {
                m.lemma_push_to_set_commute(x);
            }
            assert(m.push(x).no_duplicates()) by {
                assert forall|i: int, j: int| 0 <= i < m.push(x).len() && 0 <= j < m.push(x).len() && i != j
                    implies m.push(x)[i] != m.push(x)[j] by {
                    if i < m.len() && j < m.len() {
                    } else if i == m.len() {
                        assert(m[j] == m.push(x)[j]);
                    } else {
                        assert(m[i] == m.push(x)[i]);
                    }
                }
            }
        } else {
            assert(m.to_set().contains(x));
        }
        assert(merged(old, add).to_set() =~= old.to_set().union(add.to_set()));
    }
}


/// Law: a name made only of ASCII letters, digits and underscores, starting
/// with a lower-case letter or an underscore, of at most 512 characters, and
/// neither bound earlier in the list nor in the enclosing scope, draws no
/// error; a name holding any other character draws the invalid-characters
/// error.
pub proof fn law_name_rules(name: Seq<char>, seen: Seq<Seq<char>>, enclosing: Seq<Seq<char>>)
    requires
        name.len() >= 1,
    ensures
        (('a' <= name[0] && name[0] <= 'z') || name[0] == '_')
            && (forall|k: int| 0 <= k < name.len() ==> ('a' <= #[trigger] name[k] && name[k] <= 'z')
                || ('A' <= name[k] && name[k] <= 'Z') || ('0' <= name[k] && name[k] <= '9') || name[k] == '_')
            && name.len() <= 512 && !seen.contains(name) && !enclosing.contains(name)
            ==> name_messages(name, seen, enclosing) == Seq::<Seq<char>>::empty(),
        (exists|k: int| 0 <= k < name.len() && !(('a' <= #[trigger] name[k] && name[k] <= 'z')
            || ('A' <= name[k] && name[k] <= 'Z') || ('0' <= name[k] && name[k] <= '9') || name[k] == '_'))
            ==> name_messages(name, seen, enclosing).contains("name '"@ + name + "' contains invalid characters."@),
{
    let m1 = when(!(is_ascii_lower(name[0]) || name[0] == '_'),
        quoted("name '"@, name, "' must start with lowercase letter or underscore."@));
    let m2 = when(!(forall|k: int| 0 <= k < name.len() ==> is_name_char(#[trigger] name[k])),
        quoted("name '"@, name, "' contains invalid characters."@));
    if exists|k: int| 0 <= k < name.len() && !(('a' <= #[trigger] name[k] && name[k] <= 'z')
        || ('A' <= name[k] && name[k] <= 'Z') || ('0' <= name[k] && name[k] <= '9') || name[k] == '_') {
        let k = choose|k: int| 0 <= k < name.len() && !(('a' <= #[trigger] name[k] && name[k] <= 'z')
            || ('A' <= name[k] && name[k] <= 'Z') || ('0' <= name[k] && name[k] <= '9') || name[k] == '_');
        assert(!is_name_char(name[k]));
        let all = name_messages(name, seen, enclosing);
        assert(all[m1.len() as int] == m2[0]);
        assert(all.contains("name '"@ + name + "' contains invalid characters."@));
    }
    if (('a' <= name[0] && name[0] <= 'z') || name[0] == '_')
        && (forall|k: int| 0 <= k < name.len() ==> ('a' <= #[trigger] name[k] && name[k] <= 'z')
            || ('A' <= name[k] && name[k] <= 'Z') || ('0' <= name[k] && name[k] <= '9') || name[k] == '_')
        && name.len() <= 512 && !seen.contains(name) && !enclosing.contains(name) {
        assert(forall|k: int| 0 <= k < name.len() ==> is_name_char(#[trigger] name[k]));
        assert(name_messages(name, seen, enclosing) =~= Seq::<Seq<char>>::empty());
    }
}


/// Law: a binding is split at its first `=`: written as `n = e` with no `=`
/// in `n`, its name is `n` trimmed and its expression `e` trimmed.
pub proof fn law_binding_split(n: Seq<char>, e: Seq<char>)
    requires
        !n.contains('='),
    ensures
        (n + seq!['='] + e).contains('='),
        binding_name(n + seq!['='] + e) == trimmed(n),
        binding_expr(n + seq!['='] + e) == trimmed(e),
{
    let b = n + seq!['='] + e;
    assert(b[n.len() as int] == '=');
    assert(is_first_eq(b, n.len() as int)) by {
        assert forall|j: int| 0 <= j < n.len() implies b[j] != '=' by {
            assert(b[j] == n[j]);
        }
    }
    let q = first_eq(b);
    assert(is_first_eq(b, q));
    if q < n.len() {
        assert(b[q] == n[q]);
        assert(n.contains('='));
    }
    assert(q == n.len());
    assert(b.take(q) =~= n);
    assert(b.skip(q + 1) =~= e);
}

/// Law: the form of a binding: without `=` it draws only the missing-`=`
/// error; with an empty name only the empty-name error; with a name and no
/// expression only the missing-expression error.
pub proof fn law_binding_form(b: Seq<char>, seen: Seq<Seq<char>>, enclosing: Seq<Seq<char>>)
    ensures
        !b.contains('=') ==> syntax_messages(b, seen, enclosing) == seq!["missing '=' in '"@ + b + "'."@],
        b.contains('=') && binding_name(b).len() == 0 ==> syntax_messages(b, seen, enclosing) == seq!["has empty name."@],
        b.contains('=') && binding_name(b).len() > 0 && binding_expr(b).len() == 0
            ==> syntax_messages(b, seen, enclosing)
                == seq!["binding '"@ + binding_name(b) + "' has no expression after '='."@],
{
}

/// Law: an empty list of bindings draws exactly the emptiness error at the
/// list's path; a list of more than 50 draws the count error there first.
pub proof fn law_binding_list(bs: Seq<Seq<char>>, path: Seq<PathElement>, enclosing: Seq<Seq<char>>, outs: Seq<ExprOutcome>)
    ensures
        bs.len() == 0 ==> let_binding_errors(bs, path, enclosing, outs) == seq![(path, "if provided, must not be empty."@)],
        bs.len() > 50 ==> let_binding_errors(bs, path, enclosing, outs).len() >= 1
            && let_binding_errors(bs, path, enclosing, outs)[0] == (path, "must not contain more than 50 bindings."@),
{
}

/// Law: what an expression's outcome adds: nothing for one that evaluated
/// without reading its own name; the self-reference error for one that reads
/// it; and, for one that failed, the invalid-expression error carrying the
/// failure's message, last.
pub proof fn law_outcome_messages(name: Seq<char>, o: ExprOutcome)
    ensures
        o == (ExprOutcome::Evaluated { self_reference: false }) ==> outcome_messages(name, o) == Seq::<Seq<char>>::empty(),
        (o matches ExprOutcome::Evaluated { self_reference: true } || o matches ExprOutcome::EvalFailed { self_reference: true, .. })
            ==> outcome_messages(name, o)[0] == "'"@ + name + "' references itself."@,
        o matches ExprOutcome::EvalFailed { message, .. } ==> outcome_messages(name, o).last()
            == "Invalid expression in let binding '"@ + name + "': "@ + o->EvalFailed_message@,
        o matches ExprOutcome::ParseFailed { message } ==> outcome_messages(name, o)
            == seq!["Invalid expression in let binding '"@ + name + "': "@ + o->ParseFailed_message@],
{
}

} // verus!

//! Validation of one format string field: static evaluation of its
//! expressions against a symbol table, then either the field's constraint
//! on what evaluation determined, or a report of the failing interpolation.

use vstd::prelude::*;
use crate::error::{DiagnosticSpan, ErrorDetail, PathElement, ValidationError, ValidationErrors};
use crate::resolved::{appended, check_resolved_constraint, resolution_errors, ResolvedConstraint, ResolvedValue, StaticResolutionView};
use crate::text::{append_usize, nat_text};
use openjd_expr::error::ExpressionError;
use openjd_expr::format_string::{FormatString, FormatStringValidationError, StaticResolution};
use openjd_expr::function_library::FunctionLibrary;
use openjd_expr::symbol_table::SymbolTable;
use openjd_expr::types::ExprType;
use openjd_expr::value::ExprValue;

verus! {

/// A sub-error of a compound expression error, by its parts.
#[derive(Debug, Clone)]
pub struct SubErrorParts {
    /// The sub-error's message.
    pub summary: String,
    /// The expression it points into, where known.
    pub expr: Option<String>,
    /// Where the failing part starts in the expression, where known.
    pub col: Option<usize>,
    /// Where it ends, where known.
    pub end_col: Option<usize>,
    /// The caret position, where known.
    pub caret: Option<usize>,
}

/// A failed validation of a format string, by its parts.
#[derive(Debug, Clone)]
pub struct FailureParts {
    /// What went wrong.
    pub message: String,
    /// The format string.
    pub input: String,
    /// Where the failing interpolation opens.
    pub start: usize,
    /// Where it closes.
    pub end: usize,
    /// The message of the underlying expression error, where there is one.
    pub expression_summary: Option<String>,
    /// The sub-errors of the underlying expression error.
    pub subs: Vec<SubErrorParts>,
}

/// A span by its parts: summary, source, start, end, caret.
pub open spec fn span_view(d: DiagnosticSpan) -> (Seq<char>, Seq<char>, usize, usize, usize) {
    (d.summary@, d.source@, d.start, d.end, d.caret)
}

pub open spec fn spans_view(v: Seq<DiagnosticSpan>) -> Seq<(Seq<char>, Seq<char>, usize, usize, usize)> {
    v.map_values(|d: DiagnosticSpan| span_view(d))
}

/// The span of a sub-error that knows its expression and both ends; the
/// caret defaults to 0.
pub open spec fn sub_span(s: SubErrorParts) -> Option<(Seq<char>, Seq<char>, usize, usize, usize)> {
    match (s.expr, s.col, s.end_col) {
        (Some(x), Some(c), Some(e)) => Some((s.summary@, x@, c, e, match s.caret { Some(k) => k, None => 0 })),
        _ => None,
    }
}

/// The spans of the sub-errors that have one, in order.
pub open spec fn sub_spans(subs: Seq<SubErrorParts>) -> Seq<(Seq<char>, Seq<char>, usize, usize, usize)>
    decreases subs.len(),
{
    if subs.len() == 0 {
        seq![]
    } else {
        let r = sub_spans(subs.drop_last());
        match sub_span(subs.last()) {
            Some(x) => r.push(x),
            None => r,
        }
    }
}

/// The spans of a failure: one per located sub-error of the expression
/// error, or else one covering the whole interpolation.
pub open spec fn failure_spans(f: FailureParts) -> Seq<(Seq<char>, Seq<char>, usize, usize, usize)> {
    let subs = if f.expression_summary is Some { sub_spans(f.subs@) } else { seq![] };
    if subs.len() > 0 {
        subs
    } else {
        seq![(f.message@, f.input@, f.start, f.end, 0usize)]
    }
}

/// The summary of a failure: the expression error's message, else the
/// failure's own.
pub open spec fn failure_summary(f: FailureParts) -> Seq<char> {
    match f.expression_summary {
        Some(s) => s@,
        None => f.message@,
    }
}

/// `Failed to parse interpolation expression at [<start>, <end>]. <message>`.
pub open spec fn failure_message(f: FailureParts) -> Seq<char> {
    "Failed to parse interpolation expression at ["@ + nat_text(f.start as nat) + ", "@
        + nat_text(f.end as nat) + "]. "@ + f.message@
}

/// The structured detail of a failure.
pub fn failure_detail(f: &FailureParts) -> (d: ErrorDetail)
    ensures
        d.summary@ == failure_summary(*f),
        spans_view(d.spans@) == failure_spans(*f),
{
    let mut spans: Vec<DiagnosticSpan> = Vec::new();
    if f.expression_summary.is_some() {
        let mut i: usize = 0;
        proof {
            assert(f.subs@.take(0) =~= seq![]);
            assert(spans_view(spans@) =~= seq![]);
        }
        while i < f.subs.len()
            invariant
                i <= f.subs@.len(),
                spans_view(spans@) == sub_spans(f.subs@.take(i as int)),
            decreases f.subs.len() - i,
        {
            let s = &f.subs[i];
            proof {
                assert(f.subs@.take(i + 1).drop_last() =~= f.subs@.take(i as int));
                assert(f.subs@.take(i + 1).last() == *s);
            }
            match (&s.expr, s.col, s.end_col) {
                (Some(x), Some(c), Some(e)) => {
                    let caret = match s.caret {
                        Some(k) => k,
                        None => 0,
                    };
                    let ghost before = spans@;
                    spans.push(DiagnosticSpan { summary: s.summary.clone(), source: x.clone(), start: c, end: e, caret });
                    proof {
                        assert(spans_view(spans@) =~= spans_view(before).push(span_view(spans@.last())));
                    }
                },
                _ => {},
            }
            i = i + 1;
        }
        proof {
            assert(f.subs@.take(f.subs@.len() as int) =~= f.subs@);
        }
    }
    if spans.len() == 0 {
        spans.push(DiagnosticSpan { summary: f.message.clone(), source: f.input.clone(), start: f.start, end: f.end, caret: 0 });
        proof {
            assert(spans_view(spans@) =~= seq![(f.message@, f.input@, f.start, f.end, 0usize)]);
        }
    }
    let summary = match &f.expression_summary {
        Some(s) => s.clone(),
        None => f.message.clone(),
    };
    ErrorDetail { summary, spans }
}

/// Adds the error of a failed format string at `path`: the message names
/// the failing interpolation, and the detail carries its spans.
pub fn report_format_string_failure(f: &FailureParts, path: &[PathElement], errors: &mut ValidationErrors)
    ensures
        final(errors).error_list().len() == old(errors).error_list().len() + 1,
        final(errors).error_list().drop_last() == old(errors).error_list(),
        failure_reported(final(errors).error_list().last(), *f, path@),
        final(errors).model_name() == old(errors).model_name(),
{
    let detail = failure_detail(f);
    let mut m = String::from_str("Failed to parse interpolation expression at [");
    append_usize(&mut m, f.start);
    m.append(", ");
    append_usize(&mut m, f.end);
    m.append("]. ");
    m.append(f.message.as_str());
    proof {
        assert(m@ =~= failure_message(*f));
    }
    errors.add_with_detail(path, m.as_str(), detail);
}

/// `e` reports the failure `f` at `path`.
pub open spec fn failure_reported(e: ValidationError, f: FailureParts, path: Seq<PathElement>) -> bool {
    &&& e.path@ == path
    &&& e.message@ == failure_message(f)
    &&& e.detail matches Some(d) && d.summary@ == failure_summary(f) && spans_view(d.spans@) == failure_spans(f)
}

// ----- the expression library -----

#[verifier::external_type_specification]
#[verifier::external_body]
pub struct ExFormatString(openjd_expr::format_string::FormatString);

#[verifier::external_type_specification]
#[verifier::external_body]
pub struct ExFormatStringValidationError(openjd_expr::format_string::FormatStringValidationError);

#[verifier::external_type_specification]
#[verifier::external_body]
pub struct ExStaticResolution(openjd_expr::format_string::StaticResolution);

#[verifier::external_type_specification]
#[verifier::external_body]
pub struct ExExprType(openjd_expr::types::ExprType);

/// How the checks tell a value apart: `null`, an integer, or another value.
pub enum ValueKind {
    Null,
    Int(i64),
    Other,
}

/// `FormatString::is_literal`: whether the format string has no
/// interpolation. Its segments are opaque here; nothing is stated.
#[verifier::external_body]
fn is_literal(fs: &FormatString) -> (r: bool) {
    fs.is_literal()
}

/// `FormatString::validate_expressions`: evaluates each interpolation
/// against the symbol table, with the library and the target type. The
/// outcome depends on the table's opaque values and is not stated.
#[verifier::external_body]
fn validate_expressions(fs: &FormatString, symtab: &SymbolTable, lib: &FunctionLibrary, target: Option<&ExprType>) -> (r: Result<StaticResolution, FormatStringValidationError>) {
    fs.validate_expressions(symtab, lib, target)
}

/// `ExprType::STRING`.
#[verifier::external_body]
fn string_type() -> (r: ExprType) {
    ExprType::STRING
}

/// `ExprType::INT`.
#[verifier::external_body]
fn int_type() -> (r: ExprType) {
    ExprType::INT
}

/// `ExprType::union` of `INT` and `NULLTYPE`.
#[verifier::external_body]
fn nullable_int_type() -> (r: ExprType) {
    ExprType::union(vec![ExprType::INT, ExprType::NULLTYPE])
}

/// `ExprType::union` of `STRING` and `NULLTYPE`.
#[verifier::external_body]
fn nullable_string_type() -> (r: ExprType) {
    ExprType::union(vec![ExprType::STRING, ExprType::NULLTYPE])
}

/// `ExprType::union` of `NULLTYPE`, `STRING` and `ExprType::list` of `STRING`.
#[verifier::external_body]
fn list_item_type() -> (r: ExprType) {
    ExprType::union(vec![ExprType::NULLTYPE, ExprType::STRING, ExprType::list(ExprType::STRING)])
}

/// `==` on `ExprType`, against `ExprType::STRING`.
#[verifier::external_body]
fn is_string_type(t: &ExprType) -> (r: bool) {
    *t == ExprType::STRING
}

/// The fields of a `StaticResolution`: its least string length, its type
/// and its value.
#[verifier::external_body]
fn resolution_fields(sr: StaticResolution) -> (r: (usize, ExprType, Option<ExprValue>)) {
    (sr.min_resolved_string_len, sr.resolved_type, sr.resolved_value)
}

/// Tells the `Null` and `Int` variants of `ExprValue` from the others.
#[verifier::external_body]
fn value_kind(v: &ExprValue) -> (r: ValueKind) {
    match v {
        ExprValue::Null => ValueKind::Null,
        ExprValue::Int(i) => ValueKind::Int(*i),
        _ => ValueKind::Other,
    }
}

/// `ExprValue::to_display_string`.
#[verifier::external_body]
fn display_string(v: &ExprValue) -> (r: String) {
    v.to_display_string()
}

/// `ExprValue::list_elements`: the elements of a list value.
#[verifier::external_body]
fn list_elements(v: &ExprValue) -> (r: Option<Vec<ExprValue>>) {
    v.list_elements()
}

/// The fields of a `FormatStringValidationError`.
#[verifier::external_body]
fn failure_fields(e: FormatStringValidationError) -> (r: (String, String, usize, usize, Option<ExpressionError>)) {
    (e.message, e.input, e.start, e.end, e.expression_error.map(|b| *b))
}

/// `ExpressionError::message`.
#[verifier::external_body]
fn expression_message(e: &ExpressionError) -> (r: String) {
    e.message()
}

/// `ExpressionError::sub_errors`, copied.
#[verifier::external_body]
fn sub_errors(e: &ExpressionError) -> (r: Vec<ExpressionError>) {
    e.sub_errors().to_vec()
}

/// `ExpressionError::expr`, `col_offset`, `end_col_offset` and
/// `caret_offset`.
#[verifier::external_body]
fn error_location(e: &ExpressionError) -> (r: (Option<String>, Option<usize>, Option<usize>, Option<usize>)) {
    (e.expr().map(|s| s.to_string()), e.col_offset(), e.end_col_offset(), e.caret_offset())
}

// ----- reading what evaluation gave -----

/// The target type that a field's resolution uses: a string; `null`, a
/// string or a list of strings for a list item; an integer, or an integer
/// or `null`; a string or `null` for a cancelation mode; none for a field
/// rendered whole.
fn target_type(c: &ResolvedConstraint) -> (r: Option<ExprType>) {
    match c {
        ResolvedConstraint::Text { .. } => Some(string_type()),
        ResolvedConstraint::TextListItem { .. } => Some(list_item_type()),
        ResolvedConstraint::Int { nullable, .. } => if *nullable {
            Some(nullable_int_type())
        } else {
            Some(int_type())
        },
        ResolvedConstraint::CancelationMode => Some(nullable_string_type()),
        ResolvedConstraint::ResolvedString { .. } => None,
        ResolvedConstraint::ArgListItem { .. } => None,
    }
}

/// A value as the checks read it: `null`, an integer with its display
/// text, a list with each element's display text (`None` for `null`), or
/// another value by its display text.
fn resolved_value_of(v: &ExprValue) -> (r: ResolvedValue) {
    match value_kind(v) {
        ValueKind::Null => ResolvedValue::Null,
        ValueKind::Int(i) => ResolvedValue::Int { value: i, display: display_string(v) },
        ValueKind::Other => match list_elements(v) {
            Some(es) => {
                let mut elements: Vec<Option<String>> = Vec::new();
                let mut i: usize = 0;
                while i < es.len()
                    invariant
                        i <= es.len(),
                    decreases es.len() - i,
                {
                    let e = &es[i];
                    match value_kind(e) {
                        ValueKind::Null => elements.push(None),
                        _ => elements.push(Some(display_string(e))),
                    }
                    i = i + 1;
                }
                ResolvedValue::List { elements, display: display_string(v) }
            },
            None => ResolvedValue::Other { display: display_string(v) },
        },
    }
}

/// What static evaluation determined, as the checks read it.
fn static_resolution_view(sr: StaticResolution) -> (r: StaticResolutionView) {
    let (len, ty, value) = resolution_fields(sr);
    let resolved_value = match &value {
        Some(v) => Some(resolved_value_of(v)),
        None => None,
    };
    StaticResolutionView { min_resolved_string_len: len, resolves_to_string: is_string_type(&ty), resolved_value }
}

/// A failed validation, by its parts.
fn failure_parts(e: FormatStringValidationError) -> (r: FailureParts) {
    let (message, input, start, end, expression_error) = failure_fields(e);
    match expression_error {
        Some(x) => {
            let all = sub_errors(&x);
            let mut subs: Vec<SubErrorParts> = Vec::new();
            let mut i: usize = 0;
            while i < all.len()
                invariant
                    i <= all.len(),
                decreases all.len() - i,
            {
                let (expr, col, end_col, caret) = error_location(&all[i]);
                subs.push(SubErrorParts { summary: expression_message(&all[i]), expr, col, end_col, caret });
                i = i + 1;
            }
            FailureParts { message, input, start, end, expression_summary: Some(expression_message(&x)), subs }
        },
        None => FailureParts { message, input, start, end, expression_summary: None, subs: Vec::new() },
    }
}

/// What validating a field found: a literal, which is not looked at; what
/// static evaluation determined; or the failing interpolation.
#[derive(Debug, Clone)]
pub enum FieldEvaluation {
    Literal,
    Resolved(StaticResolutionView),
    Failed(FailureParts),
}

/// The errors that validating a field adds for what evaluation found: none
/// for a literal; for a resolution, the constraint's errors at `path` (none
/// without a constraint); for a failure, its report at `path`.
pub open spec fn field_errors_added(
    old: Seq<ValidationError>,
    new: Seq<ValidationError>,
    path: Seq<PathElement>,
    constraint: Option<ResolvedConstraint>,
    ev: FieldEvaluation,
) -> bool {
    match ev {
        FieldEvaluation::Literal => new == old,
        FieldEvaluation::Resolved(sr) => match constraint {
            Some(c) => appended(old, new, path, resolution_errors(sr, c)),
            None => new == old,
        },
        FieldEvaluation::Failed(f) => new.len() == old.len() + 1 && new.drop_last() == old
            && failure_reported(new.last(), f, path),
    }
}

pub open spec fn opt_constraint(c: Option<&ResolvedConstraint>) -> Option<ResolvedConstraint> {
    match c {
        Some(c) => Some(*c),
        None => None,
    }
}

/// Records what validating a field found: checks a resolution against the
/// constraint, if any, or reports a failure, at `path`.
pub fn record_field_evaluation(
    ev: &FieldEvaluation,
    path: &[PathElement],
    constraint: Option<&ResolvedConstraint>,
    errors: &mut ValidationErrors,
)
    ensures
        field_errors_added(old(errors).error_list(), final(errors).error_list(), path@, opt_constraint(constraint), *ev),
        final(errors).model_name() == old(errors).model_name(),
{
    match ev {
        FieldEvaluation::Literal => {},
        FieldEvaluation::Resolved(sr) => {
            if let Some(c) = constraint {
                check_resolved_constraint(sr, c, path, errors);
            }
        },
        FieldEvaluation::Failed(f) => {
            report_format_string_failure(f, path, errors);
        },
    }
}

/// Evaluates a field: a literal is not evaluated; otherwise its
/// interpolations are evaluated toward the constraint's target type.
fn evaluate_field(fs: &FormatString, symtab: &SymbolTable, lib: &FunctionLibrary, constraint: Option<&ResolvedConstraint>) -> (r: FieldEvaluation) {
    if is_literal(fs) {
        return FieldEvaluation::Literal;
    }
    let target = match constraint {
        Some(c) => target_type(c),
        None => None,
    };
    let outcome = match &target {
        Some(t) => validate_expressions(fs, symtab, lib, Some(t)),
        None => validate_expressions(fs, symtab, lib, None),
    };
    match outcome {
        Ok(sr) => FieldEvaluation::Resolved(static_resolution_view(sr)),
        Err(e) => FieldEvaluation::Failed(failure_parts(e)),
    }
}

/// Validates a format string field against a symbol table, reporting at
/// `path`: what `record_field_evaluation` records for what evaluating the
/// field found.
pub fn validate_format_string_field(
    fs: &FormatString,
    symtab: &SymbolTable,
    lib: &FunctionLibrary,
    path: &[PathElement],
    constraint: Option<&ResolvedConstraint>,
    errors: &mut ValidationErrors,
)
    ensures
        exists|ev: FieldEvaluation| #[trigger] field_errors_added(
            old(errors).error_list(), final(errors).error_list(), path@, opt_constraint(constraint), ev),
        final(errors).model_name() == old(errors).model_name(),
{
    let ev = evaluate_field(fs, symtab, lib, constraint);
    record_field_evaluation(&ev, path, constraint, errors);
}


/// Law: a failure report always carries at least one span: without an
/// underlying expression error, exactly the span of the whole
/// interpolation, from its start to its end with the caret at 0; with one,
/// the located sub-errors' spans, or that same span when none is located.
/// Its summary is the expression error's message where there is one.
pub proof fn law_failure_spans(f: FailureParts)
    ensures
        failure_spans(f).len() >= 1,
        f.expression_summary is None ==> failure_spans(f) == seq![(f.message@, f.input@, f.start, f.end, 0usize)],
        f.expression_summary is None ==> failure_summary(f) == f.message@,
        f.expression_summary is Some ==> failure_summary(f) == f.expression_summary.unwrap()@,
        f.subs@.len() == 0 ==> failure_spans(f) == seq![(f.message@, f.input@, f.start, f.end, 0usize)],
{
    if f.subs@.len() == 0 {
        assert(sub_spans(f.subs@) == Seq::<(Seq<char>, Seq<char>, usize, usize, usize)>::empty());
    }
}

} // verus!

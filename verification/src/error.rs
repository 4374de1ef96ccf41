//! Error types: model errors and collected validation errors with the
//! paths at which they were found.

use vstd::prelude::*;
use crate::text::{append_usize, nat_text, push_char};
use openjd_expr::error::ExpressionError;

verus! {

/// An element in a validation error path.
#[derive(Debug, Clone, PartialEq, Eq)]
pub enum PathElement {
    Field(String),
    Index(usize),
}

/// The model of a path element.
pub enum PathView {
    Field(Seq<char>),
    Index(nat),
}

impl View for PathElement {
    type V = PathView;

    open spec fn view(&self) -> PathView {
        match self {
            PathElement::Field(s) => PathView::Field(s@),
            PathElement::Index(i) => PathView::Index(*i as nat),
        }
    }
}

pub open spec fn path_view(p: Seq<PathElement>) -> Seq<PathView> {
    p.map_values(|e: PathElement| e@)
}

/// A single validation error with its location in the template.
#[derive(Debug, Clone)]
pub struct ValidationError {
    /// Location of the error in the template structure.
    pub path: Vec<PathElement>,
    /// Complete human-readable error text.
    pub message: String,
    /// Structured diagnostic data, when the error has source positions.
    pub detail: Option<ErrorDetail>,
}

/// Structured diagnostic data for a validation error.
#[derive(Debug, Clone)]
pub struct ErrorDetail {
    /// Human-readable error summary without source pointers.
    pub summary: String,
    /// Character ranges in the source text where the error occurs.
    pub spans: Vec<DiagnosticSpan>,
}

/// A diagnostic span identifying a character range in source text.
#[derive(Debug, Clone)]
pub struct DiagnosticSpan {
    /// Description of the diagnostic at this source location.
    pub summary: String,
    /// The source text containing the error.
    pub source: String,
    /// Byte offset of the error start within source.
    pub start: usize,
    /// Byte offset of the error end within source.
    pub end: usize,
    /// Position of the caret relative to start.
    pub caret: usize,
}

/// Collects validation errors with structured paths.
#[derive(Debug)]
pub struct ValidationErrors {
    pub errors: Vec<ValidationError>,
    /// Model name used when displaying (set by `into_result`).
    model_name: Option<String>,
}

/// Failures during template parsing, validation, and job creation.
#[derive(Debug)]
pub enum ModelError {
    /// Structural deserialization failure (bad YAML/JSON, missing fields, wrong types).
    DecodeValidation(String),
    /// Semantic validation failure, with per-field paths.
    ModelValidation(ValidationErrors),
    /// Format string interpolation error with optional position info.
    FormatStringError {
        message: String,
        input: Option<String>,
        start: Option<usize>,
        end: Option<usize>,
    },
    /// Expression error.
    Expression(ExpressionError),
    /// Compatibility failure.
    Compatibility(String),
    /// Unsupported schema version.
    UnsupportedSchema(String),
}

/// The text of a path: fields joined by ` -> `, indices as `[i]`.
pub open spec fn path_text(p: Seq<PathView>) -> Seq<char>
    decreases p.len(),
{
    if p.len() == 0 {
        Seq::empty()
    } else {
        let pre = path_text(p.drop_last());
        match p.last() {
            PathView::Field(name) => if has_field(p.drop_last()) {
                pre + " -> "@ + name
            } else {
                pre + name
            },
            PathView::Index(i) => pre + seq!['['] + nat_text(i) + seq![']'],
        }
    }
}

/// Whether a path holds a field.
pub open spec fn has_field(p: Seq<PathView>) -> bool {
    exists|j: int| 0 <= j < p.len() && (#[trigger] p[j]) is Field
}

/// The line of one error: `<model>: <message>` at the root, otherwise
/// `<path>:` followed by the message on a tab-indented line.
pub open spec fn error_line(e: ValidationError, model: Seq<char>) -> Seq<char> {
    if e.path@.len() == 0 {
        model + ": "@ + e.message@
    } else {
        path_text(path_view(e.path@)) + ":\n\t"@ + e.message@
    }
}

pub open spec fn error_lines(es: Seq<ValidationError>, model: Seq<char>) -> Seq<char>
    decreases es.len(),
{
    if es.len() == 0 {
        Seq::empty()
    } else {
        error_lines(es.drop_last(), model) + seq!['\n'] + error_line(es.last(), model)
    }
}

/// The report of a list of errors: a count line, then one entry per error.
pub open spec fn errors_text(es: Seq<ValidationError>, model: Seq<char>) -> Seq<char> {
    nat_text(es.len()) + " validation "@ + (if es.len() == 1 { "error"@ } else { "errors"@ }) + " for "@ + model
        + error_lines(es, model)
}

/// The text of a format string error.
pub open spec fn format_string_error_text(message: Seq<char>, input: Option<String>, start: Option<usize>, end: Option<usize>) -> Seq<char> {
    match (input, start, end) {
        (Some(i), Some(s), Some(e)) => "Failed to parse interpolation expression at ["@ + nat_text(s as nat) + ", "@
            + nat_text(e as nat) + "]. "@ + message + "\n  "@ + i@,
        _ => "Format string error: "@ + message,
    }
}

/// The text of a format string error: with the interpolation's input and
/// position when all are known, else the message alone.
fn format_string_error(message: &str, input: &Option<String>, start: &Option<usize>, end: &Option<usize>) -> (r: String)
    ensures
        r@ == format_string_error_text(message@, *input, *start, *end),
{
    let mut out = String::new();
    match (input, start, end) {
        (Some(i), Some(s), Some(e)) => {
            out.append("Failed to parse interpolation expression at [");
            append_usize(&mut out, *s);
            out.append(", ");
            append_usize(&mut out, *e);
            out.append("]. ");
            out.append(message);
            out.append("\n  ");
            out.append(i.as_str());
        },
        _ => {
            out.append("Format string error: ");
            out.append(message);
        },
    }
    proof {
        assert(out@ =~= format_string_error_text(message@, *input, *start, *end));
    }
    out
}

/// A copy of a path.
pub fn copy_path(path: &[PathElement]) -> (r: Vec<PathElement>)
    ensures
        r@ == path@,
{
    let mut r: Vec<PathElement> = Vec::new();
    let mut j: usize = 0;
    while j < path.len()
        invariant
            0 <= j <= path@.len(),
            r@ == path@.take(j as int),
        decreases path@.len() - j,
    {
        let e = match &path[j] {
            PathElement::Field(s) => PathElement::Field(s.clone()),
            PathElement::Index(i) => PathElement::Index(*i),
        };
        r.push(e);
        proof {
            assert(r@ =~= path@.take(j as int + 1));
        }
        j = j + 1;
    }
    proof {
        assert(path@.take(j as int) =~= path@);
    }
    r
}

fn append_path(out: &mut String, path: &[PathElement])
    ensures
        final(out)@ == old(out)@ + path_text(path_view(path@)),
{
    let mut first = true;
    let mut j: usize = 0;
    let ghost start = out@;
    while j < path.len()
        invariant
            0 <= j <= path@.len(),
            out@ == start + path_text(path_view(path@).take(j as int)),
            first == !has_field(path_view(path@).take(j as int)),
        decreases path@.len() - j,
    {
        let ghost pv = path_view(path@);
        proof {
            assert(pv.take(j as int + 1).drop_last() =~= pv.take(j as int));
            assert(pv.take(j as int + 1).last() == path@[j as int]@);
        }
        match &path[j] {
            PathElement::Field(name) => {
                if !first {
                    out.append(" -> ");
                }
                out.append(name.as_str());
                first = false;
                proof {
                    assert(pv.take(j as int + 1)[j as int] is Field);
                    assert(pv.take(j as int + 1).last() == PathView::Field(name@));
                    assert(has_field(pv.take(j as int + 1)));
                    assert(out@ =~= start + path_text(pv.take(j as int + 1)));
                }
            },
            PathElement::Index(i) => {
                push_char(out, '[');
                append_usize(out, *i);
                push_char(out, ']');
                proof {
                    if has_field(pv.take(j as int + 1)) {
                        let q = choose|q: int| 0 <= q < pv.take(j as int + 1).len() && (#[trigger] pv.take(j as int + 1)[q]) is Field;
                        assert(q < j);
                        assert(pv.take(j as int)[q] == pv.take(j as int + 1)[q]);
                    }
                    if has_field(pv.take(j as int)) {
                        let q = choose|q: int| 0 <= q < pv.take(j as int).len() && (#[trigger] pv.take(j as int)[q]) is Field;
                        assert(pv.take(j as int)[q] == pv.take(j as int + 1)[q]);
                    }
                    assert(pv.take(j as int + 1).last() == PathView::Index(*i as nat));
                    assert(out@ =~= start + path_text(pv.take(j as int + 1)));
                }
            },
        }
        j = j + 1;
    }
    proof {
        assert(path_view(path@).take(j as int) =~= path_view(path@));
    }
}

/// `base` with the field `field` added.
pub fn path_field(base: &[PathElement], field: &str) -> (p: Vec<PathElement>)
    ensures
        p@.drop_last() == base@,
        path_view(p@) == path_view(base@).push(PathView::Field(field@)),
{
    let mut p = copy_path(base);
    let f = PathElement::Field(String::from_str(field));
    p.push(f);
    proof {
        assert(p@.drop_last() =~= base@);
        assert(path_view(p@) =~= path_view(base@).push(PathView::Field(field@)));
    }
    p
}

/// `base` with the index `index` added.
pub fn path_index(base: &[PathElement], index: usize) -> (p: Vec<PathElement>)
    ensures
        p@ == base@.push(PathElement::Index(index)),
        path_view(p@) == path_view(base@).push(PathView::Index(index as nat)),
{
    let mut p = copy_path(base);
    p.push(PathElement::Index(index));
    proof {
        assert(path_view(p@) =~= path_view(base@).push(PathView::Index(index as nat)));
    }
    p
}

impl Default for ValidationErrors {
    fn default() -> (r: ValidationErrors)
        ensures
            r.error_list().len() == 0,
            r.model_name() is None,
    {
        ValidationErrors { errors: Vec::new(), model_name: None }
    }
}

impl ValidationErrors {
    /// The errors, in the order they were added.
    pub closed spec fn error_list(&self) -> Seq<ValidationError> {
        self.errors@
    }

    /// The model name set for display, if any.
    pub closed spec fn model_name(&self) -> Option<Seq<char>> {
        match &self.model_name {
            Some(s) => Some(s@),
            None => None,
        }
    }

    /// The name the errors are displayed for: the model name set by
    /// `into_result`, else `Template`.
    pub open spec fn display_name(&self) -> Seq<char> {
        match self.model_name() {
            Some(s) => s,
            None => "Template"@,
        }
    }

    /// No errors.
    pub fn new() -> (r: ValidationErrors)
        ensures
            r.error_list().len() == 0,
            r.model_name() is None,
    {
        ValidationErrors { errors: Vec::new(), model_name: None }
    }

    /// One root-level error with the message `msg`.
    pub fn single(msg: &str) -> (r: ValidationErrors)
        ensures
            r.error_list().len() == 1,
            r.error_list()[0].path@.len() == 0,
            r.error_list()[0].message@ == msg@,
            r.error_list()[0].detail is None,
            r.model_name() is None,
    {
        let mut ve = ValidationErrors::new();
        ve.add(&[], msg);
        ve
    }

    /// Adds an error at `path`.
    pub fn add(&mut self, path: &[PathElement], msg: &str)
        ensures
            final(self).error_list().len() == old(self).error_list().len() + 1,
            final(self).error_list().drop_last() == old(self).error_list(),
            final(self).error_list().last().path@ == path@,
            final(self).error_list().last().message@ == msg@,
            final(self).error_list().last().detail is None,
            final(self).model_name() == old(self).model_name(),
    {
        let e = ValidationError { path: copy_path(path), message: String::from_str(msg), detail: None };
        self.errors.push(e);
        proof {
            assert(self.errors@.drop_last() =~= old(self).error_list());
        }
    }

    /// Adds an error at `path` with structured diagnostic detail.
    pub fn add_with_detail(&mut self, path: &[PathElement], msg: &str, detail: ErrorDetail)
        ensures
            final(self).error_list().len() == old(self).error_list().len() + 1,
            final(self).error_list().drop_last() == old(self).error_list(),
            final(self).error_list().last().path@ == path@,
            final(self).error_list().last().message@ == msg@,
            final(self).error_list().last().detail == Some(detail),
            final(self).model_name() == old(self).model_name(),
    {
        let e = ValidationError { path: copy_path(path), message: String::from_str(msg), detail: Some(detail) };
        self.errors.push(e);
        proof {
            assert(self.errors@.drop_last() =~= old(self).error_list());
        }
    }

    pub fn is_empty(&self) -> (b: bool)
        ensures
            b == (self.error_list().len() == 0),
    {
        self.errors.len() == 0
    }

    pub fn len(&self) -> (n: usize)
        ensures
            n == self.error_list().len(),
    {
        self.errors.len()
    }

    /// `Ok` when there are no errors, else a model validation error that
    /// displays the errors for `model_name`.
    pub fn into_result(self, model_name: &str) -> (r: Result<(), ModelError>)
        ensures
            self.error_list().len() == 0 <==> r is Ok,
            r matches Err(ModelError::ModelValidation(ve)) ==> ve.error_list() == self.error_list() && ve.model_name() == Some(model_name@),
            r is Err ==> r matches Err(ModelError::ModelValidation(_)),
    {
        if self.errors.len() == 0 {
            Ok(())
        } else {
            Err(ModelError::ModelValidation(self.with_model_name(model_name)))
        }
    }

    /// The same errors, to be displayed for the model `name`.
    pub fn with_model_name(self, name: &str) -> (r: ValidationErrors)
        ensures
            r.error_list() == self.error_list(),
            r.model_name() == Some(name@),
    {
        ValidationErrors { errors: self.errors, model_name: Some(String::from_str(name)) }
    }

    /// The report of the errors for `model_name`: a line
    /// `<n> validation error(s) for <model_name>`, then one entry per error.
    pub fn format(&self, model_name: &str) -> (s: String)
        ensures
            s@ == errors_text(self.error_list(), model_name@),
    {
        let n = self.errors.len();
        let mut out = String::new();
        append_usize(&mut out, n);
        out.append(" validation ");
        if n == 1 {
            out.append("error");
        } else {
            out.append("errors");
        }
        out.append(" for ");
        out.append(model_name);
        let ghost head = out@;
        let mut j: usize = 0;
        while j < self.errors.len()
            invariant
                0 <= j <= self.errors@.len(),
                out@ == head + error_lines(self.errors@.take(j as int), model_name@),
            decreases self.errors@.len() - j,
        {
            let err = &self.errors[j];
            push_char(&mut out, '\n');
            if err.path.len() == 0 {
                out.append(model_name);
                out.append(": ");
                out.append(err.message.as_str());
            } else {
                append_path(&mut out, err.path.as_slice());
                out.append(":\n\t");
                out.append(err.message.as_str());
            }
            proof {
                let es = self.errors@;
                assert(es.take(j as int + 1).drop_last() =~= es.take(j as int));
                assert(es.take(j as int + 1).last() == es[j as int]);
                assert(out@ =~= head + error_lines(es.take(j as int + 1), model_name@));
            }
            j = j + 1;
        }
        proof {
            assert(self.errors@.take(j as int) =~= self.errors@);
            assert(out@ =~= errors_text(self.errors@, model_name@));
        }
        out
    }

    /// The text the errors display as: their report for the model name set
    /// by `into_result`, or for `Template`.
    pub fn to_text(&self) -> (s: String)
        ensures
            s@ == errors_text(self.error_list(), self.display_name()),
    {
        match &self.model_name {
            Some(name) => self.format(name.as_str()),
            None => self.format("Template"),
        }
    }
}

impl ModelError {
    /// The text the error displays as.
    pub open spec fn text(&self) -> Seq<char> {
        match self {
            ModelError::DecodeValidation(m) => "Validation error: "@ + m@,
            ModelError::ModelValidation(ve) => "Model validation error: "@ + errors_text(ve.error_list(), ve.display_name()),
            ModelError::FormatStringError { message, input, start, end } =>
                format_string_error_text(message@, *input, *start, *end),
            ModelError::Expression(_) => "Expression error: "@,
            ModelError::Compatibility(m) => "Compatibility error: "@ + m@,
            ModelError::UnsupportedSchema(m) => "Unsupported schema version: "@ + m@,
        }
    }

    /// The text the error displays as.
    pub fn to_text(&self) -> (s: String)
        ensures
            !(self is Expression) ==> s@ == self.text(),
            self is Expression ==> s@.len() >= self.text().len() && s@.take(self.text().len() as int) == self.text(),
    {
        let mut out = String::new();
        match self {
            ModelError::DecodeValidation(m) => {
                out.append("Validation error: ");
                out.append(m.as_str());
            },
            ModelError::ModelValidation(ve) => {
                out.append("Model validation error: ");
                let t = ve.to_text();
                out.append(t.as_str());
            },
            ModelError::FormatStringError { message, input, start, end } => {
                let t = format_string_error(message.as_str(), input, start, end);
                out.append(t.as_str());
            },
            ModelError::Expression(e) => {
                out.append("Expression error: ");
                let t = expression_error_display(e);
                out.append(t.as_str());
            },
            ModelError::Compatibility(m) => {
                out.append("Compatibility error: ");
                out.append(m.as_str());
            },
            ModelError::UnsupportedSchema(m) => {
                out.append("Unsupported schema version: ");
                out.append(m.as_str());
            },
        }
        proof {
            if self is Expression {
                assert(out@.take(self.text().len() as int) =~= self.text());
            } else {
                assert(out@ =~= self.text());
            }
        }
        out
    }
}

/// The `Display` text of an `ExpressionError` (its message, with a caret
/// line where it has a position). The text is not stated.
#[verifier::external_body]
fn expression_error_display(e: &ExpressionError) -> (r: String) {
    format!("{e}")
}


/// Law: how a path reads: an index appends `[i]`; a field appends its name,
/// after ` -> ` once the path holds a field; the empty path reads as nothing.
pub proof fn law_path_text(p: Seq<PathView>, name: Seq<char>, i: nat)
    ensures
        path_text(Seq::empty()) == Seq::<char>::empty(),
        path_text(p.push(PathView::Index(i))) == path_text(p) + seq!['['] + nat_text(i) + seq![']'],
        has_field(p) ==> path_text(p.push(PathView::Field(name))) == path_text(p) + " -> "@ + name,
        !has_field(p) ==> path_text(p.push(PathView::Field(name))) == path_text(p) + name,
{
    assert(p.push(PathView::Index(i)).drop_last() =~= p);
    assert(p.push(PathView::Field(name)).drop_last() =~= p);
}

/// Law: a report starts with the number of errors, `error` or `errors` as
/// that number asks, and the model name; a root error then reads
/// `<model>: <message>`, and one at a path reads `<path>:`, a new line, a tab
/// and the message, each on a line of its own.
pub proof fn law_errors_text(es: Seq<ValidationError>, e: ValidationError, model: Seq<char>)
    ensures
        errors_text(es, model).take((nat_text(es.len()) + " validation "@).len() as int)
            == nat_text(es.len()) + " validation "@,
        errors_text(seq![e], model) == "1 validation error for "@ + model + seq!['\n']
            + (if e.path@.len() == 0 { model + ": "@ + e.message@ } else {
                path_text(path_view(e.path@)) + ":\n\t"@ + e.message@ }),
        es.len() != 1 ==> errors_text(es, model) == nat_text(es.len()) + " validation errors for "@ + model
            + error_lines(es, model),
        error_lines(es.push(e), model) == error_lines(es, model) + seq!['\n'] + error_line(e, model),
{
    reveal_strlit("1 validation error for ");
    reveal_strlit(" validation ");
    reveal_strlit("error");
    reveal_strlit(" for ");
    reveal_strlit(" validation errors for ");
    reveal_strlit("errors");
    let pre = nat_text(es.len()) + " validation "@;
    assert(errors_text(es, model).take(pre.len() as int) =~= pre);
    assert(seq![e].drop_last() =~= Seq::<ValidationError>::empty());
    assert(nat_text(1) =~= seq!['1']);
    assert(error_lines(seq![e].drop_last(), model) == Seq::<char>::empty());
    assert(error_lines(seq![e], model) =~= seq!['\n'] + error_line(e, model));
    assert(nat_text(1) + " validation "@ + "error"@ + " for "@ =~= "1 validation error for "@);
    assert(errors_text(seq![e], model) =~= "1 validation error for "@ + model + seq!['\n']
        + (if e.path@.len() == 0 { model + ": "@ + e.message@ } else {
            path_text(path_view(e.path@)) + ":\n\t"@ + e.message@ }));
    if es.len() != 1 {
        assert(errors_text(es, model) =~= nat_text(es.len()) + " validation errors for "@ + model
            + error_lines(es, model));
    }
    assert(es.push(e).drop_last() =~= es);
}

} // verus!

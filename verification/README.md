# openjd_model

A verified library for the Open Job Description model: the parameter space
of a step (products and associations of task parameters, random access,
iteration, static and adaptive chunking, containment), constrained strings,
job parameter definitions and their checks, validation of format string
fields (static evaluation, the constraints on what it determines, and the
report of a failing interpolation), `let` binding validation, the checks on
resolved host requirement attribute lists, and validation error reports.

Layout:

- `src/` — the library, written and proved with Verus. Contracts are stated
  over spec functions. Where a result comes from the expression library,
  a verified function takes that result as plain values and states exactly
  what is done with it (`outcome_message_list`, `record_field_evaluation`);
  the functions that make the calls state what holds of every result,
  which for evaluation against a symbol table is only its shape. The `law_*` proof functions state properties that relate several
  functions: iteration agrees with random access; in an unchunked space whose parameter
  names are distinct and all used, every set that random access gives is
  contained in the space; chunks cover the values, and the static chunks of a
  segment tile it in order with sizes differing by at most one; a valid definition's
  default meets its constraints; decimal text parses back to its integer.
- `tests/` — tests that run the library with its outside crates linked.
- `app/` — what stays outside the proofs: reading YAML and JSON documents,
  serde forms of the library's types, FLOAT parameters and host requirement
  amounts (floating point), and the `Iterator` and `Display` views of its
  values.

Outside crates called from the library: `openjd-expr` (range expressions,
expression parsing and evaluation, static evaluation of format strings), `indexmap` (the
ordered map of task parameter definitions) and `regex` (the identifier and
extension-name patterns).

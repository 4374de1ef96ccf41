//! Document formats and the messages of template decoding.

use vstd::prelude::*;

verus! {

/// The format of a template document.
#[derive(Debug, Clone, Copy, PartialEq, Eq, Structural)]
pub enum DocumentType {
    Json,
    Yaml,
}

/// Greatest structural nesting depth of a template document.
pub const MAX_DOCUMENT_DEPTH: usize = 128;

/// The message for a parameter type name written in another case than the
/// specification's, while type names are case-sensitive.
pub open spec fn canonical_case_text(kind: Seq<char>, written: Seq<char>, canonical: Seq<char>) -> Seq<char> {
    kind + " type '"@ + written
        + "' is not recognized. Type names are case-sensitive without the EXPR extension; expected '"@
        + canonical + "'."@
}

/// Builds the message for a type name spelled `written` where the
/// specification spells it `canonical`; `kind` names what the type is of.
pub fn canonical_case_message(kind: &str, written: &str, canonical: &str) -> (s: String)
    ensures
        s@ == canonical_case_text(kind@, written@, canonical@),
{
    let mut s = String::from_str(kind);
    s.append(" type '");
    s.append(written);
    s.append("' is not recognized. Type names are case-sensitive without the EXPR extension; expected '");
    s.append(canonical);
    s.append("'.");
    proof {
        assert(s@ =~= canonical_case_text(kind@, written@, canonical@));
    }
    s
}

} // verus!

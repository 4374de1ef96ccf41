//! Constrained string types: identifiers, descriptions and extension names.

use vstd::prelude::*;
use crate::error::ModelError;
use crate::text::{append_usize, nat_text, str_chars};

verus! {

/// Most bytes an identifier may hold.
pub const IDENTIFIER_MAX_BYTES: usize = 512;

/// Most characters a description may hold.
pub const DESCRIPTION_MAX_CHARS: usize = 2048;

/// A letter of the ASCII alphabet or an underscore.
pub open spec fn ident_start_char(c: char) -> bool {
    ('A' <= c && c <= 'Z') || ('a' <= c && c <= 'z') || c == '_'
}

/// A character that may follow the first one of an identifier.
pub open spec fn ident_rest_char(c: char) -> bool {
    ident_start_char(c) || ('0' <= c && c <= '9')
}

/// The identifier grammar `[A-Za-z_][A-Za-z0-9_]*` matched by the whole text.
pub open spec fn identifier_shape(s: Seq<char>) -> bool {
    &&& s.len() >= 1
    &&& ident_start_char(s[0])
    &&& forall|i: int| 1 <= i < s.len() ==> #[trigger] ident_rest_char(s[i])
}

/// A character of an extension name: upper-case ASCII letter, digit or underscore.
pub open spec fn extension_char(c: char) -> bool {
    ('A' <= c && c <= 'Z') || ('0' <= c && c <= '9') || c == '_'
}

/// The extension-name grammar `[A-Z_0-9]{3,128}` matched by the whole text.
pub open spec fn extension_shape(s: Seq<char>) -> bool {
    &&& 3 <= s.len() <= 128
    &&& forall|i: int| 0 <= i < s.len() ==> #[trigger] extension_char(s[i])
}

/// The Unicode general category Cc: U+0000..=U+001F and U+007F..=U+009F.
pub open spec fn control_char(c: char) -> bool {
    (c as u32) <= 0x1f || (0x7f <= (c as u32) && (c as u32) <= 0x9f)
}

/// A control character other than newline, carriage return and tab.
pub open spec fn forbidden_in_description(c: char) -> bool {
    control_char(c) && c != '\n' && c != '\r' && c != '\t'
}

/// Whether a description holds a forbidden control character.
pub open spec fn has_forbidden_control(s: Seq<char>) -> bool {
    exists|i: int| 0 <= i < s.len() && #[trigger] forbidden_in_description(s[i])
}

/// Whether an identifier of `n` bytes has an admissible length.
pub open spec fn identifier_length_ok(n: int) -> bool {
    1 <= n <= IDENTIFIER_MAX_BYTES
}

/// The message for an identifier of `n` bytes whose length is refused.
pub open spec fn identifier_length_message(n: nat) -> Seq<char> {
    "Identifier length must be 1..=512, got "@ + nat_text(n)
}

/// The message for an identifier that breaks the grammar.
pub open spec fn identifier_pattern_message(s: Seq<char>) -> Seq<char> {
    "Identifier '"@ + s + "' does not match pattern [A-Za-z_][A-Za-z0-9_]*"@
}

/// The message for an extension name that breaks the grammar.
pub open spec fn extension_name_message(s: Seq<char>) -> Seq<char> {
    "Extension name '"@ + s + "' does not match pattern [A-Z_0-9]{3,128}"@
}

/// The message for an over-long description.
pub open spec fn description_length_message() -> Seq<char> {
    "Description exceeds 2048 characters"@
}

/// The message for a description with a forbidden control character.
pub open spec fn description_control_message() -> Seq<char> {
    "Description contains control characters"@
}

/// Whether `s` is a valid identifier: 1..=512 bytes and the identifier grammar.
pub open spec fn identifier_valid(s: &str) -> bool {
    identifier_length_ok(s.len() as int) && identifier_shape(s@)
}

/// Whether `s` is a valid description: at most 2048 characters and no
/// control character but newline, carriage return and tab.
pub open spec fn description_valid(s: Seq<char>) -> bool {
    s.len() <= DESCRIPTION_MAX_CHARS && !has_forbidden_control(s)
}

/// `regex::Regex::new` on `pattern`, then `Regex::is_match` on `s`.
/// The two patterns the library uses are anchored at both ends (`^` and `$`
/// match only at the start and end of the text), so the claim is that the
/// call tells whether the whole text belongs to the grammar the pattern
/// writes: `^[A-Za-z_][A-Za-z0-9_]*$` or `^[A-Z_0-9]{3,128}$`. Both
/// patterns compile, so `Regex::new` does not fail on them.
#[verifier::external_body]
fn pattern_matches(pattern: &str, s: &str) -> (b: bool)
    requires
        pattern@ == "^[A-Za-z_][A-Za-z0-9_]*$"@ || pattern@ == "^[A-Z_0-9]{3,128}$"@,
    ensures
        pattern@ == "^[A-Za-z_][A-Za-z0-9_]*$"@ ==> b == identifier_shape(s@),
        pattern@ == "^[A-Z_0-9]{3,128}$"@ ==> b == extension_shape(s@),
{
    regex::Regex::new(pattern).unwrap().is_match(s)
}

/// Whether the character is in the Unicode general category Cc, which is
/// exactly U+0000..=U+001F and U+007F..=U+009F (what `char::is_control`
/// tests).
pub(crate) fn is_control(c: char) -> (b: bool)
    ensures
        b == control_char(c),
{
    let x = c as u32;
    x <= 0x1f || (0x7f <= x && x <= 0x9f)
}

/// An identifier: `[A-Za-z_][A-Za-z0-9_]*`, 1..=512 bytes long.
#[derive(Debug, Clone, PartialEq, Eq, Hash)]
pub struct Identifier(pub String);

impl Identifier {
    /// Checks the length and then the grammar; the error names the first
    /// rule broken.
    pub fn new(s: &str) -> (r: Result<Identifier, ModelError>)
        ensures
            r is Ok <==> identifier_valid(s),
            r matches Ok(id) ==> id.0@ == s@,
            r matches Err(e) ==> (e matches ModelError::DecodeValidation(m) && m@ == (
                if !identifier_length_ok(s.len() as int) {
                    identifier_length_message(s.len() as nat)
                } else {
                    identifier_pattern_message(s@)
                })),
    {
        let n = s.len();
        if n == 0 || n > IDENTIFIER_MAX_BYTES {
            let mut m = String::from_str("Identifier length must be 1..=512, got ");
            append_usize(&mut m, n);
            return Err(ModelError::DecodeValidation(m));
        }
        if !pattern_matches("^[A-Za-z_][A-Za-z0-9_]*$", s) {
            let mut m = String::from_str("Identifier '");
            m.append(s);
            m.append("' does not match pattern [A-Za-z_][A-Za-z0-9_]*");
            proof {
                assert(m@ =~= identifier_pattern_message(s@));
            }
            return Err(ModelError::DecodeValidation(m));
        }
        Ok(Identifier(String::from_str(s)))
    }

    /// The identifier's text.
    pub fn as_str(&self) -> (r: &str)
        ensures
            r@ == self.0@,
    {
        self.0.as_str()
    }
}

/// A description: at most 2048 characters, no control characters but
/// newline, carriage return and tab.
#[derive(Debug, Clone, PartialEq, Eq)]
pub struct Description(pub String);

impl Description {
    /// Checks the length in characters and then the characters; the error
    /// names the first rule broken.
    pub fn new(s: &str) -> (r: Result<Description, ModelError>)
        ensures
            r is Ok <==> description_valid(s@),
            r matches Ok(d) ==> d.0@ == s@,
            r matches Err(e) ==> (e matches ModelError::DecodeValidation(m) && m@ == (
                if s@.len() > DESCRIPTION_MAX_CHARS {
                    description_length_message()
                } else {
                    description_control_message()
                })),
    {
        let cs = str_chars(s);
        if cs.len() > DESCRIPTION_MAX_CHARS {
            return Err(ModelError::DecodeValidation(String::from_str("Description exceeds 2048 characters")));
        }
        let mut i: usize = 0;
        while i < cs.len()
            invariant
                i <= cs.len(),
                cs.len() <= DESCRIPTION_MAX_CHARS,
                cs@ == s@,
                forall|j: int| 0 <= j < i ==> !#[trigger] forbidden_in_description(cs@[j]),
            decreases cs.len() - i,
        {
            let c = cs[i];
            if is_control(c) && c != '\n' && c != '\r' && c != '\t' {
                assert(forbidden_in_description(s@[i as int]));
                return Err(ModelError::DecodeValidation(String::from_str("Description contains control characters")));
            }
            i = i + 1;
        }
        Ok(Description(String::from_str(s)))
    }
}

/// An extension name: `[A-Z_0-9]{3,128}`.
#[derive(Debug, Clone, PartialEq, Eq, Hash)]
pub struct ExtensionName(pub String);

impl ExtensionName {
    /// Checks the grammar.
    pub fn new(s: &str) -> (r: Result<ExtensionName, ModelError>)
        ensures
            r is Ok <==> extension_shape(s@),
            r matches Ok(x) ==> x.0@ == s@,
            r matches Err(e) ==> (e matches ModelError::DecodeValidation(m)
                && m@ == extension_name_message(s@)),
    {
        if !pattern_matches("^[A-Z_0-9]{3,128}$", s) {
            let mut m = String::from_str("Extension name '");
            m.append(s);
            m.append("' does not match pattern [A-Z_0-9]{3,128}");
            proof {
                assert(m@ =~= extension_name_message(s@));
            }
            return Err(ModelError::DecodeValidation(m));
        }
        Ok(ExtensionName(String::from_str(s)))
    }

    /// The extension name's text.
    pub fn as_str(&self) -> (r: &str)
        ensures
            r@ == self.0@,
    {
        self.0.as_str()
    }
}


/// Law: an identifier is accepted exactly when it is 1 to 512 bytes long,
/// starts with an ASCII letter or an underscore, and goes on with ASCII
/// letters, digits and underscores only.
pub proof fn law_identifier_grammar(s: &str)
    ensures
        identifier_valid(s) <==> (1 <= s.len() <= 512 && s@.len() >= 1
            && (('A' <= s@[0] && s@[0] <= 'Z') || ('a' <= s@[0] && s@[0] <= 'z') || s@[0] == '_')
            && forall|i: int| 1 <= i < s@.len() ==> (('A' <= #[trigger] s@[i] && s@[i] <= 'Z')
                || ('a' <= s@[i] && s@[i] <= 'z') || ('0' <= s@[i] && s@[i] <= '9') || s@[i] == '_')),
{
    if identifier_shape(s@) {
        assert forall|i: int| 1 <= i < s@.len() implies (('A' <= #[trigger] s@[i] && s@[i] <= 'Z')
            || ('a' <= s@[i] && s@[i] <= 'z') || ('0' <= s@[i] && s@[i] <= '9') || s@[i] == '_') by {
            assert(ident_rest_char(s@[i]));
        }
    }
    if s@.len() >= 1 && (forall|i: int| 1 <= i < s@.len() ==> (('A' <= #[trigger] s@[i] && s@[i] <= 'Z')
        || ('a' <= s@[i] && s@[i] <= 'z') || ('0' <= s@[i] && s@[i] <= '9') || s@[i] == '_')) {
        assert forall|i: int| 1 <= i < s@.len() implies #[trigger] ident_rest_char(s@[i]) by {}
    }
}

/// Law: an extension name is accepted exactly when it is 3 to 128
/// characters of upper-case ASCII letters, digits and underscores.
pub proof fn law_extension_name_grammar(s: Seq<char>)
    ensures
        extension_shape(s) <==> (3 <= s.len() <= 128
            && forall|i: int| 0 <= i < s.len() ==> (('A' <= #[trigger] s[i] && s[i] <= 'Z')
                || ('0' <= s[i] && s[i] <= '9') || s[i] == '_')),
{
    if extension_shape(s) {
        assert forall|i: int| 0 <= i < s.len() implies (('A' <= #[trigger] s[i] && s[i] <= 'Z')
            || ('0' <= s[i] && s[i] <= '9') || s[i] == '_') by {
            assert(extension_char(s[i]));
        }
    }
    if forall|i: int| 0 <= i < s.len() ==> (('A' <= #[trigger] s[i] && s[i] <= 'Z')
        || ('0' <= s[i] && s[i] <= '9') || s[i] == '_') {
        assert forall|i: int| 0 <= i < s.len() implies #[trigger] extension_char(s[i]) by {}
    }
}

/// Law: a description is accepted exactly when it has at most 2048
/// characters and no control character (U+0000 to U+001F, U+007F to U+009F)
/// other than newline, carriage return and tab.
pub proof fn law_description_rules(s: Seq<char>)
    ensures
        description_valid(s) <==> (s.len() <= 2048 && forall|i: int| 0 <= i < s.len() ==>
            !(((#[trigger] s[i] as u32) <= 0x1f || (0x7f <= (s[i] as u32) && (s[i] as u32) <= 0x9f))
                && s[i] != '\n' && s[i] != '\r' && s[i] != '\t')),
{
    if description_valid(s) {
        assert forall|i: int| 0 <= i < s.len() implies
            !(((#[trigger] s[i] as u32) <= 0x1f || (0x7f <= (s[i] as u32) && (s[i] as u32) <= 0x9f))
                && s[i] != '\n' && s[i] != '\r' && s[i] != '\t') by {
            assert(!forbidden_in_description(s[i]));
        }
    }
    if !description_valid(s) && s.len() <= 2048 {
        let i = choose|i: int| 0 <= i < s.len() && #[trigger] forbidden_in_description(s[i]);
        assert(((s[i] as u32) <= 0x1f || (0x7f <= (s[i] as u32) && (s[i] as u32) <= 0x9f))
            && s[i] != '\n' && s[i] != '\r' && s[i] != '\t');
    }
}

} // verus!

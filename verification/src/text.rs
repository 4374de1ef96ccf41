//! Text building blocks: decimal rendering of integers and appending
//! characters to strings.

use vstd::prelude::*;

verus! {

/// The character of a decimal digit `d` (0..=9).
pub open spec fn digit_char(d: int) -> char {
    (('0' as int) + d) as char
}

/// Decimal rendering of a natural number, most significant digit first.
pub open spec fn nat_text(n: nat) -> Seq<char>
    decreases n,
{
    if n < 10 {
        seq![digit_char(n as int)]
    } else {
        nat_text(n / 10).push(digit_char((n % 10) as int))
    }
}

/// Decimal rendering of an integer: a leading `-` for negative values.
pub open spec fn int_text(n: int) -> Seq<char> {
    if n < 0 {
        seq!['-'] + nat_text((-n) as nat)
    } else {
        nat_text(n as nat)
    }
}

/// Appends one character to a string.
#[verifier::external_body]
pub(crate) fn push_char(s: &mut String, c: char)
    ensures
        final(s)@ == old(s)@.push(c),
{
    s.push(c);
}

fn digit(d: u64) -> (c: char)
    requires
        d < 10,
    ensures
        c == digit_char(d as int),
{
    if d == 0 { '0' }
    else if d == 1 { '1' }
    else if d == 2 { '2' }
    else if d == 3 { '3' }
    else if d == 4 { '4' }
    else if d == 5 { '5' }
    else if d == 6 { '6' }
    else if d == 7 { '7' }
    else if d == 8 { '8' }
    else { '9' }
}

/// Appends the decimal rendering of `n` to `out`.
pub fn append_u64(out: &mut String, n: u64)
    ensures
        final(out)@ == old(out)@ + nat_text(n as nat),
    decreases n,
{
    if n < 10 {
        push_char(out, digit(n));
        assert(nat_text(n as nat) == seq![digit_char(n as int)]);
    } else {
        append_u64(out, n / 10);
        push_char(out, digit(n % 10));
        assert(old(out)@ + nat_text(n as nat) =~= old(out)@ + nat_text((n / 10) as nat) + seq![digit_char((n % 10) as int)]);
    }
}

/// Appends the decimal rendering of `n` (with a `-` when negative) to `out`.
pub fn append_i64(out: &mut String, n: i64)
    ensures
        final(out)@ == old(out)@ + int_text(n as int),
{
    if n < 0 {
        push_char(out, '-');
        let m: u64 = ((-(n + 1)) as u64) + 1;
        assert(m as int == -(n as int));
        append_u64(out, m);
        assert(old(out)@ + int_text(n as int) =~= old(out)@.push('-') + nat_text(m as nat));
    } else {
        append_u64(out, n as u64);
    }
}

/// Appends the decimal rendering of `n` to `out`.
pub fn append_usize(out: &mut String, n: usize)
    ensures
        final(out)@ == old(out)@ + nat_text(n as nat),
{
    append_u64(out, n as u64);
}

/// The decimal rendering of `n`.
pub fn i64_text(n: i64) -> (s: String)
    ensures
        s@ == int_text(n as int),
{
    let mut s = String::new();
    append_i64(&mut s, n);
    assert(s@ =~= int_text(n as int));
    s
}

/// Whether a character has the Unicode `White_Space` property (what
/// `char::is_whitespace` tests): U+0009..=U+000D, U+0020, U+0085, U+00A0,
/// U+1680, U+2000..=U+200A, U+2028, U+2029, U+202F, U+205F and U+3000.
pub open spec fn char_is_whitespace(c: char) -> bool {
    let x = c as u32;
    ||| 0x09 <= x <= 0x0d
    ||| x == 0x20
    ||| x == 0x85
    ||| x == 0xa0
    ||| x == 0x1680
    ||| 0x2000 <= x <= 0x200a
    ||| x == 0x2028
    ||| x == 0x2029
    ||| x == 0x202f
    ||| x == 0x205f
    ||| x == 0x3000
}

/// Whether a character has the Unicode `White_Space` property.
pub(crate) fn is_whitespace(c: char) -> (b: bool)
    ensures
        b == char_is_whitespace(c),
{
    let x = c as u32;
    (0x09 <= x && x <= 0x0d) || x == 0x20 || x == 0x85 || x == 0xa0 || x == 0x1680
        || (0x2000 <= x && x <= 0x200a) || x == 0x2028 || x == 0x2029 || x == 0x202f
        || x == 0x205f || x == 0x3000
}

/// The characters of a string, collected with `str::chars`.
#[verifier::external_body]
pub(crate) fn str_chars(s: &str) -> (r: Vec<char>)
    ensures
        r@ == s@,
{
    s.chars().collect()
}

/// A one-character string.
pub fn char_string(c: char) -> (s: String)
    ensures
        s@ == seq![c],
{
    let mut s = String::new();
    push_char(&mut s, c);
    proof {
        assert(s@ =~= seq![c]);
    }
    s
}

/// Whether a character is an ASCII decimal digit.
pub open spec fn is_digit(c: char) -> bool {
    '0' <= c && c <= '9'
}

/// The value of a decimal digit character.
pub open spec fn digit_value(c: char) -> int {
    (c as int) - ('0' as int)
}

/// Whether every character of `s` is a decimal digit.
pub open spec fn all_digits(s: Seq<char>) -> bool {
    forall|i: int| 0 <= i < s.len() ==> #[trigger] is_digit(s[i])
}

/// The value of a string of decimal digits, most significant first.
pub open spec fn digits_value(s: Seq<char>) -> int
    decreases s.len(),
{
    if s.len() == 0 {
        0
    } else {
        10 * digits_value(s.drop_last()) + digit_value(s.last())
    }
}

/// The integer a decimal text denotes: an optional `+` or `-`, then at
/// least one digit, and nothing else.
pub open spec fn decimal_value(s: Seq<char>) -> Option<int> {
    if s.len() > 0 && (s[0] == '+' || s[0] == '-') {
        let d = s.skip(1);
        if d.len() > 0 && all_digits(d) {
            Some(if s[0] == '-' { -digits_value(d) } else { digits_value(d) })
        } else {
            None
        }
    } else if s.len() > 0 && all_digits(s) {
        Some(digits_value(s))
    } else {
        None
    }
}

/// What `str::parse::<i64>` gives: the decimal value when it fits in an `i64`.
pub open spec fn i64_parse(s: Seq<char>) -> Option<i64> {
    match decimal_value(s) {
        Some(v) => if i64::MIN <= v <= i64::MAX { Some(v as i64) } else { None },
        None => None,
    }
}

/// A string of digits has a non-negative value.
pub proof fn lemma_digits_value_nonneg(s: Seq<char>)
    requires
        all_digits(s),
    ensures
        digits_value(s) >= 0,
    decreases s.len(),
{
    if s.len() > 0 {
        assert(all_digits(s.drop_last())) by {
            assert forall|i: int| 0 <= i < s.drop_last().len() implies #[trigger] is_digit(s.drop_last()[i]) by {
                assert(is_digit(s[i]));
            }
        }
        lemma_digits_value_nonneg(s.drop_last());
        assert(is_digit(s[s.len() - 1]));
    }
}

/// The value of a prefix of a string of digits is at most the value of the whole.
pub proof fn lemma_digits_value_prefix(s: Seq<char>, k: int)
    requires
        all_digits(s),
        0 <= k <= s.len(),
    ensures
        digits_value(s.take(k)) <= digits_value(s),
    decreases s.len(),
{
    if k < s.len() {
        let t = s.drop_last();
        assert(all_digits(t)) by {
            assert forall|i: int| 0 <= i < t.len() implies #[trigger] is_digit(t[i]) by {
                assert(is_digit(s[i]));
            }
        }
        lemma_digits_value_prefix(t, k);
        assert(t.take(k) =~= s.take(k));
        lemma_digits_value_nonneg(t);
        assert(is_digit(s[s.len() - 1]));
    } else {
        assert(s.take(k) =~= s);
    }
}

/// The decimal rendering of a natural number is a non-empty string of
/// digits whose value is the number.
pub proof fn lemma_nat_text_digits(n: nat)
    ensures
        nat_text(n).len() > 0,
        all_digits(nat_text(n)),
        digits_value(nat_text(n)) == n,
    decreases n,
{
    if n >= 10 {
        lemma_nat_text_digits(n / 10);
        let t = nat_text(n);
        let d = digit_char((n % 10) as int);
        assert(t == nat_text(n / 10).push(d));
        assert(t.drop_last() =~= nat_text(n / 10));
        assert(digit_value(d) == n % 10);
        assert(10 * (n / 10) + n % 10 == n);
        assert(digits_value(t) == 10 * digits_value(t.drop_last()) + digit_value(t.last()));
        assert forall|i: int| 0 <= i < t.len() implies #[trigger] is_digit(t[i]) by {
            if i < t.len() - 1 {
                assert(t[i] == nat_text(n / 10)[i]);
            }
        }
    } else {
        let t = nat_text(n);
        assert(t == seq![digit_char(n as int)]);
        assert(t.drop_last() =~= Seq::<char>::empty());
        assert(digit_value(digit_char(n as int)) == n);
        assert(digits_value(t) == 10 * digits_value(t.drop_last()) + digit_value(t.last()));
        assert(is_digit(t[0]));
    }
}

/// Law: the decimal rendering of an `i64` parses back to the same `i64`.
pub proof fn law_i64_text_parses_back(x: i64)
    ensures
        i64_parse(int_text(x as int)) == Some(x),
{
    if x < 0 {
        let m = (-(x as int)) as nat;
        lemma_nat_text_digits(m);
        let s = int_text(x as int);
        assert(s == seq!['-'] + nat_text(m));
        assert(s.skip(1) =~= nat_text(m));
        assert(s[0] == '-');
    } else {
        lemma_nat_text_digits(x as nat);
        let t = nat_text(x as nat);
        assert(is_digit(t[0]));
    }
}

/// Parses a decimal integer the way `str::parse::<i64>` does: an optional
/// sign, then digits only, within the range of `i64`.
pub fn parse_i64(s: &str) -> (r: Option<i64>)
    ensures
        r == i64_parse(s@),
{
    let cs = str_chars(s);
    let n = cs.len();
    if n == 0 {
        return None;
    }
    let mut start: usize = 0;
    let mut neg = false;
    if cs[0] == '+' || cs[0] == '-' {
        neg = cs[0] == '-';
        start = 1;
    }
    if start == n {
        proof {
            assert(s@.skip(1).len() == 0);
        }
        return None;
    }
    let ghost d: Seq<char> = cs@.skip(start as int);
    proof {
        assert(start == 0 ==> d =~= s@);
    }
    let mut acc: i128 = 0;
    let mut i: usize = start;
    while i < n
        invariant
            start <= i <= n,
            n == cs.len(),
            cs@ == s@,
            d == cs@.skip(start as int),
            start == 0 || start == 1,
            n > 0,
            start == 0 ==> !(s@[0] == '+' || s@[0] == '-'),
            start == 1 ==> (s@[0] == '+' || s@[0] == '-'),
            neg == (start == 1 && s@[0] == '-'),
            acc == digits_value(d.take(i - start)),
            all_digits(d.take(i - start)),
            0 <= acc <= 9223372036854775808,
        decreases n - i,
    {
        let c = cs[i];
        if !(c >= '0' && c <= '9') {
            proof {
                assert(!is_digit(d[i - start]));
                assert(!all_digits(d));
                if start == 0 {
                    assert(!all_digits(s@));
                }
            }
            return None;
        }
        let dv: u32 = (c as u32) - ('0' as u32);
        proof {
            let t = d.take(i - start + 1);
            assert(t.drop_last() =~= d.take(i - start));
            assert(t.last() == c);
            assert(all_digits(t)) by {
                assert forall|j: int| 0 <= j < t.len() implies #[trigger] is_digit(t[j]) by {
                    if j < t.len() - 1 {
                        assert(is_digit(d.take(i - start)[j]));
                    }
                }
            }
        }
        acc = acc * 10 + (dv as i128);
        i = i + 1;
        if acc > 9223372036854775808 {
            proof {
                if all_digits(d) {
                    lemma_digits_value_prefix(d, i - start);
                }
                if start == 0 {
                    assert(d =~= s@);
                }
            }
            return None;
        }
    }
    proof {
        assert(d.take(n - start) =~= d);
        if start == 0 {
            assert(d =~= s@);
        }
    }
    if neg {
        let v: i64 = if acc == 9223372036854775808 { i64::MIN } else { -(acc as i64) };
        Some(v)
    } else if acc > 9223372036854775807 {
        None
    } else {
        Some(acc as i64)
    }
}

/// Whether two texts are equal, character by character.
pub fn text_eq(a: &str, b: &str) -> (r: bool)
    ensures
        r == (a@ == b@),
{
    let xs = str_chars(a);
    let ys = str_chars(b);
    if xs.len() != ys.len() {
        return false;
    }
    let mut i: usize = 0;
    while i < xs.len()
        invariant
            i <= xs.len(),
            xs.len() == ys.len(),
            xs@ == a@,
            ys@ == b@,
            forall|j: int| 0 <= j < i ==> xs@[j] == ys@[j],
        decreases xs.len() - i,
    {
        if xs[i] != ys[i] {
            return false;
        }
        i = i + 1;
    }
    proof {
        assert(xs@ =~= ys@);
    }
    true
}

/// The number of characters of a text.
pub fn char_count(s: &str) -> (n: usize)
    ensures
        n == s@.len(),
{
    str_chars(s).len()
}

/// The lower-case form of a text, as `str::to_lowercase` computes it (the
/// Unicode lower-case mapping, with its context-dependent cases).
pub uninterp spec fn lowercase_of(s: Seq<char>) -> Seq<char>;

/// `str::to_lowercase`.
#[verifier::external_body]
pub(crate) fn to_lowercase(s: &str) -> (r: String)
    ensures
        r@ == lowercase_of(s@),
{
    s.to_lowercase()
}


/// Law: what parses as an `i64`: nothing from the empty text; nothing from
/// a text with a character other than an ASCII digit anywhere but in front,
/// or with anything but a digit or a sign in front (so no whitespace); a
/// leading `+` changes nothing; a leading `-` negates; and a run of digits
/// has its decimal value, each further digit multiplying by ten.
pub proof fn law_i64_parse_rules(d: Seq<char>, c: char)
    ensures
        i64_parse(Seq::empty()) is None,
        (exists|i: int| 1 <= i < d.len() && !('0' <= #[trigger] d[i] && d[i] <= '9')) ==> i64_parse(d) is None,
        d.len() > 0 && !('0' <= d[0] && d[0] <= '9') && d[0] != '+' && d[0] != '-' ==> i64_parse(d) is None,
        d.len() > 0 && (forall|i: int| 0 <= i < d.len() ==> '0' <= #[trigger] d[i] && d[i] <= '9') ==> {
            &&& i64_parse(seq!['+'] + d) == i64_parse(d)
            &&& decimal_value(seq!['-'] + d) == Some(-digits_value(d))
            &&& decimal_value(d) == Some(digits_value(d))
            &&& ('0' <= c && c <= '9' ==> decimal_value(d.push(c)) == Some(10 * digits_value(d) + (c as int - '0' as int)))
        },
{
    if exists|i: int| 1 <= i < d.len() && !('0' <= #[trigger] d[i] && d[i] <= '9') {
        let i = choose|i: int| 1 <= i < d.len() && !('0' <= #[trigger] d[i] && d[i] <= '9');
        assert(!is_digit(d[i]));
        assert(!all_digits(d));
        if d.len() > 0 && (d[0] == '+' || d[0] == '-') {
            assert(d.skip(1)[i - 1] == d[i]);
            assert(!is_digit(d.skip(1)[i - 1]));
        }
    }
    if d.len() > 0 && !('0' <= d[0] && d[0] <= '9') {
        assert(!is_digit(d[0]));
    }
    if d.len() > 0 && (forall|i: int| 0 <= i < d.len() ==> '0' <= #[trigger] d[i] && d[i] <= '9') {
        assert(all_digits(d)) by {
            assert forall|i: int| 0 <= i < d.len() implies #[trigger] is_digit(d[i]) by {}
        }
        assert((seq!['+'] + d).skip(1) =~= d);
        assert((seq!['-'] + d).skip(1) =~= d);
        assert(d[0] != '+' && d[0] != '-') by {
            assert('0' <= d[0] && d[0] <= '9');
        }
        if '0' <= c && c <= '9' {
            let e = d.push(c);
            assert(e.drop_last() =~= d);
            assert(all_digits(e)) by {
                assert forall|i: int| 0 <= i < e.len() implies #[trigger] is_digit(e[i]) by {
                    if i < d.len() {
                        assert(e[i] == d[i]);
                    }
                }
            }
            assert(e[0] == d[0]);
        }
    }
}

} // verus!

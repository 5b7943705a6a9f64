//! Small text helpers: character classes used by the grammar, decimal
//! rendering of dice totals, and the single trusted uppercase primitive.
use vstd::prelude::*;

verus! {

/// The uppercase mapping of one character, as Unicode defines it.
/// The result of `char::to_uppercase` depends on the character alone.
pub uninterp spec fn upper_of(c: char) -> Seq<char>;

/// Relies on `char::to_uppercase` (and `ToString` on its iterator): the
/// uppercase mapping of `c` as a string. For ASCII, the documentation is
/// explicit: `'a'..='z'` map to `'A'..='Z'` and every other ASCII character
/// maps to itself, always as a single character.
#[verifier::external_body]
pub fn char_upper(c: char) -> (r: String)
    ensures
        r@ == upper_of(c),
        (97 <= c as u32 && c as u32 <= 122) ==> r@ == seq![(((c as u32) - 32) as u8) as char],
        ((c as u32) < 128 && !(97 <= c as u32 && c as u32 <= 122)) ==> r@ == seq![c],
{
    let mut s = String::new();
    for u in c.to_uppercase() {
        s.push(u);
    }
    s
}


/// Whether Unicode classes a character as alphanumeric. The classification
/// depends on the character alone.
pub uninterp spec fn is_unicode_alnum(c: char) -> bool;

/// Relies on `char::is_alphanumeric`: a function of the character alone,
/// true on the Unicode alphanumeric categories. On ASCII it holds exactly of
/// the digits and letters.
#[verifier::external_body]
pub fn char_is_alphanumeric(c: char) -> (r: bool)
    ensures
        r == is_unicode_alnum(c),
        (48 <= c as u32 <= 57 || 65 <= c as u32 <= 90 || 97 <= c as u32 <= 122) ==> r,
        ((c as u32) < 128 && !(48 <= c as u32 <= 57 || 65 <= c as u32 <= 90 || 97 <= c as u32
            <= 122)) ==> !r,
{
    c.is_alphanumeric()
}

/// Whether Unicode classes a character as whitespace. The classification
/// depends on the character alone.
pub uninterp spec fn is_unicode_space(c: char) -> bool;

/// Relies on `char::is_whitespace`: a function of the character alone, true
/// on the Unicode whitespace properties. On ASCII it holds exactly of space,
/// tab, and the line-break control characters.
#[verifier::external_body]
pub fn char_is_whitespace(c: char) -> (r: bool)
    ensures
        r == is_unicode_space(c),
        (c as u32 == 32 || 9 <= c as u32 <= 13) ==> r,
        ((c as u32) < 128 && !(c as u32 == 32 || 9 <= c as u32 <= 13)) ==> !r,
{
    c.is_whitespace()
}

/// The decimal digit character for a value below ten.
pub open spec fn digit_char(d: int) -> char {
    ((48 + d) as u8) as char
}

/// The decimal representation of `n`, most significant digit first.
pub open spec fn dec_rep(n: int) -> Seq<char>
    decreases n,
{
    if n < 10 {
        seq![digit_char(if n < 0 { 0 } else { n })]
    } else {
        dec_rep(n / 10) + seq![digit_char(n % 10)]
    }
}

/// A one-character string for a decimal digit.
pub fn digit_str(d: u64) -> (r: &'static str)
    requires
        d < 10,
    ensures
        r@ == seq![digit_char(d as int)],
{
    proof {
        reveal_strlit("0");
        reveal_strlit("1");
        reveal_strlit("2");
        reveal_strlit("3");
        reveal_strlit("4");
        reveal_strlit("5");
        reveal_strlit("6");
        reveal_strlit("7");
        reveal_strlit("8");
        reveal_strlit("9");
    }
    if d == 0 {
        "0"
    } else if d == 1 {
        "1"
    } else if d == 2 {
        "2"
    } else if d == 3 {
        "3"
    } else if d == 4 {
        "4"
    } else if d == 5 {
        "5"
    } else if d == 6 {
        "6"
    } else if d == 7 {
        "7"
    } else if d == 8 {
        "8"
    } else {
        "9"
    }
}

/// Renders `n` in decimal.
pub fn u64_to_string(n: u64) -> (r: String)
    ensures
        r@ == dec_rep(n as int),
    decreases n,
{
    if n < 10 {
        digit_str(n).to_owned()
    } else {
        let high = u64_to_string(n / 10);
        high.concat(digit_str(n % 10))
    }
}

} // verus!

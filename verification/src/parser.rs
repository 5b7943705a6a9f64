//! The grammar: a verified recursive-descent parser for table definition
//! text.
//!
//! Every executable parsing function is proved equal to a
//! specification-level grammar function over the input's character sequence.
//! The grammar, in parsing order: an optional namespace pragma line, a
//! frontmatter block delimited by `---` lines (`id`, `title`, then an
//! optional `export`), then one weighted rule per line. A rule body is a
//! non-empty sequence of parts, each tried in order: dice roll, external
//! interpolation, local interpolation, literal run; the body must consume its
//! entire line.
use vstd::prelude::*;

use vstd::string::StrSliceExecFns;

verus! {

broadcast use vstd::seq_lib::group_seq_properties;

// ---------------------------------------------------------------------------
// Character classes
// ---------------------------------------------------------------------------
/// A decimal digit.
pub open spec fn is_digit(c: char) -> bool {
    48 <= c as u32 <= 57
}

/// An identifier character: an alphanumeric, `_`, or `-`.
pub open spec fn is_ident_char(c: char) -> bool {
    ||| 48 <= c as u32 <= 57
    ||| 65 <= c as u32 <= 90
    ||| 97 <= c as u32 <= 122
    ||| c == '_'
    ||| c == '-'
    ||| (c as u32 >= 128 && crate::text::is_unicode_alnum(c))
}

/// A literal-text character: an alphanumeric, `_`, `-`, whitespace, or
/// ASCII punctuation. Line breaks are excluded.
pub open spec fn is_title_char(c: char) -> bool {
    ||| 32 <= c as u32 <= 126
    ||| c as u32 == 9
    ||| (c as u32 >= 128 && (crate::text::is_unicode_alnum(c) || crate::text::is_unicode_space(
        c,
    )))
}

/// A character of a literal run inside a rule body: literal text except `{`,
/// which opens a dice roll or an interpolation.
pub open spec fn is_rule_lit_char(c: char) -> bool {
    is_title_char(c) && c != '{'
}

/// A character of a quoted string inside a `join` filter: anything but the
/// closing quote or a line break.
pub open spec fn is_str_like_char(c: char) -> bool {
    c != '\'' && c != '\n' && c != '\r'
}

/// Not a line break: the characters a line consists of.
pub open spec fn is_not_eol_char(c: char) -> bool {
    c != '\n' && c != '\r'
}

pub open spec fn digit_p() -> spec_fn(char) -> bool {
    |c: char| is_digit(c)
}

pub open spec fn ident_p() -> spec_fn(char) -> bool {
    |c: char| is_ident_char(c)
}

pub open spec fn title_p() -> spec_fn(char) -> bool {
    |c: char| is_title_char(c)
}

pub open spec fn rule_lit_p() -> spec_fn(char) -> bool {
    |c: char| is_rule_lit_char(c)
}

pub open spec fn str_like_p() -> spec_fn(char) -> bool {
    |c: char| is_str_like_char(c)
}

pub open spec fn not_eol_p() -> spec_fn(char) -> bool {
    |c: char| is_not_eol_char(c)
}

// ---------------------------------------------------------------------------
// Runs and tags
// ---------------------------------------------------------------------------
/// The end of the maximal run of characters satisfying `p`, starting at `i`.
pub open spec fn run_end(s: Seq<char>, i: int, p: spec_fn(char) -> bool) -> int
    decreases s.len() - i when 0 <= i <= s.len()
{
    if i < s.len() && p(s[i]) {
        run_end(s, i + 1, p)
    } else {
        i
    }
}

/// The run end lies between `i` and the input's end; every character of the
/// run satisfies `p`, and the character after it (if any) does not.
pub proof fn lemma_run_end(s: Seq<char>, i: int, p: spec_fn(char) -> bool)
    requires
        0 <= i <= s.len(),
    ensures
        i <= run_end(s, i, p) <= s.len(),
        forall|j: int| i <= j < run_end(s, i, p) ==> p(s[j]),
        run_end(s, i, p) < s.len() ==> !p(s[run_end(s, i, p)]),
    decreases s.len() - i,
{
    if i < s.len() && p(s[i]) {
        lemma_run_end(s, i + 1, p);
    }
}

/// Whether the literal `t` occurs in `s` at position `i`.
pub open spec fn sp_tag(s: Seq<char>, i: int, t: Seq<char>) -> bool {
    i + t.len() <= s.len() && s.subrange(i, i + t.len()) == t
}

/// Matches the literal `t` at position `i`, returning the position after it.
fn parse_tag(s: &str, len: usize, i: usize, t: &str) -> (r: Option<usize>)
    requires
        s@.len() == len as int,
        i <= len,
    ensures
        r is Some <==> sp_tag(s@, i as int, t@),
        r is Some ==> r.unwrap() == i + t@.len() && i < r.unwrap() + 1 && r.unwrap() <= len,
{
    let tl = t.unicode_len();
    if tl > len - i {
        proof {
            assert(!sp_tag(s@, i as int, t@));
        }
        return None;
    }
    let mut k: usize = 0;
    while k < tl
        invariant
            s@.len() == len as int,
            t@.len() == tl as int,
            i + tl <= len,
            k <= tl,
            forall|j: int| 0 <= j < k ==> s@[i + j] == t@[j],
        decreases tl - k,
    {
        if s.get_char(i + k) != t.get_char(k) {
            proof {
                assert(s@.subrange(i as int, i as int + t@.len())[k as int] != t@[k as int]);
            }
            return None;
        }
        k += 1;
    }
    proof {
        assert(s@.subrange(i as int, i as int + t@.len()) =~= t@);
    }
    Some(i + tl)
}


/// Tests the character class of `s` at `j` in executable code.
fn digit_at(s: &str, len: usize, j: usize) -> (b: bool)
    requires
        s@.len() == len as int,
        j < len,
    ensures
        b == is_digit(s@[j as int]),
{
    let u = s.get_char(j) as u32;
    48 <= u && u <= 57
}

fn ident_at(s: &str, len: usize, j: usize) -> (b: bool)
    requires
        s@.len() == len as int,
        j < len,
    ensures
        b == is_ident_char(s@[j as int]),
{
    let c = s.get_char(j);
    let u = c as u32;
    (48 <= u && u <= 57) || (65 <= u && u <= 90) || (97 <= u && u <= 122) || c == '_' || c == '-'
        || (u >= 128 && crate::text::char_is_alphanumeric(c))
}

fn title_at(s: &str, len: usize, j: usize) -> (b: bool)
    requires
        s@.len() == len as int,
        j < len,
    ensures
        b == is_title_char(s@[j as int]),
{
    let c = s.get_char(j);
    let u = c as u32;
    (32 <= u && u <= 126) || u == 9 || (u >= 128 && (crate::text::char_is_alphanumeric(c)
        || crate::text::char_is_whitespace(c)))
}

fn rule_lit_at(s: &str, len: usize, j: usize) -> (b: bool)
    requires
        s@.len() == len as int,
        j < len,
    ensures
        b == is_rule_lit_char(s@[j as int]),
{
    let c = s.get_char(j);
    let u = c as u32;
    ((32 <= u && u <= 126) || u == 9 || (u >= 128 && (crate::text::char_is_alphanumeric(c)
        || crate::text::char_is_whitespace(c)))) && c != '{'
}

fn str_like_at(s: &str, len: usize, j: usize) -> (b: bool)
    requires
        s@.len() == len as int,
        j < len,
    ensures
        b == is_str_like_char(s@[j as int]),
{
    let c = s.get_char(j);
    c != '\'' && c != '\n' && c != '\r'
}

fn not_eol_at(s: &str, len: usize, j: usize) -> (b: bool)
    requires
        s@.len() == len as int,
        j < len,
    ensures
        b == is_not_eol_char(s@[j as int]),
{
    let c = s.get_char(j);
    c != '\n' && c != '\r'
}

/// Scans the maximal digit run starting at `i`.
fn scan_digits(s: &str, len: usize, i: usize) -> (j: usize)
    requires
        s@.len() == len as int,
        i <= len,
    ensures
        j == run_end(s@, i as int, digit_p()),
        i <= j <= len,
{
    let mut j: usize = i;
    while j < len && digit_at(s, len, j)
        invariant
            s@.len() == len as int,
            i <= j <= len,
            run_end(s@, i as int, digit_p()) == run_end(s@, j as int, digit_p()),
        decreases len - j,
    {
        j += 1;
    }
    j
}

/// Scans the maximal identifier-character run starting at `i`.
fn scan_ident(s: &str, len: usize, i: usize) -> (j: usize)
    requires
        s@.len() == len as int,
        i <= len,
    ensures
        j == run_end(s@, i as int, ident_p()),
        i <= j <= len,
{
    let mut j: usize = i;
    while j < len && ident_at(s, len, j)
        invariant
            s@.len() == len as int,
            i <= j <= len,
            run_end(s@, i as int, ident_p()) == run_end(s@, j as int, ident_p()),
        decreases len - j,
    {
        j += 1;
    }
    j
}

/// Scans the maximal literal-text run starting at `i`.
fn scan_title(s: &str, len: usize, i: usize) -> (j: usize)
    requires
        s@.len() == len as int,
        i <= len,
    ensures
        j == run_end(s@, i as int, title_p()),
        i <= j <= len,
{
    let mut j: usize = i;
    while j < len && title_at(s, len, j)
        invariant
            s@.len() == len as int,
            i <= j <= len,
            run_end(s@, i as int, title_p()) == run_end(s@, j as int, title_p()),
        decreases len - j,
    {
        j += 1;
    }
    j
}

/// Scans the maximal rule-literal run starting at `i`.
fn scan_rule_lit(s: &str, len: usize, i: usize) -> (j: usize)
    requires
        s@.len() == len as int,
        i <= len,
    ensures
        j == run_end(s@, i as int, rule_lit_p()),
        i <= j <= len,
{
    let mut j: usize = i;
    while j < len && rule_lit_at(s, len, j)
        invariant
            s@.len() == len as int,
            i <= j <= len,
            run_end(s@, i as int, rule_lit_p()) == run_end(s@, j as int, rule_lit_p()),
        decreases len - j,
    {
        j += 1;
    }
    j
}

/// Scans the maximal quoted-string run starting at `i`.
fn scan_str_like(s: &str, len: usize, i: usize) -> (j: usize)
    requires
        s@.len() == len as int,
        i <= len,
    ensures
        j == run_end(s@, i as int, str_like_p()),
        i <= j <= len,
{
    let mut j: usize = i;
    while j < len && str_like_at(s, len, j)
        invariant
            s@.len() == len as int,
            i <= j <= len,
            run_end(s@, i as int, str_like_p()) == run_end(s@, j as int, str_like_p()),
        decreases len - j,
    {
        j += 1;
    }
    j
}

/// Scans to the end of the current line.
fn scan_line(s: &str, len: usize, i: usize) -> (j: usize)
    requires
        s@.len() == len as int,
        i <= len,
    ensures
        j == run_end(s@, i as int, not_eol_p()),
        i <= j <= len,
{
    let mut j: usize = i;
    while j < len && not_eol_at(s, len, j)
        invariant
            s@.len() == len as int,
            i <= j <= len,
            run_end(s@, i as int, not_eol_p()) == run_end(s@, j as int, not_eol_p()),
        decreases len - j,
    {
        j += 1;
    }
    j
}

// ---------------------------------------------------------------------------
// Line endings
// ---------------------------------------------------------------------------
/// The position after a line ending at `i`: `\n` or `\r\n`.
pub open spec fn sp_eol(s: Seq<char>, i: int) -> Option<int> {
    if i < s.len() && s[i] == '\n' {
        Some(i + 1)
    } else if i + 1 < s.len() && s[i] == '\r' && s[i + 1] == '\n' {
        Some(i + 2)
    } else {
        None
    }
}

/// Matches a line ending at `i`.
fn parse_eol(s: &str, len: usize, i: usize) -> (r: Option<usize>)
    requires
        s@.len() == len as int,
        i <= len,
    ensures
        match sp_eol(s@, i as int) {
            Some(j) => r == Some(j as usize) && i < j <= len,
            None => r is None,
        },
{
    if i < len && s.get_char(i) == '\n' {
        Some(i + 1)
    } else if len - i >= 2 && s.get_char(i) == '\r' && s.get_char(i + 1) == '\n' {
        Some(i + 2)
    } else {
        None
    }
}

/// Whether position `i` is at the end of a line: the end of the input, or a
/// line-break character.
pub open spec fn sp_at_eol(s: Seq<char>, i: int) -> bool {
    i == s.len() || s[i] == '\n' || s[i] == '\r'
}

/// Tests whether `i` sits at the end of a line.
fn at_eol(s: &str, len: usize, i: usize) -> (r: bool)
    requires
        s@.len() == len as int,
        i <= len,
    ensures
        r == sp_at_eol(s@, i as int),
{
    if i == len {
        true
    } else {
        let c = s.get_char(i);
        c == '\n' || c == '\r'
    }
}


// ---------------------------------------------------------------------------
// Numbers
// ---------------------------------------------------------------------------
/// Ten to the `n`.
pub open spec fn pow10(n: nat) -> int
    decreases n,
{
    if n == 0 {
        1
    } else {
        10 * pow10((n - 1) as nat)
    }
}

/// The value of the decimal digits `s[i..j]`.
pub open spec fn digits_val(s: Seq<char>, i: int, j: int) -> int
    decreases j - i when i <= j
{
    if j <= i {
        0
    } else {
        digits_val(s, i, j - 1) * 10 + (s[j - 1] as u32 - 48)
    }
}

/// Powers of ten are positive and monotone.
pub proof fn lemma_pow10_mono(a: nat, b: nat)
    requires
        a <= b,
    ensures
        1 <= pow10(a) <= pow10(b),
    decreases b,
{
    if b > 0 {
        if a == b {
            lemma_pow10_mono(0, (b - 1) as nat);
        } else {
            lemma_pow10_mono(a, (b - 1) as nat);
        }
    }
}

/// Powers of ten multiply by adding exponents.
pub proof fn lemma_pow10_add(a: nat, b: nat)
    ensures
        pow10(a) * pow10(b) == pow10(a + b),
    decreases a,
{
    if a == 0 {
    } else {
        lemma_pow10_add((a - 1) as nat, b);
        assert(pow10(a) * pow10(b) == 10 * (pow10((a - 1) as nat) * pow10(b)))
            by (nonlinear_arith)
            requires
                pow10(a) == 10 * pow10((a - 1) as nat),
        ;
    }
}

/// The value of a digit run is bounded by ten to its length.
pub proof fn lemma_digits_val_bound(s: Seq<char>, i: int, j: int)
    requires
        0 <= i <= j <= s.len(),
        forall|k: int| i <= k < j ==> is_digit(s[k]),
    ensures
        0 <= digits_val(s, i, j) < pow10((j - i) as nat),
    decreases j - i,
{
    if j > i {
        lemma_digits_val_bound(s, i, j - 1);
        assert(is_digit(s[j - 1]));
        assert(pow10((j - i) as nat) == 10 * pow10((j - i - 1) as nat));
    }
}

/// The value of the digits `s[a..b]`, which must all be decimal digits.
fn digits_value(s: &str, len: usize, a: usize, b: usize) -> (v: u64)
    requires
        s@.len() == len as int,
        a <= b <= len,
        b - a <= 18,
        forall|k: int| a <= k < b ==> is_digit(s@[k]),
    ensures
        v == digits_val(s@, a as int, b as int),
        v < pow10((b - a) as nat),
{
    proof {
        reveal_with_fuel(pow10, 19);
    }
    let mut acc: u64 = 0;
    let mut k: usize = a;
    while k < b
        invariant
            s@.len() == len as int,
            a <= k <= b <= len,
            b - a <= 18,
            forall|t: int| a <= t < b ==> is_digit(s@[t]),
            acc == digits_val(s@, a as int, k as int),
            acc < pow10((k - a) as nat),
            pow10(18) == 1000000000000000000,
        decreases b - k,
    {
        let c = s.get_char(k);
        assert(is_digit(s@[k as int]));
        let d = ((c as u32) - 48) as u64;
        proof {
            lemma_pow10_mono(((k - a) as nat) + 1, 18);
            reveal_with_fuel(pow10, 19);
        }
        acc = acc * 10 + d;
        k += 1;
    }
    proof {
        lemma_digits_val_bound(s@, a as int, b as int);
    }
    acc
}

/// Parses a digit run of at most `max_len` digits into its value.
fn parse_u64_digits(s: &str, len: usize, i: usize, max_len: usize) -> (r: Option<(u64, usize)>)
    requires
        s@.len() == len as int,
        i <= len,
        max_len <= 18,
    ensures
        ({
            let e = run_end(s@, i as int, digit_p());
            &&& i as int <= e <= len as int
            &&& (r is Some <==> (i as int) < e && e - i <= max_len)
            &&& r is Some ==> {
                &&& r.unwrap().0 == digits_val(s@, i as int, e)
                &&& (r.unwrap().0 as int) < pow10((e - i) as nat)
                &&& r.unwrap().1 == e
                &&& i < r.unwrap().1 <= len
            }
        }),
{
    proof {
        lemma_run_end(s@, i as int, digit_p());
    }
    let e = scan_digits(s, len, i);
    if e == i || e - i > max_len {
        return None;
    }
    let v = digits_value(s, len, i, e);
    Some((v, e))
}

/// A weight in millionths at position `i`: a digit run of at most twelve
/// digits, optionally followed by `.` and fraction digits, of which the first
/// six count.
pub open spec fn sp_weight(s: Seq<char>, i: int) -> Option<(u64, int)> {
    let e1 = run_end(s, i, digit_p());
    if e1 == i || e1 - i > 12 {
        None
    } else {
        let iv = digits_val(s, i, e1);
        if sp_tag(s, e1, "."@) {
            let f0 = e1 + 1;
            let ef = run_end(s, f0, digit_p());
            let used = if ef - f0 > 6 {
                6
            } else {
                ef - f0
            };
            let fv = digits_val(s, f0, f0 + used) * pow10((6 - used) as nat);
            Some(((iv * (crate::model::WEIGHT_SCALE as int) + fv) as u64, ef))
        } else {
            Some(((iv * (crate::model::WEIGHT_SCALE as int)) as u64, e1))
        }
    }
}

/// Parses a weight at position `i`.
fn parse_weight(s: &str, len: usize, i: usize) -> (r: Option<(u64, usize)>)
    requires
        s@.len() == len as int,
        i <= len,
    ensures
        match sp_weight(s@, i as int) {
            Some((w, j)) => r == Some((w, j as usize)) && i < j <= len,
            None => r is None,
        },
{
    proof {
        reveal_with_fuel(pow10, 19);
        lemma_run_end(s@, i as int, digit_p());
    }
    let (iv, e1) = match parse_u64_digits(s, len, i, 12) {
        Some(p) => p,
        None => {
            return None;
        },
    };
    proof {
        lemma_pow10_mono(((e1 - i) as nat), 12);
        assert(iv < pow10(12));
    }
    let whole = iv * crate::model::WEIGHT_SCALE;
    proof {
        reveal_strlit(".");
    }
    match parse_tag(s, len, e1, ".") {
        Some(f0) => {
            let ef = scan_digits(s, len, f0);
            proof {
                lemma_run_end(s@, f0 as int, digit_p());
            }
            let used: usize = if ef - f0 > 6 {
                6
            } else {
                ef - f0
            };
            let dv = digits_value(s, len, f0, f0 + used);
            let mult: u64 = pow10_u64(6 - used);
            proof {
                lemma_pow10_add((used) as nat, (6 - used) as nat);
                assert(dv * mult < pow10(6)) by (nonlinear_arith)
                    requires
                        dv < pow10(used as nat),
                        mult == pow10((6 - used) as nat),
                        pow10(used as nat) * pow10((6 - used) as nat) == pow10(6),
                        mult > 0,
                ;
                lemma_pow10_mono(6, 18);
            }
            let fv = dv * mult;
            Some((whole + fv, ef))
        },
        None => Some((whole, e1)),
    }
}

/// Ten to the `n`, in executable code.
fn pow10_u64(n: usize) -> (r: u64)
    requires
        n <= 18,
    ensures
        r == pow10(n as nat),
        r >= 1,
{
    proof {
        reveal_with_fuel(pow10, 19);
    }
    let mut r: u64 = 1;
    let mut k: usize = 0;
    while k < n
        invariant
            k <= n <= 18,
            r == pow10(k as nat),
            pow10(18) == 1000000000000000000,
        decreases n - k,
    {
        proof {
            lemma_pow10_mono((k + 1) as nat, 18);
        }
        r = r * 10;
        k += 1;
    }
    r
}


// ---------------------------------------------------------------------------
// Identifiers and namespaces
// ---------------------------------------------------------------------------
/// An identifier at `i`: a non-empty run of identifier characters.
pub open spec fn sp_ident(s: Seq<char>, i: int) -> Option<(Seq<char>, int)> {
    let e = run_end(s, i, ident_p());
    if e == i {
        None
    } else {
        Some((s.subrange(i, e), e))
    }
}

/// Parses an identifier at `i`.
fn parse_ident(s: &str, len: usize, i: usize) -> (r: Option<(String, usize)>)
    requires
        s@.len() == len as int,
        i <= len,
    ensures
        match sp_ident(s@, i as int) {
            Some((v, j)) => {
                &&& r is Some
                &&& r.unwrap().0@ == v
                &&& r.unwrap().1 == j
                &&& i < r.unwrap().1 <= len
            },
            None => r is None,
        },
{
    let e = scan_ident(s, len, i);
    proof {
        lemma_run_end(s@, i as int, ident_p());
    }
    if e == i {
        None
    } else {
        let sub = s.substring_char(i, e);
        Some((sub.to_owned(), e))
    }
}

/// A namespace at `i`: `@`, an identifier, `/`, an identifier; its value is
/// the whole matched span.
pub open spec fn sp_namespace(s: Seq<char>, i: int) -> Option<(Seq<char>, int)> {
    if !sp_tag(s, i, "@"@) {
        None
    } else {
        match sp_ident(s, i + "@"@.len()) {
            None => None,
            Some((_, j)) => {
                if !sp_tag(s, j, "/"@) {
                    None
                } else {
                    match sp_ident(s, j + "/"@.len()) {
                        None => None,
                        Some((_, k)) => Some((s.subrange(i, k), k)),
                    }
                }
            },
        }
    }
}

/// Parses a namespace at `i`.
fn parse_namespace(s: &str, len: usize, i: usize) -> (r: Option<(String, usize)>)
    requires
        s@.len() == len as int,
        i <= len,
    ensures
        match sp_namespace(s@, i as int) {
            Some((v, j)) => {
                &&& r is Some
                &&& r.unwrap().0@ == v
                &&& r.unwrap().1 == j
                &&& i < r.unwrap().1 <= len
            },
            None => r is None,
        },
{
    proof {
        reveal_strlit("@");
        reveal_strlit("/");
    }
    let a = match parse_tag(s, len, i, "@") {
        Some(a) => a,
        None => {
            return None;
        },
    };
    let j = match parse_ident(s, len, a) {
        Some((_, j)) => j,
        None => {
            return None;
        },
    };
    let j2 = match parse_tag(s, len, j, "/") {
        Some(j2) => j2,
        None => {
            return None;
        },
    };
    let k = match parse_ident(s, len, j2) {
        Some((_, k)) => k,
        None => {
            return None;
        },
    };
    let sub = s.substring_char(i, k);
    Some((sub.to_owned(), k))
}

/// A namespace-qualified identifier at `i`: a namespace, `/`, an identifier;
/// its value is the whole matched span.
pub open spec fn sp_namespace_ident(s: Seq<char>, i: int) -> Option<(Seq<char>, int)> {
    match sp_namespace(s, i) {
        None => None,
        Some((_, k)) => {
            if !sp_tag(s, k, "/"@) {
                None
            } else {
                match sp_ident(s, k + "/"@.len()) {
                    None => None,
                    Some((_, m)) => Some((s.subrange(i, m), m)),
                }
            }
        },
    }
}

/// Parses a namespace-qualified identifier at `i`.
fn parse_namespace_ident(s: &str, len: usize, i: usize) -> (r: Option<(String, usize)>)
    requires
        s@.len() == len as int,
        i <= len,
    ensures
        match sp_namespace_ident(s@, i as int) {
            Some((v, j)) => {
                &&& r is Some
                &&& r.unwrap().0@ == v
                &&& r.unwrap().1 == j
                &&& i < r.unwrap().1 <= len
            },
            None => r is None,
        },
{
    proof {
        reveal_strlit("/");
    }
    let k = match parse_namespace(s, len, i) {
        Some((_, k)) => k,
        None => {
            return None;
        },
    };
    let k2 = match parse_tag(s, len, k, "/") {
        Some(k2) => k2,
        None => {
            return None;
        },
    };
    let m = match parse_ident(s, len, k2) {
        Some((_, m)) => m,
        None => {
            return None;
        },
    };
    let sub = s.substring_char(i, m);
    Some((sub.to_owned(), m))
}

// ---------------------------------------------------------------------------
// Filters
// ---------------------------------------------------------------------------
use crate::model::FilterModel;
use crate::model::FilterOp;

/// A transform filter keyword at `i`.
pub open spec fn sp_transform(s: Seq<char>, i: int) -> Option<(FilterModel, int)> {
    if sp_tag(s, i, "definite"@) {
        Some((FilterModel::Definite, i + "definite"@.len()))
    } else if sp_tag(s, i, "indefinite"@) {
        Some((FilterModel::Indefinite, i + "indefinite"@.len()))
    } else if sp_tag(s, i, "capitalize"@) {
        Some((FilterModel::Capitalize, i + "capitalize"@.len()))
    } else {
        None
    }
}

/// Parses a transform filter keyword at `i`.
fn parse_transform(s: &str, len: usize, i: usize) -> (r: Option<(FilterOp, usize)>)
    requires
        s@.len() == len as int,
        i <= len,
    ensures
        match sp_transform(s@, i as int) {
            Some((f, j)) => {
                &&& r is Some
                &&& r.unwrap().0@ == f
                &&& r.unwrap().1 == j
                &&& i < r.unwrap().1 <= len
            },
            None => r is None,
        },
{
    proof {
        reveal_strlit("definite");
        reveal_strlit("indefinite");
        reveal_strlit("capitalize");
    }
    if let Some(j) = parse_tag(s, len, i, "definite") {
        Some((FilterOp::DefiniteArticle, j))
    } else if let Some(j) = parse_tag(s, len, i, "indefinite") {
        Some((FilterOp::IndefiniteArticle, j))
    } else if let Some(j) = parse_tag(s, len, i, "capitalize") {
        Some((FilterOp::Capitalize, j))
    } else {
        None
    }
}

/// A `unique(N)` filter at `i`, with `N` a decimal integer greater than one,
/// of at most ten digits and within bounds.
pub open spec fn sp_unique(s: Seq<char>, i: int) -> Option<(u64, int)> {
    if !sp_tag(s, i, "unique("@) {
        None
    } else {
        let a = i + "unique("@.len();
        let e = run_end(s, a, digit_p());
        if e == a || e - a > 10 {
            None
        } else {
            let n = digits_val(s, a, e);
            if !sp_tag(s, e, ")"@) {
                None
            } else if n <= 1 || n > crate::model::PART_BOUND {
                None
            } else {
                Some((n as u64, e + ")"@.len()))
            }
        }
    }
}

/// Parses a `unique(N)` filter at `i`.
fn parse_unique(s: &str, len: usize, i: usize) -> (r: Option<(u64, usize)>)
    requires
        s@.len() == len as int,
        i <= len,
    ensures
        match sp_unique(s@, i as int) {
            Some((n, j)) => r == Some((n, j as usize)) && i < j <= len,
            None => r is None,
        },
{
    proof {
        reveal_strlit("unique(");
        reveal_strlit(")");
    }
    let a = match parse_tag(s, len, i, "unique(") {
        Some(a) => a,
        None => {
            return None;
        },
    };
    proof {
        lemma_run_end(s@, a as int, digit_p());
    }
    let (n, e) = match parse_u64_digits(s, len, a, 10) {
        Some(p) => p,
        None => {
            return None;
        },
    };
    let j = match parse_tag(s, len, e, ")") {
        Some(j) => j,
        None => {
            return None;
        },
    };
    if n <= 1 || n > crate::model::PART_BOUND {
        return None;
    }
    Some((n, j))
}

/// A quoted string at `i`: `'`, a run without quotes or line breaks, `'`.
pub open spec fn sp_str_like(s: Seq<char>, i: int) -> Option<(Seq<char>, int)> {
    if !sp_tag(s, i, "'"@) {
        None
    } else {
        let a = i + "'"@.len();
        let e = run_end(s, a, str_like_p());
        if !sp_tag(s, e, "'"@) {
            None
        } else {
            Some((s.subrange(a, e), e + "'"@.len()))
        }
    }
}

/// Parses a quoted string at `i`.
fn parse_str_like(s: &str, len: usize, i: usize) -> (r: Option<(String, usize)>)
    requires
        s@.len() == len as int,
        i <= len,
    ensures
        match sp_str_like(s@, i as int) {
            Some((v, j)) => {
                &&& r is Some
                &&& r.unwrap().0@ == v
                &&& r.unwrap().1 == j
                &&& i < r.unwrap().1 <= len
            },
            None => r is None,
        },
{
    proof {
        reveal_strlit("'");
    }
    let a = match parse_tag(s, len, i, "'") {
        Some(a) => a,
        None => {
            return None;
        },
    };
    let e = scan_str_like(s, len, a);
    let j = match parse_tag(s, len, e, "'") {
        Some(j) => j,
        None => {
            return None;
        },
    };
    let sub = s.substring_char(a, e);
    Some((sub.to_owned(), j))
}

/// A `join('sep')` or `join('sep', 'conj')` filter at `i`.
pub open spec fn sp_join(s: Seq<char>, i: int) -> Option<(FilterModel, int)> {
    if !sp_tag(s, i, "join("@) {
        None
    } else {
        match sp_str_like(s, i + "join("@.len()) {
            None => None,
            Some((sep, p)) => {
                let conj_part = if sp_tag(s, p, ", "@) {
                    sp_str_like(s, p + ", "@.len())
                } else {
                    None
                };
                match conj_part {
                    Some((c, q)) => {
                        if sp_tag(s, q, ")"@) {
                            Some((FilterModel::Join(sep, Some(c)), q + ")"@.len()))
                        } else {
                            None
                        }
                    },
                    None => {
                        if sp_tag(s, p, ")"@) {
                            Some((FilterModel::Join(sep, None), p + ")"@.len()))
                        } else {
                            None
                        }
                    },
                }
            },
        }
    }
}

/// Parses a `join(...)` filter at `i`.
fn parse_join(s: &str, len: usize, i: usize) -> (r: Option<(FilterOp, usize)>)
    requires
        s@.len() == len as int,
        i <= len,
    ensures
        match sp_join(s@, i as int) {
            Some((f, j)) => {
                &&& r is Some
                &&& r.unwrap().0@ == f
                &&& r.unwrap().1 == j
                &&& i < r.unwrap().1 <= len
            },
            None => r is None,
        },
{
    proof {
        reveal_strlit("join(");
        reveal_strlit(", ");
        reveal_strlit(")");
    }
    let a = match parse_tag(s, len, i, "join(") {
        Some(a) => a,
        None => {
            return None;
        },
    };
    let (sep, p) = match parse_str_like(s, len, a) {
        Some(r0) => r0,
        None => {
            return None;
        },
    };
    let mut conj: Option<String> = None;
    let mut q: usize = p;
    if let Some(p2) = parse_tag(s, len, p, ", ") {
        if let Some((c, q2)) = parse_str_like(s, len, p2) {
            conj = Some(c);
            q = q2;
        }
    }
    let j = match parse_tag(s, len, q, ")") {
        Some(j) => j,
        None => {
            return None;
        },
    };
    Some((FilterOp::Join(sep, conj), j))
}

/// The transform filters at `i`: zero or more of `|` followed by a transform
/// keyword.
pub open spec fn sp_transforms(s: Seq<char>, i: int) -> (Seq<FilterModel>, int)
    decreases s.len() - i when 0 <= i <= s.len()
{
    if sp_tag(s, i, "|"@) {
        match sp_transform(s, i + "|"@.len()) {
            Some((f, j)) => {
                if i < j <= s.len() {
                    let (rest, e) = sp_transforms(s, j);
                    (seq![f] + rest, e)
                } else {
                    (seq![f], j)
                }
            },
            None => (Seq::empty(), i),
        }
    } else {
        (Seq::empty(), i)
    }
}

/// A filter pipeline at `i`: transforms, then an optional `|unique(N)`, then
/// an optional `|join(...)`. The pipeline is order-sensitive by design: a
/// transform after `unique`, or a `unique` after `join`, does not parse.
pub open spec fn sp_filters(s: Seq<char>, i: int) -> (Seq<FilterModel>, int) {
    let (ts, p1) = sp_transforms(s, i);
    let (us, p2) = if sp_tag(s, p1, "|"@) {
        match sp_unique(s, p1 + "|"@.len()) {
            Some((n, j)) => (seq![FilterModel::Unique(n)], j),
            None => (Seq::<FilterModel>::empty(), p1),
        }
    } else {
        (Seq::<FilterModel>::empty(), p1)
    };
    let (js, p3) = if sp_tag(s, p2, "|"@) {
        match sp_join(s, p2 + "|"@.len()) {
            Some((f, j)) => (seq![f], j),
            None => (Seq::<FilterModel>::empty(), p2),
        }
    } else {
        (Seq::<FilterModel>::empty(), p2)
    };
    (ts + us + js, p3)
}

/// Parses a filter pipeline at `i`. A pipeline may be empty; this function
/// never fails.
fn parse_filters(s: &str, len: usize, i: usize) -> (r: (Vec<FilterOp>, usize))
    requires
        s@.len() == len as int,
        i <= len,
    ensures
        r.0@.map_values(|f: FilterOp| f@) == sp_filters(s@, i as int).0,
        r.1 == sp_filters(s@, i as int).1,
        i <= r.1 <= len,
{
    proof {
        reveal_strlit("|");
    }
    let mut fs: Vec<FilterOp> = Vec::new();
    let mut cur: usize = i;
    proof {
        assert(fs@.map_values(|f: FilterOp| f@) + sp_transforms(s@, i as int).0 =~= sp_transforms(
            s@,
            i as int,
        ).0);
    }
    loop
        invariant
            s@.len() == len as int,
            i <= cur <= len,
            sp_transforms(s@, i as int).0 == fs@.map_values(|f: FilterOp| f@) + sp_transforms(
                s@,
                cur as int,
            ).0,
            sp_transforms(s@, i as int).1 == sp_transforms(s@, cur as int).1,
        ensures
            cur as int == sp_transforms(s@, i as int).1,
            fs@.map_values(|f: FilterOp| f@) == sp_transforms(s@, i as int).0,
            i <= cur <= len,
        decreases len - cur,
    {
        let mut advanced = false;
        if let Some(p) = parse_tag(s, len, cur, "|") {
            if let Some((f, j)) = parse_transform(s, len, p) {
                fs.push(f);
                proof {
                    assert(sp_transforms(s@, i as int).0 =~= fs@.map_values(|f: FilterOp| f@)
                        + sp_transforms(s@, j as int).0);
                }
                cur = j;
                advanced = true;
            }
        }
        if !advanced {
            proof {
                assert(sp_transforms(s@, cur as int).0 =~= Seq::<FilterModel>::empty());
                assert(fs@.map_values(|f: FilterOp| f@) + Seq::<FilterModel>::empty() =~= fs@
                    .map_values(|f: FilterOp| f@));
            }
            break;
        }
    }
    let ghost ts_done = fs@.map_values(|f: FilterOp| f@);
    if let Some(p) = parse_tag(s, len, cur, "|") {
        if let Some((n, j)) = parse_unique(s, len, p) {
            fs.push(FilterOp::Unique(n));
            proof {
                assert(fs@.map_values(|f: FilterOp| f@) =~= ts_done + seq![
                    FilterModel::Unique(n),
                ]);
            }
            cur = j;
        }
    }
    let ghost tu_done = fs@.map_values(|f: FilterOp| f@);
    if let Some(p) = parse_tag(s, len, cur, "|") {
        if let Some((f, j)) = parse_join(s, len, p) {
            fs.push(f);
            proof {
                assert(fs@.map_values(|f: FilterOp| f@) =~= tu_done + seq![f@]);
            }
            cur = j;
        }
    }
    proof {
        let spf = sp_filters(s@, i as int);
        assert(fs@.map_values(|f: FilterOp| f@) =~= spf.0);
    }
    (fs, cur)
}


// ---------------------------------------------------------------------------
// Rule parts
// ---------------------------------------------------------------------------
use crate::model::RuleInst;
use crate::model::RuleInstModel;
use crate::model::ns_prefixed;

/// A dice roll at `i`: `{NdM}` or `{dM}` with positive `N` and `M` of at most
/// nine digits each.
pub open spec fn sp_dice(s: Seq<char>, i: int) -> Option<((u64, u64), int)> {
    if !sp_tag(s, i, "{"@) {
        None
    } else {
        let a = i + "{"@.len();
        let e1 = run_end(s, a, digit_p());
        if e1 - a > 9 {
            None
        } else {
            let count = if e1 == a {
                1
            } else {
                digits_val(s, a, e1)
            };
            if count == 0 || !sp_tag(s, e1, "d"@) {
                None
            } else {
                let b = e1 + "d"@.len();
                let e2 = run_end(s, b, digit_p());
                if e2 == b || e2 - b > 9 {
                    None
                } else {
                    let sides = digits_val(s, b, e2);
                    if sides == 0 || !sp_tag(s, e2, "}"@) {
                        None
                    } else {
                        Some(((count as u64, sides as u64), e2 + "}"@.len()))
                    }
                }
            }
        }
    }
}

/// Parses a dice roll at `i`.
fn parse_dice(s: &str, len: usize, i: usize) -> (r: Option<((u64, u64), usize)>)
    requires
        s@.len() == len as int,
        i <= len,
    ensures
        match sp_dice(s@, i as int) {
            Some((d, j)) => r == Some((d, j as usize)) && i < j <= len,
            None => r is None,
        },
{
    proof {
        reveal_strlit("{");
        reveal_strlit("d");
        reveal_strlit("}");
        reveal_with_fuel(pow10, 11);
    }
    let a = match parse_tag(s, len, i, "{") {
        Some(a) => a,
        None => {
            return None;
        },
    };
    let e1 = scan_digits(s, len, a);
    proof {
        lemma_run_end(s@, a as int, digit_p());
    }
    if e1 - a > 9 {
        return None;
    }
    let count: u64 = if e1 == a {
        1
    } else {
        proof {
            lemma_pow10_mono(((e1 - a) as nat), 9);
        }
        digits_value(s, len, a, e1)
    };
    if count == 0 {
        return None;
    }
    let b = match parse_tag(s, len, e1, "d") {
        Some(b) => b,
        None => {
            return None;
        },
    };
    let (sides, e2) = match parse_u64_digits(s, len, b, 9) {
        Some(p) => p,
        None => {
            return None;
        },
    };
    if sides == 0 {
        return None;
    }
    let j = match parse_tag(s, len, e2, "}") {
        Some(j) => j,
        None => {
            return None;
        },
    };
    Some(((count, sides), j))
}

/// A local interpolation at `i`: `{identifier`, filters, `}`.
pub open spec fn sp_interp(s: Seq<char>, i: int) -> Option<(RuleInstModel, int)> {
    if !sp_tag(s, i, "{"@) {
        None
    } else {
        match sp_ident(s, i + "{"@.len()) {
            None => None,
            Some((id, j)) => {
                let (fs, p) = sp_filters(s, j);
                if sp_tag(s, p, "}"@) {
                    Some((RuleInstModel::Interpolation(id, fs), p + "}"@.len()))
                } else {
                    None
                }
            },
        }
    }
}

/// Parses a local interpolation at `i`.
fn parse_interp(s: &str, len: usize, i: usize) -> (r: Option<(RuleInst, usize)>)
    requires
        s@.len() == len as int,
        i <= len,
    ensures
        match sp_interp(s@, i as int) {
            Some((v, j)) => {
                &&& r is Some
                &&& r.unwrap().0@ == v
                &&& r.unwrap().1 == j
                &&& i < r.unwrap().1 <= len
            },
            None => r is None,
        },
{
    proof {
        reveal_strlit("{");
        reveal_strlit("}");
    }
    let a = match parse_tag(s, len, i, "{") {
        Some(a) => a,
        None => {
            return None;
        },
    };
    let (id, j) = match parse_ident(s, len, a) {
        Some(p) => p,
        None => {
            return None;
        },
    };
    let (fs, p) = parse_filters(s, len, j);
    let j2 = match parse_tag(s, len, p, "}") {
        Some(j2) => j2,
        None => {
            return None;
        },
    };
    Some((RuleInst::Interpolation(id, fs), j2))
}

/// An external interpolation at `i`: `{`, a namespace, `/`, an identifier,
/// filters, `}`. Its fully-qualified target is the namespace, `/`, and the
/// identifier.
pub open spec fn sp_ext_interp(s: Seq<char>, i: int) -> Option<(RuleInstModel, int)> {
    if !sp_tag(s, i, "{"@) {
        None
    } else {
        match sp_namespace(s, i + "{"@.len()) {
            None => None,
            Some((ns, k)) => {
                if !sp_tag(s, k, "/"@) {
                    None
                } else {
                    match sp_ident(s, k + "/"@.len()) {
                        None => None,
                        Some((id, m)) => {
                            let (fs, p) = sp_filters(s, m);
                            if sp_tag(s, p, "}"@) {
                                Some(
                                    (
                                        RuleInstModel::ExternalInterpolation(
                                            ns,
                                            id,
                                            ns_prefixed(ns, id),
                                            fs,
                                        ),
                                        p + "}"@.len(),
                                    ),
                                )
                            } else {
                                None
                            }
                        },
                    }
                }
            },
        }
    }
}

/// Parses an external interpolation at `i`.
fn parse_ext_interp(s: &str, len: usize, i: usize) -> (r: Option<(RuleInst, usize)>)
    requires
        s@.len() == len as int,
        i <= len,
    ensures
        match sp_ext_interp(s@, i as int) {
            Some((v, j)) => {
                &&& r is Some
                &&& r.unwrap().0@ == v
                &&& r.unwrap().1 == j
                &&& i < r.unwrap().1 <= len
            },
            None => r is None,
        },
{
    proof {
        reveal_strlit("{");
        reveal_strlit("}");
        reveal_strlit("/");
    }
    let a = match parse_tag(s, len, i, "{") {
        Some(a) => a,
        None => {
            return None;
        },
    };
    let (ns, k) = match parse_namespace(s, len, a) {
        Some(p) => p,
        None => {
            return None;
        },
    };
    let k2 = match parse_tag(s, len, k, "/") {
        Some(k2) => k2,
        None => {
            return None;
        },
    };
    let (id, m) = match parse_ident(s, len, k2) {
        Some(p) => p,
        None => {
            return None;
        },
    };
    let (fs, p) = parse_filters(s, len, m);
    let j2 = match parse_tag(s, len, p, "}") {
        Some(j2) => j2,
        None => {
            return None;
        },
    };
    let nsid = ns.clone().concat("/").concat(id.as_str());
    Some((RuleInst::ExternalInterpolation(ns, id, nsid, fs), j2))
}

/// One part of a rule body at `i`, tried in order: a dice roll, an external
/// interpolation, a local interpolation, a literal run.
pub open spec fn sp_part(s: Seq<char>, i: int) -> Option<(RuleInstModel, int)> {
    match sp_dice(s, i) {
        Some(((c, d), j)) => Some((RuleInstModel::DiceRoll(c, d), j)),
        None => match sp_ext_interp(s, i) {
            Some(p) => Some(p),
            None => match sp_interp(s, i) {
                Some(p) => Some(p),
                None => {
                    let e = run_end(s, i, rule_lit_p());
                    if e > i {
                        Some((RuleInstModel::Literal(s.subrange(i, e)), e))
                    } else {
                        None
                    }
                },
            },
        },
    }
}

/// Parses one rule-body part at `i`.
fn parse_part(s: &str, len: usize, i: usize) -> (r: Option<(RuleInst, usize)>)
    requires
        s@.len() == len as int,
        i <= len,
    ensures
        match sp_part(s@, i as int) {
            Some((v, j)) => {
                &&& r is Some
                &&& r.unwrap().0@ == v
                &&& r.unwrap().1 == j
                &&& i < r.unwrap().1 <= len
            },
            None => r is None,
        },
{
    if let Some(((c, d), j)) = parse_dice(s, len, i) {
        return Some((RuleInst::DiceRoll(c, d), j));
    }
    if let Some(p) = parse_ext_interp(s, len, i) {
        return Some(p);
    }
    if let Some(p) = parse_interp(s, len, i) {
        return Some(p);
    }
    let e = scan_rule_lit(s, len, i);
    proof {
        lemma_run_end(s@, i as int, rule_lit_p());
    }
    if e > i {
        let sub = s.substring_char(i, e);
        Some((RuleInst::Literal(sub.to_owned()), e))
    } else {
        None
    }
}

/// The parts of a rule body at `i`: as many as parse, one after another.
pub open spec fn sp_parts(s: Seq<char>, i: int) -> (Seq<RuleInstModel>, int)
    decreases s.len() - i when 0 <= i <= s.len()
{
    match sp_part(s, i) {
        Some((v, j)) => {
            if i < j <= s.len() {
                let (rest, e) = sp_parts(s, j);
                (seq![v] + rest, e)
            } else {
                (seq![v], j)
            }
        },
        None => (Seq::empty(), i),
    }
}

/// A whole rule body: one or more parts that consume the entire input.
pub open spec fn sp_body(line: Seq<char>) -> Option<Seq<RuleInstModel>> {
    let (ps, e) = sp_parts(line, 0);
    if ps.len() > 0 && e == line.len() {
        Some(ps)
    } else {
        None
    }
}

/// Parses a whole rule body: one or more concatenated parts covering all of
/// `line`. Trailing text that no part accepts is a parse failure, so that a
/// malformed interpolation cannot silently become a literal.
fn parse_body(line: &str) -> (r: Option<Vec<RuleInst>>)
    ensures
        match sp_body(line@) {
            Some(ps) => r is Some && r.unwrap()@.map_values(|p: RuleInst| p@) == ps,
            None => r is None,
        },
{
    let len = line.unicode_len();
    let mut parts: Vec<RuleInst> = Vec::new();
    let mut cur: usize = 0;
    proof {
        assert(parts@.map_values(|p: RuleInst| p@) + sp_parts(line@, 0).0 =~= sp_parts(
            line@,
            0,
        ).0);
    }
    loop
        invariant
            line@.len() == len as int,
            cur <= len,
            sp_parts(line@, 0).0 == parts@.map_values(|p: RuleInst| p@) + sp_parts(
                line@,
                cur as int,
            ).0,
            sp_parts(line@, 0).1 == sp_parts(line@, cur as int).1,
        ensures
            cur as int == sp_parts(line@, 0).1,
            parts@.map_values(|p: RuleInst| p@) == sp_parts(line@, 0).0,
            cur <= len,
        decreases len - cur,
    {
        match parse_part(line, len, cur) {
            Some((v, j)) => {
                parts.push(v);
                proof {
                    assert(sp_parts(line@, 0).0 =~= parts@.map_values(|p: RuleInst| p@)
                        + sp_parts(line@, j as int).0);
                }
                cur = j;
            },
            None => {
                proof {
                    assert(sp_parts(line@, cur as int).0 =~= Seq::<RuleInstModel>::empty());
                    assert(parts@.map_values(|p: RuleInst| p@) + Seq::<
                        RuleInstModel,
                    >::empty() =~= parts@.map_values(|p: RuleInst| p@));
                }
                break;
            },
        }
    }
    if parts.len() > 0 && cur == len {
        Some(parts)
    } else {
        None
    }
}


// ---------------------------------------------------------------------------
// Rule lines and tables
// ---------------------------------------------------------------------------
use crate::model::Rule;
use crate::model::RuleModel;

/// A rule line at `i`: a weight, `: `, then a rule body covering the rest of
/// the line. The rule records the body's source text as its `raw` form, and
/// its parts are exactly the parse of that text.
pub open spec fn sp_rule_line(s: Seq<char>, i: int) -> Option<(RuleModel, int)> {
    match sp_weight(s, i) {
        None => None,
        Some((w, p)) => {
            if !sp_tag(s, p, ": "@) {
                None
            } else {
                let b = p + ": "@.len();
                let e = run_end(s, b, not_eol_p());
                let raw = s.subrange(b, e);
                match sp_body(raw) {
                    None => None,
                    Some(ps) => Some((RuleModel { raw, weight: w, parts: ps }, e)),
                }
            }
        },
    }
}

/// Parses a rule line at `i`.
fn parse_rule_line(s: &str, len: usize, i: usize) -> (r: Option<(Rule, usize)>)
    requires
        s@.len() == len as int,
        i <= len,
    ensures
        match sp_rule_line(s@, i as int) {
            Some((v, j)) => {
                &&& r is Some
                &&& r.unwrap().0@ == v
                &&& r.unwrap().1 == j
                &&& i < r.unwrap().1 <= len
            },
            None => r is None,
        },
{
    proof {
        reveal_strlit(": ");
    }
    let (w, p) = match parse_weight(s, len, i) {
        Some(r0) => r0,
        None => {
            return None;
        },
    };
    let b = match parse_tag(s, len, p, ": ") {
        Some(b) => b,
        None => {
            return None;
        },
    };
    let e = scan_line(s, len, b);
    let raw = s.substring_char(b, e);
    let parts = match parse_body(raw) {
        Some(ps) => ps,
        None => {
            return None;
        },
    };
    Some((Rule { raw: raw.to_owned(), weight: w, parts }, e))
}

/// The rules after the first: as many further `line break` + `rule line`
/// pairs as parse.
pub open spec fn sp_rules_rest(s: Seq<char>, j: int) -> (Seq<RuleModel>, int)
    decreases s.len() - j when 0 <= j <= s.len()
{
    match sp_eol(s, j) {
        Some(k) => {
            if j < k <= s.len() {
                match sp_rule_line(s, k) {
                    Some((r1, m)) => {
                        if j < m <= s.len() {
                            let (rest, e) = sp_rules_rest(s, m);
                            (seq![r1] + rest, e)
                        } else {
                            (seq![r1], m)
                        }
                    },
                    None => (Seq::empty(), j),
                }
            } else {
                (Seq::empty(), j)
            }
        },
        None => (Seq::empty(), j),
    }
}

/// A rule block at `i`: one rule per line, separated by single line breaks.
/// The block ends before a blank line, or where the next line is no rule.
pub open spec fn sp_rules(s: Seq<char>, i: int) -> Option<(Seq<RuleModel>, int)> {
    match sp_rule_line(s, i) {
        None => None,
        Some((r0, j)) => {
            if i <= j <= s.len() {
                let (rest, e) = sp_rules_rest(s, j);
                Some((seq![r0] + rest, e))
            } else {
                Some((seq![r0], j))
            }
        },
    }
}

/// Parses a rule block at `i`.
fn parse_rules(s: &str, len: usize, i: usize) -> (r: Option<(Vec<Rule>, usize)>)
    requires
        s@.len() == len as int,
        i <= len,
    ensures
        match sp_rules(s@, i as int) {
            Some((v, j)) => {
                &&& r is Some
                &&& r.unwrap().0@.map_values(|x: Rule| x@) == v
                &&& r.unwrap().1 == j
                &&& i < r.unwrap().1 <= len
            },
            None => r is None,
        },
{
    let (r0, j) = match parse_rule_line(s, len, i) {
        Some(p) => p,
        None => {
            return None;
        },
    };
    let mut rules: Vec<Rule> = Vec::new();
    rules.push(r0);
    let mut cur: usize = j;
    let ghost first = seq![rules@[0]@];
    proof {
        assert(rules@.map_values(|x: Rule| x@) =~= first);
        assert(first + sp_rules_rest(s@, j as int).0 =~= sp_rules(s@, i as int).unwrap().0);
    }
    loop
        invariant
            s@.len() == len as int,
            i < cur <= len,
            sp_rules(s@, i as int) is Some,
            sp_rules(s@, i as int).unwrap().0 == rules@.map_values(|x: Rule| x@)
                + sp_rules_rest(s@, cur as int).0,
            sp_rules(s@, i as int).unwrap().1 == sp_rules_rest(s@, cur as int).1,
        ensures
            cur as int == sp_rules(s@, i as int).unwrap().1,
            rules@.map_values(|x: Rule| x@) == sp_rules(s@, i as int).unwrap().0,
            i < cur <= len,
        decreases len - cur,
    {
        let mut advanced = false;
        if let Some(k) = parse_eol(s, len, cur) {
            if let Some((r1, m)) = parse_rule_line(s, len, k) {
                rules.push(r1);
                proof {
                    assert(sp_rules(s@, i as int).unwrap().0 =~= rules@.map_values(
                        |x: Rule| x@,
                    ) + sp_rules_rest(s@, m as int).0);
                }
                cur = m;
                advanced = true;
            }
        }
        if !advanced {
            proof {
                assert(sp_rules_rest(s@, cur as int).0 =~= Seq::<RuleModel>::empty());
                assert(rules@.map_values(|x: Rule| x@) + Seq::<RuleModel>::empty() =~= rules@
                    .map_values(|x: Rule| x@));
            }
            break;
        }
    }
    Some((rules, cur))
}

// ---------------------------------------------------------------------------
// Frontmatter, pragma, whole tables
// ---------------------------------------------------------------------------
/// A frontmatter closing line at `p`: `---` and a line break.
pub open spec fn sp_fm_close(s: Seq<char>, p: int) -> Option<int> {
    if !sp_tag(s, p, "---"@) {
        None
    } else {
        sp_eol(s, p + "---"@.len())
    }
}

/// A frontmatter block at `i`, delimited by `---` lines: `id`, `title`, then
/// an optional `export`, each as a `name: value` line, in that order and with
/// nothing else.
pub open spec fn sp_frontmatter(s: Seq<char>, i: int) -> Option<
    ((Seq<char>, Seq<char>, bool), int),
> {
    if !sp_tag(s, i, "---"@) {
        None
    } else {
        match sp_eol(s, i + "---"@.len()) {
            None => None,
            Some(p1) => {
                if !sp_tag(s, p1, "id: "@) {
                    None
                } else {
                    match sp_ident(s, p1 + "id: "@.len()) {
                        None => None,
                        Some((id, q1)) => {
                            match sp_eol(s, q1) {
                                None => None,
                                Some(p2) => {
                                    if !sp_tag(s, p2, "title: "@) {
                                        None
                                    } else {
                                        let t0 = p2 + "title: "@.len();
                                        let te = run_end(s, t0, title_p());
                                        if te == t0 {
                                            None
                                        } else {
                                            let title = s.subrange(t0, te);
                                            match sp_eol(s, te) {
                                                None => None,
                                                Some(p3) => {
                                                    let export_part = if sp_tag(
                                                        s,
                                                        p3,
                                                        "export: "@,
                                                    ) {
                                                        let v0 = p3 + "export: "@.len();
                                                        if sp_tag(s, v0, "true"@) {
                                                            match sp_eol(s, v0 + "true"@.len()) {
                                                                Some(p4) => Some((true, p4)),
                                                                None => None,
                                                            }
                                                        } else if sp_tag(s, v0, "false"@) {
                                                            match sp_eol(s, v0 + "false"@.len()) {
                                                                Some(p4) => Some((false, p4)),
                                                                None => None,
                                                            }
                                                        } else {
                                                            None
                                                        }
                                                    } else {
                                                        None
                                                    };
                                                    let exp_pos: (bool, int) = match export_part {
                                                        Some((b, p4)) => (b, p4),
                                                        None => (false, p3),
                                                    };
                                                    match sp_fm_close(s, exp_pos.1) {
                                                        None => None,
                                                        Some(end) => Some(
                                                            ((id, title, exp_pos.0), end),
                                                        ),
                                                    }
                                                },
                                            }
                                        }
                                    }
                                },
                            }
                        },
                    }
                }
            },
        }
    }
}

/// Parses a frontmatter block at `i`.
fn parse_frontmatter(s: &str, len: usize, i: usize) -> (r: Option<((String, String, bool), usize)>)
    requires
        s@.len() == len as int,
        i <= len,
    ensures
        match sp_frontmatter(s@, i as int) {
            Some((v, j)) => {
                &&& r is Some
                &&& r.unwrap().0.0@ == v.0
                &&& r.unwrap().0.1@ == v.1
                &&& r.unwrap().0.2 == v.2
                &&& r.unwrap().1 == j
                &&& i < r.unwrap().1 <= len
            },
            None => r is None,
        },
{
    proof {
        reveal_strlit("---");
        reveal_strlit("id: ");
        reveal_strlit("title: ");
        reveal_strlit("export: ");
        reveal_strlit("true");
        reveal_strlit("false");
    }
    let d1 = match parse_tag(s, len, i, "---") {
        Some(d1) => d1,
        None => {
            return None;
        },
    };
    let p1 = match parse_eol(s, len, d1) {
        Some(p1) => p1,
        None => {
            return None;
        },
    };
    let a1 = match parse_tag(s, len, p1, "id: ") {
        Some(a1) => a1,
        None => {
            return None;
        },
    };
    let (id, q1) = match parse_ident(s, len, a1) {
        Some(p) => p,
        None => {
            return None;
        },
    };
    let p2 = match parse_eol(s, len, q1) {
        Some(p2) => p2,
        None => {
            return None;
        },
    };
    let a2 = match parse_tag(s, len, p2, "title: ") {
        Some(a2) => a2,
        None => {
            return None;
        },
    };
    let te = scan_title(s, len, a2);
    if te == a2 {
        return None;
    }
    let title = s.substring_char(a2, te).to_owned();
    let p3 = match parse_eol(s, len, te) {
        Some(p3) => p3,
        None => {
            return None;
        },
    };
    let mut export = false;
    let mut p4: usize = p3;
    if let Some(v0) = parse_tag(s, len, p3, "export: ") {
        proof {
            assert(s@.subrange(p3 as int, p3 as int + "export: "@.len())[0] == 'e');
            assert(s@[p3 as int] == 'e');
            assert(!sp_tag(s@, p3 as int, "---"@)) by {
                if sp_tag(s@, p3 as int, "---"@) {
                    assert(s@.subrange(p3 as int, p3 as int + "---"@.len())[0] == '-');
                }
            }
        }
        if let Some(v1) = parse_tag(s, len, v0, "true") {
            match parse_eol(s, len, v1) {
                Some(q) => {
                    export = true;
                    p4 = q;
                },
                None => {
                    return None;
                },
            }
        } else if let Some(v1) = parse_tag(s, len, v0, "false") {
            match parse_eol(s, len, v1) {
                Some(q) => {
                    export = false;
                    p4 = q;
                },
                None => {
                    return None;
                },
            }
        } else {
            return None;
        }
    }
    let d2 = match parse_tag(s, len, p4, "---") {
        Some(d2) => d2,
        None => {
            return None;
        },
    };
    let end = match parse_eol(s, len, d2) {
        Some(end) => end,
        None => {
            return None;
        },
    };
    Some(((id, title, export), end))
}

/// A namespace pragma line at `i`: `@@PRAGMA namespace=`, a namespace, and a
/// line break.
pub open spec fn sp_pragma(s: Seq<char>, i: int) -> Option<(Seq<char>, int)> {
    if !sp_tag(s, i, "@@PRAGMA namespace="@) {
        None
    } else {
        match sp_namespace(s, i + "@@PRAGMA namespace="@.len()) {
            None => None,
            Some((ns, j)) => {
                match sp_eol(s, j) {
                    None => None,
                    Some(k) => Some((ns, k)),
                }
            },
        }
    }
}

/// Parses a namespace pragma line at `i`.
fn parse_pragma(s: &str, len: usize, i: usize) -> (r: Option<(String, usize)>)
    requires
        s@.len() == len as int,
        i <= len,
    ensures
        match sp_pragma(s@, i as int) {
            Some((v, j)) => {
                &&& r is Some
                &&& r.unwrap().0@ == v
                &&& r.unwrap().1 == j
                &&& i < r.unwrap().1 <= len
            },
            None => r is None,
        },
{
    proof {
        reveal_strlit("@@PRAGMA namespace=");
    }
    let a = match parse_tag(s, len, i, "@@PRAGMA namespace=") {
        Some(a) => a,
        None => {
            return None;
        },
    };
    let (ns, j) = match parse_namespace(s, len, a) {
        Some(p) => p,
        None => {
            return None;
        },
    };
    let k = match parse_eol(s, len, j) {
        Some(k) => k,
        None => {
            return None;
        },
    };
    Some((ns, k))
}

/// The parse of one table definition, before data-model construction.
pub struct TableParse {
    pub ns: Option<Seq<char>>,
    pub id: Seq<char>,
    pub title: Seq<char>,
    pub export: bool,
    pub rules: Seq<RuleModel>,
}

/// One parsed table definition, before data-model construction.
#[derive(Debug)]
pub struct ParsedTable {
    pub namespace: Option<String>,
    pub id: String,
    pub title: String,
    pub export: bool,
    pub rules: Vec<Rule>,
}

impl View for ParsedTable {
    type V = TableParse;

    open spec fn view(&self) -> TableParse {
        TableParse {
            ns: match &self.namespace {
                Some(n) => Some(n@),
                None => None,
            },
            id: self.id@,
            title: self.title@,
            export: self.export,
            rules: self.rules@.map_values(|x: Rule| x@),
        }
    }
}

/// A table definition at `i`: an optional namespace pragma, a frontmatter
/// block, then a rule block.
pub open spec fn sp_table(s: Seq<char>, i: int) -> Option<(TableParse, int)> {
    let pragma = sp_pragma(s, i);
    let np: (Option<Seq<char>>, int) = match pragma {
        Some((n, j)) => (Some(n), j),
        None => (None, i),
    };
    match sp_frontmatter(s, np.1) {
        None => None,
        Some(((id, title, export), q)) => {
            match sp_rules(s, q) {
                None => None,
                Some((rs, e)) => Some(
                    (TableParse { ns: np.0, id, title, export, rules: rs }, e),
                ),
            }
        },
    }
}

/// Parses a table definition at `i`.
fn parse_table(s: &str, len: usize, i: usize) -> (r: Option<(ParsedTable, usize)>)
    requires
        s@.len() == len as int,
        i <= len,
    ensures
        match sp_table(s@, i as int) {
            Some((v, j)) => {
                &&& r is Some
                &&& r.unwrap().0@ == v
                &&& r.unwrap().1 == j
                &&& i < r.unwrap().1 <= len
            },
            None => r is None,
        },
{
    let mut namespace: Option<String> = None;
    let mut p: usize = i;
    if let Some((ns, j)) = parse_pragma(s, len, i) {
        namespace = Some(ns);
        p = j;
    }
    let ((id, title, export), q) = match parse_frontmatter(s, len, p) {
        Some(r0) => r0,
        None => {
            return None;
        },
    };
    let (rules, e) = match parse_rules(s, len, q) {
        Some(r0) => r0,
        None => {
            return None;
        },
    };
    let t = ParsedTable { namespace, id, title, export, rules };
    Some((t, e))
}

/// The tables after the first: as many further `blank line` + `table` groups
/// as parse.
pub open spec fn sp_tables_rest(s: Seq<char>, j: int) -> (Seq<TableParse>, int)
    decreases s.len() - j when 0 <= j <= s.len()
{
    match sp_eol(s, j) {
        Some(k1) => {
            if j < k1 <= s.len() {
                match sp_eol(s, k1) {
                    Some(k2) => {
                        if k1 < k2 <= s.len() {
                            match sp_table(s, k2) {
                                Some((t, m)) => {
                                    if j < m <= s.len() {
                                        let (rest, e) = sp_tables_rest(s, m);
                                        (seq![t] + rest, e)
                                    } else {
                                        (seq![t], m)
                                    }
                                },
                                None => (Seq::empty(), j),
                            }
                        } else {
                            (Seq::empty(), j)
                        }
                    },
                    None => (Seq::empty(), j),
                }
            } else {
                (Seq::empty(), j)
            }
        },
        None => (Seq::empty(), j),
    }
}

/// One or more table definitions, separated by blank lines.
pub open spec fn sp_tables(s: Seq<char>, i: int) -> Option<(Seq<TableParse>, int)> {
    match sp_table(s, i) {
        None => None,
        Some((t0, j)) => {
            if i <= j <= s.len() {
                let (rest, e) = sp_tables_rest(s, j);
                Some((seq![t0] + rest, e))
            } else {
                Some((seq![t0], j))
            }
        },
    }
}

/// The whole input as a sequence of table definitions: the table list must
/// consume the input exactly.
pub open spec fn sp_parse_tables(s: Seq<char>) -> Option<Seq<TableParse>> {
    match sp_tables(s, 0) {
        None => None,
        Some((ts, e)) => {
            if e == s.len() {
                Some(ts)
            } else {
                None
            }
        },
    }
}


/// Locates where and why table-definition text stopped parsing: the
/// character offset of the failing construct and a human-readable
/// expectation, enough to point into the offending source line. `from` is
/// the end of the longest prefix of whole tables that parsed.
fn diagnose(s: &str, len: usize, from: usize) -> (r: (usize, &'static str))
    requires
        s@.len() == len as int,
        from <= len,
    ensures
        r.0 <= len,
{
    proof {
        reveal_strlit("@@PRAGMA namespace=");
        reveal_strlit("---");
        reveal_strlit("id: ");
        reveal_strlit("title: ");
        reveal_strlit("export: ");
        reveal_strlit("true");
        reveal_strlit("false");
    }
    let mut p = from;
    if from > 0 {
        let k1 = match parse_eol(s, len, from) {
            Some(k1) => k1,
            None => {
                return (from, "expected a blank line between table definitions or the end of input");
            },
        };
        match parse_eol(s, len, k1) {
            Some(k2) => {
                p = k2;
            },
            None => {
                return (k1, "expected a blank line between table definitions or the end of input");
            },
        }
    }
    if let Some(a) = parse_tag(s, len, p, "@@PRAGMA namespace=") {
        let j = match parse_namespace(s, len, a) {
            Some((_, j)) => j,
            None => {
                return (a, "expected a namespace like @name/identifier");
            },
        };
        match parse_eol(s, len, j) {
            Some(k) => {
                p = k;
            },
            None => {
                return (j, "expected a line break after the namespace pragma");
            },
        }
    }
    let d1 = match parse_tag(s, len, p, "---") {
        Some(d) => d,
        None => {
            return (p, "expected a frontmatter block opened by ---");
        },
    };
    let p1 = match parse_eol(s, len, d1) {
        Some(x) => x,
        None => {
            return (d1, "expected a line break after the opening ---");
        },
    };
    let a1 = match parse_tag(s, len, p1, "id: ") {
        Some(a) => a,
        None => {
            return (p1, "expected an id attribute like id: name");
        },
    };
    let q1 = match parse_ident(s, len, a1) {
        Some((_, q1)) => q1,
        None => {
            return (a1, "expected an identifier after id: ");
        },
    };
    let p2 = match parse_eol(s, len, q1) {
        Some(x) => x,
        None => {
            return (q1, "expected a line break after the id attribute");
        },
    };
    let a2 = match parse_tag(s, len, p2, "title: ") {
        Some(a) => a,
        None => {
            return (p2, "expected a title attribute like title: text");
        },
    };
    let te = scan_title(s, len, a2);
    if te == a2 {
        return (a2, "expected title text after title: ");
    }
    let p3 = match parse_eol(s, len, te) {
        Some(x) => x,
        None => {
            return (te, "expected a line break after the title attribute");
        },
    };
    let mut p4 = p3;
    if let Some(v0) = parse_tag(s, len, p3, "export: ") {
        let v1 = if let Some(v1) = parse_tag(s, len, v0, "true") {
            v1
        } else if let Some(v1) = parse_tag(s, len, v0, "false") {
            v1
        } else {
            return (v0, "expected export: true or export: false");
        };
        match parse_eol(s, len, v1) {
            Some(x) => {
                p4 = x;
            },
            None => {
                return (v1, "expected a line break after the export attribute");
            },
        }
    }
    let d2 = match parse_tag(s, len, p4, "---") {
        Some(d) => d,
        None => {
            return (p4, "expected an attribute or the closing ---");
        },
    };
    let p5 = match parse_eol(s, len, d2) {
        Some(x) => x,
        None => {
            return (d2, "expected a line break after the closing ---");
        },
    };
    let mut q2 = p5;
    loop
        invariant
            s@.len() == len as int,
            q2 <= len,
        decreases len - q2,
    {
        let j = match parse_rule_line(s, len, q2) {
            Some((_, j)) => j,
            None => {
                return (q2, "expected a weighted rule like 1: text");
            },
        };
        match parse_eol(s, len, j) {
            Some(k) => {
                if at_eol(s, len, k) || k == len {
                    return (k, "expected another table definition after the blank line");
                }
                q2 = k;
            },
            None => {
                return (j, "expected a line break or the end of input after a rule");
            },
        }
    }
}

/// Parses the whole input as a sequence of table definitions. On failure,
/// reports the character offset of the failing construct and an expectation
/// message.
pub fn parse_tables_raw(s: &str) -> (r: Result<Vec<ParsedTable>, (usize, &'static str)>)
    ensures
        match sp_parse_tables(s@) {
            Some(ts) => r is Ok && r.unwrap()@.map_values(|t: ParsedTable| t@) == ts,
            None => r is Err && r.unwrap_err().0 <= s@.len(),
        },
{
    let len = s.unicode_len();
    let (t0, j) = match parse_table(s, len, 0) {
        Some(p) => p,
        None => {
            return Err(diagnose(s, len, 0));
        },
    };
    let mut tables: Vec<ParsedTable> = Vec::new();
    tables.push(t0);
    let mut cur: usize = j;
    let ghost first = seq![tables@[0]@];
    proof {
        assert(tables@.map_values(|t: ParsedTable| t@) =~= first);
        assert(first + sp_tables_rest(s@, j as int).0 =~= sp_tables(s@, 0).unwrap().0);
    }
    loop
        invariant
            s@.len() == len as int,
            0 < cur <= len,
            sp_tables(s@, 0) is Some,
            sp_tables(s@, 0).unwrap().0 == tables@.map_values(|t: ParsedTable| t@)
                + sp_tables_rest(s@, cur as int).0,
            sp_tables(s@, 0).unwrap().1 == sp_tables_rest(s@, cur as int).1,
        ensures
            cur as int == sp_tables(s@, 0).unwrap().1,
            tables@.map_values(|t: ParsedTable| t@) == sp_tables(s@, 0).unwrap().0,
            cur <= len,
        decreases len - cur,
    {
        let mut advanced = false;
        if let Some(k1) = parse_eol(s, len, cur) {
            if let Some(k2) = parse_eol(s, len, k1) {
                if let Some((t1, m)) = parse_table(s, len, k2) {
                    tables.push(t1);
                    proof {
                        assert(sp_tables(s@, 0).unwrap().0 =~= tables@.map_values(
                            |t: ParsedTable| t@,
                        ) + sp_tables_rest(s@, m as int).0);
                    }
                    cur = m;
                    advanced = true;
                }
            }
        }
        if !advanced {
            proof {
                assert(sp_tables_rest(s@, cur as int).0 =~= Seq::<TableParse>::empty());
                assert(tables@.map_values(|t: ParsedTable| t@) + Seq::<
                    TableParse,
                >::empty() =~= tables@.map_values(|t: ParsedTable| t@));
            }
            break;
        }
    }
    if cur == len {
        Ok(tables)
    } else {
        Err(diagnose(s, len, cur))
    }
}


// ---------------------------------------------------------------------------
// Well-formedness of parsed rules
// ---------------------------------------------------------------------------
use crate::model::filter_wf;
use crate::model::inst_wf;
use crate::model::rule_wf;

/// Transform filters and joins are well-formed; a parsed `unique` count is
/// between two and the bound.
pub proof fn lemma_sp_transforms_wf(s: Seq<char>, i: int)
    requires
        0 <= i <= s.len(),
    ensures
        forall|k: int|
            0 <= k < sp_transforms(s, i).0.len() ==> filter_wf(#[trigger] sp_transforms(s, i).0[k]),
    decreases s.len() - i,
{
    if sp_tag(s, i, "|"@) {
        match sp_transform(s, i + "|"@.len()) {
            Some((f, j)) => {
                if i < j <= s.len() {
                    lemma_sp_transforms_wf(s, j);
                    assert forall|k: int| 0 <= k < sp_transforms(s, i).0.len() implies filter_wf(
                        #[trigger] sp_transforms(s, i).0[k],
                    ) by {
                        if k > 0 {
                            assert(sp_transforms(s, i).0[k] == sp_transforms(s, j).0[k - 1]);
                        }
                    }
                }
            },
            None => {},
        }
    }
}

/// Every filter of a parsed pipeline is well-formed.
pub proof fn lemma_sp_filters_wf(s: Seq<char>, i: int)
    requires
        0 <= i <= s.len(),
    ensures
        forall|k: int|
            0 <= k < sp_filters(s, i).0.len() ==> filter_wf(#[trigger] sp_filters(s, i).0[k]),
{
    lemma_sp_transforms_wf(s, i);
    let (ts, p1) = sp_transforms(s, i);
    let fs = sp_filters(s, i).0;
    assert forall|k: int| 0 <= k < fs.len() implies filter_wf(#[trigger] fs[k]) by {
        if k < ts.len() {
            assert(fs[k] == ts[k]);
        }
    }
}

/// Positions advance monotonically through the transform filters.
pub proof fn lemma_sp_transforms_bounds(s: Seq<char>, i: int)
    requires
        0 <= i <= s.len(),
    ensures
        i <= sp_transforms(s, i).1 <= s.len(),
    decreases s.len() - i,
{
    if sp_tag(s, i, "|"@) {
        match sp_transform(s, i + "|"@.len()) {
            Some((f, j)) => {
                if i < j <= s.len() {
                    lemma_sp_transforms_bounds(s, j);
                }
            },
            None => {},
        }
    }
}

/// A parsed quoted string ends inside the input.
pub proof fn lemma_sp_str_like_bounds(s: Seq<char>, i: int)
    requires
        0 <= i <= s.len(),
        sp_str_like(s, i) is Some,
    ensures
        0 <= sp_str_like(s, i).unwrap().1 <= s.len(),
{
    let a = i + "'"@.len();
    lemma_run_end(s, a, str_like_p());
}

/// A parsed join filter ends inside the input.
pub proof fn lemma_sp_join_bounds(s: Seq<char>, i: int)
    requires
        0 <= i <= s.len(),
        sp_join(s, i) is Some,
    ensures
        0 <= sp_join(s, i).unwrap().1 <= s.len(),
{
    let a = i + "join("@.len();
    lemma_sp_str_like_bounds(s, a);
    let p = sp_str_like(s, a).unwrap().1;
    if sp_tag(s, p, ", "@) {
        if sp_str_like(s, p + ", "@.len()) is Some {
            lemma_sp_str_like_bounds(s, p + ", "@.len());
        }
    }
}

/// A parsed filter pipeline ends inside the input.
pub proof fn lemma_sp_filters_bounds(s: Seq<char>, i: int)
    requires
        0 <= i <= s.len(),
    ensures
        0 <= sp_filters(s, i).1 <= s.len(),
{
    lemma_sp_transforms_bounds(s, i);
    let p1 = sp_transforms(s, i).1;
    if sp_tag(s, p1, "|"@) {
        match sp_unique(s, p1 + "|"@.len()) {
            Some((n, j)) => {
                let a = p1 + "|"@.len() + "unique("@.len();
                lemma_run_end(s, a, digit_p());
            },
            None => {},
        }
    }
    let p2 = if sp_tag(s, p1, "|"@) {
        match sp_unique(s, p1 + "|"@.len()) {
            Some((n, j)) => j,
            None => p1,
        }
    } else {
        p1
    };
    if sp_tag(s, p2, "|"@) {
        match sp_join(s, p2 + "|"@.len()) {
            Some((f, j)) => {
                lemma_sp_join_bounds(s, p2 + "|"@.len());
            },
            None => {},
        }
    }
}

/// A parsed namespace ends inside the input.
pub proof fn lemma_sp_namespace_bounds(s: Seq<char>, i: int)
    requires
        0 <= i <= s.len(),
        sp_namespace(s, i) is Some,
    ensures
        i < sp_namespace(s, i).unwrap().1 <= s.len(),
{
    let a = i + "@"@.len();
    lemma_run_end(s, a, ident_p());
    let j = sp_ident(s, a).unwrap().1;
    lemma_run_end(s, j + "/"@.len(), ident_p());
}

/// A parsed weight ends inside the input.
pub proof fn lemma_sp_weight_bounds(s: Seq<char>, i: int)
    requires
        0 <= i <= s.len(),
        sp_weight(s, i) is Some,
    ensures
        i < sp_weight(s, i).unwrap().1 <= s.len(),
{
    reveal_strlit(".");
    lemma_run_end(s, i, digit_p());
    let e1 = run_end(s, i, digit_p());
    if sp_tag(s, e1, "."@) {
        lemma_run_end(s, e1 + 1, digit_p());
    }
}

/// Every part a rule body parses to is well-formed: dice counts and sides
/// are positive and bounded, and filters are well-formed.
pub proof fn lemma_sp_part_wf(s: Seq<char>, i: int)
    requires
        0 <= i <= s.len(),
        sp_part(s, i) is Some,
    ensures
        inst_wf(sp_part(s, i).unwrap().0),
{
    reveal_with_fuel(pow10, 11);
    match sp_dice(s, i) {
        Some(((c, d), j)) => {
            let a = i + "{"@.len();
            lemma_run_end(s, a, digit_p());
            let e1 = run_end(s, a, digit_p());
            lemma_digits_val_bound(s, a, e1);
            let b = e1 + "d"@.len();
            lemma_run_end(s, b, digit_p());
            let e2 = run_end(s, b, digit_p());
            lemma_digits_val_bound(s, b, e2);
            lemma_pow10_mono((e1 - a) as nat, 9);
            lemma_pow10_mono((e2 - b) as nat, 9);
        },
        None => {
            match sp_ext_interp(s, i) {
                Some((v, j)) => {
                    let a = i + "{"@.len();
                    lemma_sp_namespace_bounds(s, a);
                    let k = sp_namespace(s, a).unwrap().1;
                    lemma_run_end(s, k + "/"@.len(), ident_p());
                    let m = sp_ident(s, k + "/"@.len()).unwrap().1;
                    lemma_sp_filters_wf(s, m);
                },
                None => {
                    match sp_interp(s, i) {
                        Some((v, j)) => {
                            let a = i + "{"@.len();
                            lemma_run_end(s, a, ident_p());
                            let m = sp_ident(s, a).unwrap().1;
                            lemma_sp_filters_wf(s, m);
                        },
                        None => {},
                    }
                },
            }
        },
    }
}

/// Every part of a parsed part list is well-formed.
pub proof fn lemma_sp_parts_wf(s: Seq<char>, i: int)
    requires
        0 <= i <= s.len(),
    ensures
        forall|k: int|
            0 <= k < sp_parts(s, i).0.len() ==> inst_wf(#[trigger] sp_parts(s, i).0[k]),
    decreases s.len() - i,
{
    match sp_part(s, i) {
        Some((v, j)) => {
            lemma_sp_part_wf(s, i);
            if i < j <= s.len() {
                lemma_sp_parts_wf(s, j);
                assert forall|k: int| 0 <= k < sp_parts(s, i).0.len() implies inst_wf(
                    #[trigger] sp_parts(s, i).0[k],
                ) by {
                    if k > 0 {
                        assert(sp_parts(s, i).0[k] == sp_parts(s, j).0[k - 1]);
                    }
                }
            }
        },
        None => {},
    }
}

/// Every rule a rule line parses to is well-formed.
pub proof fn lemma_sp_rule_line_wf(s: Seq<char>, i: int)
    requires
        0 <= i <= s.len(),
        sp_rule_line(s, i) is Some,
    ensures
        rule_wf(sp_rule_line(s, i).unwrap().0),
{
    lemma_sp_weight_bounds(s, i);
    let (w, p) = sp_weight(s, i).unwrap();
    let b = p + ": "@.len();
    lemma_run_end(s, b, not_eol_p());
    let e = run_end(s, b, not_eol_p());
    let raw = s.subrange(b, e);
    lemma_sp_parts_wf(raw, 0);
}

/// Every rule of a parsed rule block is well-formed.
pub proof fn lemma_sp_rules_rest_wf(s: Seq<char>, j: int)
    requires
        0 <= j <= s.len(),
    ensures
        forall|k: int|
            0 <= k < sp_rules_rest(s, j).0.len() ==> rule_wf(#[trigger] sp_rules_rest(s, j).0[k]),
    decreases s.len() - j,
{
    match sp_eol(s, j) {
        Some(t) => {
            if j < t <= s.len() {
                match sp_rule_line(s, t) {
                    Some((r1, m)) => {
                        lemma_sp_rule_line_wf(s, t);
                        if j < m <= s.len() {
                            lemma_sp_rules_rest_wf(s, m);
                            assert forall|k: int|
                                0 <= k < sp_rules_rest(s, j).0.len() implies rule_wf(
                                #[trigger] sp_rules_rest(s, j).0[k],
                            ) by {
                                if k > 0 {
                                    assert(sp_rules_rest(s, j).0[k] == sp_rules_rest(s, m).0[k
                                        - 1]);
                                }
                            }
                        }
                    },
                    None => {},
                }
            }
        },
        None => {},
    }
}

/// Every rule of a parsed rule block is well-formed.
pub proof fn lemma_sp_rules_wf(s: Seq<char>, i: int)
    requires
        0 <= i <= s.len(),
        sp_rules(s, i) is Some,
    ensures
        forall|k: int|
            0 <= k < sp_rules(s, i).unwrap().0.len() ==> rule_wf(
                #[trigger] sp_rules(s, i).unwrap().0[k],
            ),
{
    let (r0, j) = sp_rule_line(s, i).unwrap();
    lemma_sp_rule_line_wf(s, i);
    if i <= j <= s.len() {
        lemma_sp_rules_rest_wf(s, j);
        assert forall|k: int| 0 <= k < sp_rules(s, i).unwrap().0.len() implies rule_wf(
            #[trigger] sp_rules(s, i).unwrap().0[k],
        ) by {
            if k > 0 {
                assert(sp_rules(s, i).unwrap().0[k] == sp_rules_rest(s, j).0[k - 1]);
            }
        }
    }
}

/// Every rule of a parsed table is well-formed.
pub proof fn lemma_sp_table_wf(s: Seq<char>, i: int)
    requires
        0 <= i <= s.len(),
        sp_table(s, i) is Some,
    ensures
        forall|k: int|
            0 <= k < sp_table(s, i).unwrap().0.rules.len() ==> rule_wf(
                #[trigger] sp_table(s, i).unwrap().0.rules[k],
            ),
{
    let pragma = sp_pragma(s, i);
    let p: int = match pragma {
        Some((n, j)) => j,
        None => i,
    };
    lemma_sp_pragma_bounds(s, i);
    lemma_sp_frontmatter_bounds(s, p);
    let q = sp_frontmatter(s, p).unwrap().1;
    lemma_sp_rules_wf(s, q);
}

/// Frontmatter stays within the input.
pub proof fn lemma_sp_frontmatter_bounds(s: Seq<char>, i: int)
    requires
        0 <= i <= s.len(),
        sp_frontmatter(s, i) is Some,
    ensures
        0 <= sp_frontmatter(s, i).unwrap().1 <= s.len(),
{
    let p1 = sp_eol(s, i + "---"@.len()).unwrap();
    let a1 = p1 + "id: "@.len();
    lemma_run_end(s, a1, ident_p());
    let q1 = sp_ident(s, a1).unwrap().1;
    let p2 = sp_eol(s, q1).unwrap();
    let t0 = p2 + "title: "@.len();
    lemma_run_end(s, t0, title_p());
}

/// A parsed pragma ends inside the input.
pub proof fn lemma_sp_pragma_bounds(s: Seq<char>, i: int)
    requires
        0 <= i <= s.len(),
    ensures
        sp_pragma(s, i) is Some ==> 0 <= sp_pragma(s, i).unwrap().1 <= s.len(),
{
    if sp_tag(s, i, "@@PRAGMA namespace="@) {
        let a = i + "@@PRAGMA namespace="@.len();
        if sp_namespace(s, a) is Some {
            lemma_sp_namespace_bounds(s, a);
        }
    }
}

/// Every rule of every parsed table is well-formed.
pub proof fn lemma_sp_tables_rest_wf(s: Seq<char>, j: int)
    requires
        0 <= j <= s.len(),
    ensures
        forall|t: int, k: int|
            0 <= t < sp_tables_rest(s, j).0.len() && 0 <= k < sp_tables_rest(s, j).0[t].rules.len()
                ==> rule_wf(#[trigger] sp_tables_rest(s, j).0[t].rules[k]),
    decreases s.len() - j,
{
    match sp_eol(s, j) {
        Some(k1) => {
            if j < k1 <= s.len() {
                match sp_eol(s, k1) {
                    Some(k2) => {
                        if k1 < k2 <= s.len() {
                            match sp_table(s, k2) {
                                Some((t0, m)) => {
                                    lemma_sp_table_wf(s, k2);
                                    if j < m <= s.len() {
                                        lemma_sp_tables_rest_wf(s, m);
                                        assert forall|t: int, k: int|
                                            0 <= t < sp_tables_rest(s, j).0.len() && 0 <= k
                                                < sp_tables_rest(s, j).0[t].rules.len() implies rule_wf(
                                            #[trigger] sp_tables_rest(s, j).0[t].rules[k],
                                        ) by {
                                            if t > 0 {
                                                assert(sp_tables_rest(s, j).0[t]
                                                    == sp_tables_rest(s, m).0[t - 1]);
                                            } else {
                                                assert(sp_tables_rest(s, j).0[0] == t0);
                                            }
                                        }
                                    }
                                },
                                None => {},
                            }
                        }
                    },
                    None => {},
                }
            }
        },
        None => {},
    }
}

/// Every rule of every table of a fully parsed input is well-formed.
pub proof fn lemma_sp_parse_tables_wf(s: Seq<char>)
    requires
        sp_parse_tables(s) is Some,
    ensures
        forall|t: int, k: int|
            0 <= t < sp_parse_tables(s).unwrap().len() && 0 <= k < sp_parse_tables(
                s,
            ).unwrap()[t].rules.len() ==> rule_wf(#[trigger] sp_parse_tables(s).unwrap()[t].rules[k]),
{
    let (t0, j) = sp_tables(s, 0).unwrap();
    lemma_sp_table_wf(s, 0);
    let (first, j0) = sp_table(s, 0).unwrap();
    if 0 <= j0 <= s.len() {
        lemma_sp_tables_rest_wf(s, j0);
        assert forall|t: int, k: int|
            0 <= t < sp_parse_tables(s).unwrap().len() && 0 <= k < sp_parse_tables(
                s,
            ).unwrap()[t].rules.len() implies rule_wf(
            #[trigger] sp_parse_tables(s).unwrap()[t].rules[k],
        ) by {
            if t > 0 {
                assert(sp_parse_tables(s).unwrap()[t] == sp_tables_rest(s, j0).0[t - 1]);
            } else {
                assert(sp_parse_tables(s).unwrap()[0] == first);
            }
        }
    }
}


// ---------------------------------------------------------------------------
// Whole-input entry points
// ---------------------------------------------------------------------------
/// Parses a whole input as one rule body.
pub fn rule(input: &str) -> (r: Option<Vec<RuleInst>>)
    ensures
        match sp_body(input@) {
            Some(ps) => r is Some && r.unwrap()@.map_values(|p: RuleInst| p@) == ps,
            None => r is None,
        },
{
    parse_body(input)
}

/// Parses a whole input as one rule line.
pub fn rule_line(input: &str) -> (r: Option<Rule>)
    ensures
        match sp_rule_line(input@, 0) {
            Some((v, j)) => {
                if j == input@.len() {
                    r is Some && r.unwrap()@ == v
                } else {
                    r is None
                }
            },
            None => r is None,
        },
{
    let len = input.unicode_len();
    match parse_rule_line(input, len, 0) {
        Some((v, j)) => {
            if j == len {
                Some(v)
            } else {
                None
            }
        },
        None => None,
    }
}

/// Parses a whole input as one namespace pragma line.
pub fn namespace_pragma(input: &str) -> (r: Option<String>)
    ensures
        match sp_pragma(input@, 0) {
            Some((v, j)) => {
                if j == input@.len() {
                    r is Some && r.unwrap()@ == v
                } else {
                    r is None
                }
            },
            None => r is None,
        },
{
    let len = input.unicode_len();
    match parse_pragma(input, len, 0) {
        Some((v, j)) => {
            if j == len {
                Some(v)
            } else {
                None
            }
        },
        None => None,
    }
}

/// Parses a whole input as one namespace.
pub fn namespace(input: &str) -> (r: Option<String>)
    ensures
        match sp_namespace(input@, 0) {
            Some((v, j)) => {
                if j == input@.len() {
                    r is Some && r.unwrap()@ == v
                } else {
                    r is None
                }
            },
            None => r is None,
        },
{
    let len = input.unicode_len();
    match parse_namespace(input, len, 0) {
        Some((v, j)) => {
            if j == len {
                Some(v)
            } else {
                None
            }
        },
        None => None,
    }
}

/// Parses a whole input as one namespace-qualified identifier.
pub fn namespace_ident(input: &str) -> (r: Option<String>)
    ensures
        match sp_namespace_ident(input@, 0) {
            Some((v, j)) => {
                if j == input@.len() {
                    r is Some && r.unwrap()@ == v
                } else {
                    r is None
                }
            },
            None => r is None,
        },
{
    let len = input.unicode_len();
    match parse_namespace_ident(input, len, 0) {
        Some((v, j)) => {
            if j == len {
                Some(v)
            } else {
                None
            }
        },
        None => None,
    }
}

/// Parses a whole input as one external interpolation.
pub fn imported_rule_interpolation(input: &str) -> (r: Option<RuleInst>)
    ensures
        match sp_ext_interp(input@, 0) {
            Some((v, j)) => {
                if j == input@.len() {
                    r is Some && r.unwrap()@ == v
                } else {
                    r is None
                }
            },
            None => r is None,
        },
{
    let len = input.unicode_len();
    match parse_ext_interp(input, len, 0) {
        Some((v, j)) => {
            if j == len {
                Some(v)
            } else {
                None
            }
        },
        None => None,
    }
}

/// Parses a whole input as one join filter.
pub fn join_filter(input: &str) -> (r: Option<FilterOp>)
    ensures
        match sp_join(input@, 0) {
            Some((v, j)) => {
                if j == input@.len() {
                    r is Some && r.unwrap()@ == v
                } else {
                    r is None
                }
            },
            None => r is None,
        },
{
    let len = input.unicode_len();
    match parse_join(input, len, 0) {
        Some((v, j)) => {
            if j == len {
                Some(v)
            } else {
                None
            }
        },
        None => None,
    }
}

/// Parses a whole input as one filter pipeline.
pub fn filters(input: &str) -> (r: Option<Vec<FilterOp>>)
    ensures
        ({
            let (fs, j) = sp_filters(input@, 0);
            if j == input@.len() {
                r is Some && r.unwrap()@.map_values(|f: FilterOp| f@) == fs
            } else {
                r is None
            }
        }),
{
    let len = input.unicode_len();
    let (fs, j) = parse_filters(input, len, 0);
    if j == len {
        Some(fs)
    } else {
        None
    }
}

} // verus!

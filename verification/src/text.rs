//! Character-level helpers shared by the printer and the parser: whitespace
//! and digit classification, decimal reading and printing, trimming, and
//! conversion between `&str`/`String` and `Vec<char>`.
use vstd::prelude::*;

verus! {

// ---------------------------------------------------------------------------
// Character classes.
// ---------------------------------------------------------------------------

/// The Unicode `White_Space` characters, as `char::is_whitespace` knows them.
pub open spec fn is_space_char(c: char) -> bool {
    ||| c == '\u{0009}'
    ||| c == '\u{000A}'
    ||| c == '\u{000B}'
    ||| c == '\u{000C}'
    ||| c == '\u{000D}'
    ||| c == '\u{0020}'
    ||| c == '\u{0085}'
    ||| c == '\u{00A0}'
    ||| c == '\u{1680}'
    ||| ('\u{2000}' <= c && c <= '\u{200A}')
    ||| c == '\u{2028}'
    ||| c == '\u{2029}'
    ||| c == '\u{202F}'
    ||| c == '\u{205F}'
    ||| c == '\u{3000}'
}

/// Executable whitespace test matching [`is_space_char`].
pub fn is_space(c: char) -> (r: bool)
    ensures
        r == is_space_char(c),
{
    c == '\u{0009}' || c == '\u{000A}' || c == '\u{000B}' || c == '\u{000C}' || c == '\u{000D}'
        || c == '\u{0020}' || c == '\u{0085}' || c == '\u{00A0}' || c == '\u{1680}' || ('\u{2000}'
        <= c && c <= '\u{200A}') || c == '\u{2028}' || c == '\u{2029}' || c == '\u{202F}' || c
        == '\u{205F}' || c == '\u{3000}'
}

/// Decimal digit test.
pub open spec fn is_digit_char(c: char) -> bool {
    '0' <= c && c <= '9'
}

/// Executable digit test matching [`is_digit_char`].
pub fn is_digit(c: char) -> (r: bool)
    ensures
        r == is_digit_char(c),
{
    '0' <= c && c <= '9'
}

/// Numeric value of a decimal digit character.
pub open spec fn digit_val(c: char) -> nat
    recommends
        is_digit_char(c),
{
    (c as nat - '0' as nat) as nat
}

/// Whether every character of `s` is a decimal digit.
pub open spec fn all_digits(s: Seq<char>) -> bool {
    forall|i: int| 0 <= i < s.len() ==> is_digit_char(#[trigger] s[i])
}

/// Value of a digit string, most significant digit first.
pub open spec fn digits_val(s: Seq<char>) -> nat
    recommends
        all_digits(s),
    decreases s.len(),
{
    if s.len() == 0 {
        0
    } else {
        digits_val(s.drop_last()) * 10 + digit_val(s.last())
    }
}

/// Reading one more digit multiplies the value by ten and adds the digit.
pub proof fn lemma_digits_val_step(s: Seq<char>, i: int)
    requires
        0 <= i < s.len(),
    ensures
        digits_val(s.take(i + 1)) == digits_val(s.take(i)) * 10 + digit_val(s[i]),
{
    assert(s.take(i + 1).drop_last() =~= s.take(i));
    assert(s.take(i + 1).last() == s[i]);
}

/// A prefix of a digit string never has a larger value than the whole.
pub proof fn lemma_digits_val_prefix(s: Seq<char>, i: int)
    requires
        0 <= i <= s.len(),
    ensures
        digits_val(s.take(i)) <= digits_val(s),
    decreases s.len(),
{
    if i < s.len() {
        assert(s.drop_last().take(i) =~= s.take(i));
        lemma_digits_val_prefix(s.drop_last(), i);
    } else {
        assert(s.take(i) =~= s);
    }
}

/// Value of the digit characters `s[lo..hi]`, if it fits in a `u32`.
/// Returns `None` exactly when the value would overflow.
pub fn parse_u32_digits(s: &Vec<char>, lo: usize, hi: usize) -> (r: Option<u32>)
    requires
        lo <= hi <= s@.len(),
        all_digits(s@.subrange(lo as int, hi as int)),
    ensures
        match r {
            Some(v) => digits_val(s@.subrange(lo as int, hi as int)) == v as nat,
            None => digits_val(s@.subrange(lo as int, hi as int)) > u32::MAX,
        },
{
    let ghost digits = s@.subrange(lo as int, hi as int);
    let mut acc: u32 = 0;
    let mut i: usize = lo;
    while i < hi
        invariant
            lo <= i <= hi <= s@.len(),
            digits == s@.subrange(lo as int, hi as int),
            all_digits(digits),
            acc as nat == digits_val(digits.take(i - lo)),
        decreases hi - i,
    {
        let c = s[i];
        assert(digits[i - lo] == c);
        let d: u32 = (c as u32) - 48;
        assert(d == digit_val(c)) by {
            assert(is_digit_char(c));
        }
        let lim: u32 = (u32::MAX - d) / 10;
        proof {
            lemma_digits_val_step(digits, i - lo);
            let x = (u32::MAX - d) as int;
            vstd::arithmetic::div_mod::lemma_fundamental_div_mod(x, 10);
            assert(0 <= x % 10 < 10) by (nonlinear_arith);
        }
        if acc > lim {
            proof {
                assert(digits_val(digits.take(i + 1 - lo)) > u32::MAX);
                lemma_digits_val_prefix(digits, i + 1 - lo);
            }
            return None;
        }
        acc = acc * 10 + d;
        i = i + 1;
    }
    proof {
        assert(digits.take(hi - lo) =~= digits);
    }
    Some(acc)
}

// ---------------------------------------------------------------------------
// Decimal printing.
// ---------------------------------------------------------------------------

/// The character for a digit value below ten.
pub open spec fn dec_digit(d: nat) -> char
    recommends
        d < 10,
{
    if d == 0 {
        '0'
    } else if d == 1 {
        '1'
    } else if d == 2 {
        '2'
    } else if d == 3 {
        '3'
    } else if d == 4 {
        '4'
    } else if d == 5 {
        '5'
    } else if d == 6 {
        '6'
    } else if d == 7 {
        '7'
    } else if d == 8 {
        '8'
    } else {
        '9'
    }
}

/// Decimal representation of `n`, most significant digit first, no sign and
/// no leading zeros (a single `'0'` for zero).
pub open spec fn dec_rep(n: nat) -> Seq<char>
    decreases n,
{
    if n < 10 {
        seq![dec_digit(n)]
    } else {
        dec_rep(n / 10).push(dec_digit(n % 10))
    }
}

/// Append the decimal representation of `n` to `buf`.
pub fn push_dec(buf: &mut Vec<char>, n: u32)
    ensures
        final(buf)@ == old(buf)@ + dec_rep(n as nat),
    decreases n,
{
    if n < 10 {
        let c = match n {
            0 => '0',
            1 => '1',
            2 => '2',
            3 => '3',
            4 => '4',
            5 => '5',
            6 => '6',
            7 => '7',
            8 => '8',
            _ => '9',
        };
        assert(c == dec_digit(n as nat));
        buf.push(c);
        assert(final(buf)@ =~= old(buf)@ + dec_rep(n as nat));
    } else {
        push_dec(buf, n / 10);
        let d = n % 10;
        let c = match d {
            0 => '0',
            1 => '1',
            2 => '2',
            3 => '3',
            4 => '4',
            5 => '5',
            6 => '6',
            7 => '7',
            8 => '8',
            _ => '9',
        };
        assert(c == dec_digit((n % 10) as nat));
        buf.push(c);
        assert(final(buf)@ =~= old(buf)@ + dec_rep(n as nat));
    }
}

// ---------------------------------------------------------------------------
// Trimming.
// ---------------------------------------------------------------------------

/// `s` with leading and trailing whitespace removed.
pub open spec fn trimmed(s: Seq<char>) -> Seq<char>
    decreases s.len(),
{
    if s.len() == 0 {
        s
    } else if is_space_char(s[0]) {
        trimmed(s.drop_first())
    } else if is_space_char(s.last()) {
        trimmed(s.drop_last())
    } else {
        s
    }
}

/// Narrow `[lo, hi)` to the whitespace-trimmed core of `s[lo..hi]`.
pub fn trim_bounds(s: &Vec<char>, lo: usize, hi: usize) -> (r: (usize, usize))
    requires
        lo <= hi <= s@.len(),
    ensures
        lo <= r.0 <= r.1 <= hi,
        s@.subrange(r.0 as int, r.1 as int) == trimmed(s@.subrange(lo as int, hi as int)),
    decreases hi - lo,
{
    if lo == hi {
        assert(s@.subrange(lo as int, hi as int) =~= trimmed(s@.subrange(lo as int, hi as int)));
        (lo, hi)
    } else if is_space(s[lo]) {
        assert(s@.subrange(lo as int, hi as int).drop_first() =~= s@.subrange(
            lo as int + 1,
            hi as int,
        ));
        trim_bounds(s, lo + 1, hi)
    } else if is_space(s[hi - 1]) {
        assert(s@.subrange(lo as int, hi as int).drop_last() =~= s@.subrange(
            lo as int,
            hi as int - 1,
        ));
        trim_bounds(s, lo, hi - 1)
    } else {
        (lo, hi)
    }
}

// ---------------------------------------------------------------------------
// Strings and character vectors.
// ---------------------------------------------------------------------------

/// The characters of `s`, in order.
pub fn str_chars(s: &str) -> (r: Vec<char>)
    ensures
        r@ == s@,
{
    let len = s.unicode_len();
    let mut r: Vec<char> = Vec::new();
    let mut i: usize = 0;
    while i < len
        invariant
            i <= len,
            len == s@.len(),
            r@ == s@.take(i as int),
        decreases len - i,
    {
        let c = s.get_char(i);
        r.push(c);
        assert(s@.take(i + 1) =~= s@.take(i as int).push(s@[i as int]));
        i = i + 1;
    }
    assert(s@.take(len as int) =~= s@);
    r
}

/// Relies on `String`'s `FromIterator<char>`: collecting characters yields
/// the string made of exactly those characters in order.
#[verifier::external_body]
pub fn chars_to_string(v: &Vec<char>) -> (r: String)
    ensures
        r@ == v@,
{
    v.iter().collect()
}

} // verus!

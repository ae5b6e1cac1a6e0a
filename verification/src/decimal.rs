//! Decimal numbers as text.

use vstd::prelude::*;
use vstd::string::*;

use crate::order;
use crate::text::text_of;

verus! {

/// A decimal digit.
pub open spec fn digit(d: int) -> char {
    ('0' as int + d) as char
}

/// A number in decimal, without leading zeros.
pub open spec fn digits(n: nat) -> Seq<char>
    decreases n,
{
    if n < 10 {
        seq![digit(n as int)]
    } else {
        digits(n / 10).push(digit(n as int % 10))
    }
}

/// `n` zeros.
pub open spec fn zeros(n: nat) -> Seq<char> {
    Seq::new(n, |i: int| '0')
}

/// A number in decimal, with leading zeros up to `width` digits.
pub open spec fn padded(n: nat, width: nat) -> Seq<char> {
    if digits(n).len() < width {
        zeros((width - digits(n).len()) as nat) + digits(n)
    } else {
        digits(n)
    }
}

/// A signed number in decimal, with leading zeros up to `width` characters. A
/// minus sign stands first and counts.
pub open spec fn padded_signed(x: int, width: nat) -> Seq<char> {
    if x < 0 {
        seq!['-'] + padded(
            (-x) as nat,
            if width == 0 {
                0
            } else {
                (width - 1) as nat
            },
        )
    } else {
        padded(x as nat, width)
    }
}

/// The `width` low digits of a number.
pub open spec fn low_digits(n: nat, width: nat) -> Seq<char>
    decreases width,
{
    if width == 0 {
        Seq::empty()
    } else {
        low_digits(n / 10, (width - 1) as nat).push(digit(n as int % 10))
    }
}

/// Numbers of up to `n` digits.
pub open spec fn pow10(n: nat) -> nat
    decreases n,
{
    if n == 0 {
        1
    } else {
        pow10((n - 1) as nat) * 10
    }
}

/// The characters of a number.
fn digit_chars(n: u64) -> (r: Vec<char>)
    ensures
        r@ == digits(n as nat),
    decreases n,
{
    let d: char = (48 + (n % 10) as u8) as char;
    if n < 10 {
        let mut v: Vec<char> = Vec::new();
        v.push(d);
        assert(v@ == digits(n as nat));
        v
    } else {
        let mut v: Vec<char> = digit_chars(n / 10);
        v.push(d);
        v
    }
}

/// The characters of a number with leading zeros.
fn padded_chars(n: u64, width: usize) -> (r: Vec<char>)
    ensures
        r@ == padded(n as nat, width as nat),
{
    let mut d: Vec<char> = digit_chars(n);
    if d.len() < width {
        let pad: usize = width - d.len();
        let mut v: Vec<char> = Vec::new();
        let mut i: usize = 0;
        while i < pad
            invariant
                i <= pad,
                v@ == zeros(i as nat),
            decreases pad - i,
        {
            v.push('0');
            i = i + 1;
            assert(v@ == zeros(i as nat));
        }
        v.append(&mut d);
        v
    } else {
        d
    }
}

/// A number in decimal.
pub fn to_decimal(n: u64) -> (r: String)
    ensures
        r@ == digits(n as nat),
{
    text_of(digit_chars(n).as_slice())
}

/// A number in decimal, with leading zeros up to `width` digits.
pub fn to_padded(n: u64, width: usize) -> (r: String)
    ensures
        r@ == padded(n as nat, width as nat),
{
    text_of(padded_chars(n, width).as_slice())
}

/// A signed number in decimal, with leading zeros up to `width` characters.
pub fn to_padded_signed(x: i64, width: usize) -> (r: String)
    ensures
        r@ == padded_signed(x as int, width as nat),
{
    if x < 0 {
        let n: u64 = (-(x as i128)) as u64;
        let rest: usize = if width == 0 {
            0
        } else {
            width - 1
        };
        let mut v: Vec<char> = Vec::new();
        v.push('-');
        let mut d: Vec<char> = padded_chars(n, rest);
        v.append(&mut d);
        assert(v@ == padded_signed(x as int, width as nat));
        text_of(v.as_slice())
    } else {
        to_padded(x as u64, width)
    }
}

/// A number of at most `width` digits, with leading zeros, is its `width` low
/// digits.
pub proof fn lemma_padded(n: nat, width: nat)
    requires
        n < pow10(width),
        width > 0,
    ensures
        padded(n, width) == low_digits(n, width),
        low_digits(n, width).len() == width,
        digits(n).len() <= width,
    decreases width,
{
    if width == 1 {
        reveal_with_fuel(pow10, 2);
        reveal_with_fuel(low_digits, 2);
        assert(digits(n) == low_digits(n, 1));
    } else {
        let w = (width - 1) as nat;
        lemma_padded(n / 10, w);
        if n < 10 {
            lemma_zero_low_digits(w);
            assert(padded(n, width) == zeros(w).push(digit(n as int)));
            assert(low_digits(n, width) == zeros(w).push(digit(n as int)));
        } else {
            assert(padded(n, width) == padded(n / 10, w).push(digit(n as int % 10)));
        }
    }
}

/// The low digits of zero are zeros.
proof fn lemma_zero_low_digits(width: nat)
    ensures
        low_digits(0, width) == zeros(width),
    decreases width,
{
    if width > 0 {
        lemma_zero_low_digits((width - 1) as nat);
        assert(zeros((width - 1) as nat).push('0') == zeros(width));
    } else {
        assert(low_digits(0, 0) == zeros(0));
    }
}

/// Texts that start with numbers of one width are ordered as the numbers are,
/// and where these are equal as the rest is.
pub proof fn lemma_low_digits_order(a: nat, b: nat, width: nat, x: Seq<char>, y: Seq<char>)
    requires
        a < pow10(width),
        b < pow10(width),
    ensures
        order::lex_le(
            order::code_points(low_digits(a, width) + x),
            order::code_points(low_digits(b, width) + y),
        ) <==> a < b || a == b && order::lex_le(order::code_points(x), order::code_points(y)),
    decreases width,
{
    if width == 0 {
        assert(low_digits(a, 0) + x == x);
        assert(low_digits(b, 0) + y == y);
    } else {
        let w = (width - 1) as nat;
        let (p, q) = (digit(a as int % 10), digit(b as int % 10));
        lemma_low_digits_order(a / 10, b / 10, w, seq![p] + x, seq![q] + y);
        assert(low_digits(a, width) + x == low_digits(a / 10, w) + (seq![p] + x));
        assert(low_digits(b, width) + y == low_digits(b / 10, w) + (seq![q] + y));
        let (s, t) = (order::code_points(seq![p] + x), order::code_points(seq![q] + y));
        assert(s.drop_first() == order::code_points(x));
        assert(t.drop_first() == order::code_points(y));
        assert(s[0] == p as int);
        assert(t[0] == q as int);
    }
}

// ---------------------------------------------------------------------------
// Laws
// ---------------------------------------------------------------------------

/// A number is written with the digits 0 to 9, the last one for its units and
/// those before it for its tens.
pub proof fn law_digits_denote_the_number(tens: nat, units: nat)
    requires
        units < 10,
    ensures
        tens == 0 ==> digits(10 * tens + units) == seq![(0x30 + units) as char],
        tens > 0 ==> digits(10 * tens + units) == digits(tens).push((0x30 + units) as char),
{
    assert((10 * tens + units) / 10 == tens);
    assert((10 * tens + units) as int % 10 == units);
}

/// Padding puts zeros in front up to the width, and nothing else.
pub proof fn law_padding_is_zeros(n: nat, width: nat) -> (k: int)
    ensures
        k == padded(n, width).len() - digits(n).len(),
        k == if digits(n).len() < width {
            width - digits(n).len()
        } else {
            0
        },
        padded(n, width).skip(k) == digits(n),
        forall|i: int| 0 <= i < k ==> #[trigger] padded(n, width)[i] == '0',
        padded_signed(n as int, width) == padded(n, width),
        n > 0 && width > 0 ==> padded_signed(-(n as int), width) == seq!['-'] + padded(
            n,
            (width - 1) as nat,
        ),
        n > 0 && width == 0 ==> padded_signed(-(n as int), width) == seq!['-'] + digits(n),
{
    let k = padded(n, width).len() - digits(n).len();
    assert(padded(n, width).skip(k) == digits(n));
    k
}

} // verus!

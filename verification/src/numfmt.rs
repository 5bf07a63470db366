//! Decimal rendering of quantities and of fixed-point money amounts.
//!
//! Money is held in hundredths of the currency unit throughout the crate, so
//! an amount prints as its whole part, a point, and exactly two fractional
//! digits.

use vstd::prelude::*;
use vstd::string::*;

verus! {

/// The character for one decimal digit value.
pub open spec fn digit_char(d: int) -> char {
    ((d + 48) as u8) as char
}

/// The decimal digits of `n`, most significant first.
pub open spec fn dec_digits(n: nat) -> Seq<char>
    decreases n,
{
    if n < 10 {
        seq![digit_char(n as int)]
    } else {
        dec_digits(n / 10).push(digit_char((n % 10) as int))
    }
}

/// The decimal rendering of a signed quantity: a minus sign for a negative
/// value, then the digits of its magnitude.
pub open spec fn signed_dec_digits(n: int) -> Seq<char> {
    if n >= 0 {
        dec_digits(n as nat)
    } else {
        seq!['-'] + dec_digits((-n) as nat)
    }
}

/// The rendering of an amount of `cents` hundredths: sign, whole part, a
/// point, and exactly two fractional digits.
pub open spec fn money_digits(cents: int) -> Seq<char> {
    let mag = (if cents >= 0 { cents } else { -cents }) as nat;
    let sign: Seq<char> = if cents < 0 { seq!['-'] } else { Seq::empty() };
    sign + dec_digits(mag / 100) + seq![
        '.',
        digit_char((mag % 100) as int / 10),
        digit_char((mag % 100) as int % 10),
    ]
}

/// Relies on String::push: it appends exactly the one character.
#[verifier::external_body]
pub(crate) fn push_char(s: &mut String, c: char)
    ensures
        final(s)@ == old(s)@.push(c),
{
    s.push(c)
}

fn digit_of(d: u64) -> (c: char)
    requires
        d < 10,
    ensures
        c == digit_char(d as int),
{
    (48 + d as u8) as char
}

/// Renders an unsigned quantity in decimal.
pub fn u64_to_dec(n: u64) -> (s: String)
    ensures
        s@ == dec_digits(n as nat),
    decreases n,
{
    if n < 10 {
        let mut s = String::new();
        push_char(&mut s, digit_of(n));
        assert(s@ =~= dec_digits(n as nat));
        s
    } else {
        let mut s = u64_to_dec(n / 10);
        push_char(&mut s, digit_of(n % 10));
        s
    }
}

/// Renders a signed quantity in decimal.
pub fn i64_to_dec(n: i64) -> (s: String)
    ensures
        s@ == signed_dec_digits(n as int),
{
    if n >= 0 {
        u64_to_dec(n as u64)
    } else {
        let mag: u64 = (-(n as i128)) as u64;
        let digits = u64_to_dec(mag);
        let mut s = String::from_str("-");
        proof {
            reveal_strlit("-");
        }
        s.append(digits.as_str());
        assert(s@ =~= signed_dec_digits(n as int));
        s
    }
}

/// Renders an amount of hundredths with two decimal places.
pub fn money_to_dec(cents: i64) -> (s: String)
    ensures
        s@ == money_digits(cents as int),
{
    let mag: u64 = (if cents >= 0 {
        cents as i128
    } else {
        -(cents as i128)
    }) as u64;
    let whole = mag / 100;
    let frac = mag % 100;
    let mut s = if cents < 0 {
        let neg = String::from_str("-");
        proof {
            reveal_strlit("-");
        }
        neg
    } else {
        String::new()
    };
    let digits = u64_to_dec(whole);
    s.append(digits.as_str());
    push_char(&mut s, '.');
    push_char(&mut s, digit_of(frac / 10));
    push_char(&mut s, digit_of(frac % 10));
    assert(s@ =~= money_digits(cents as int));
    s
}

} // verus!

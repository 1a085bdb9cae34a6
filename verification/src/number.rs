//! Whole numbers written in decimal.

use vstd::prelude::*;
use vstd::slice::slice_subrange;

use crate::text::{to_chars, to_text};

verus! {

pub open spec fn is_digit(c: char) -> bool {
    '0' <= c <= '9'
}

/// The character of a decimal digit.
pub open spec fn digit(n: nat) -> char {
    (('0' as nat + n) as u8) as char
}

/// A natural number in decimal, without leading zeros.
pub open spec fn decimal(n: nat) -> Seq<char>
    decreases n,
{
    if n < 10 {
        seq![digit(n)]
    } else {
        decimal(n / 10).push(digit(n % 10))
    }
}

/// An integer in decimal, with `-` before a negative one.
pub open spec fn decimal_int(n: int) -> Seq<char> {
    if n < 0 {
        seq!['-'] + decimal((-n) as nat)
    } else {
        decimal(n as nat)
    }
}

/// A natural number in decimal with a comma before every group of three
/// digits but the first.
pub open spec fn grouped(n: nat) -> Seq<char>
    decreases n,
{
    if n < 1000 {
        decimal(n)
    } else {
        grouped(n / 1000) + seq![',', digit(n / 100 % 10), digit(n / 10 % 10), digit(n % 10)]
    }
}

pub open spec fn all_digits(s: Seq<char>) -> bool {
    forall|i: int| 0 <= i < s.len() ==> is_digit(#[trigger] s[i])
}

/// The number that a run of decimal digits stands for.
pub open spec fn digits_value(s: Seq<char>) -> nat
    decreases s.len(),
{
    if s.len() == 0 {
        0
    } else {
        digits_value(s.drop_last()) * 10 + (s.last() as nat - '0' as nat) as nat
    }
}

/// The digits of a number that may carry a leading `+`, or a leading `-` where
/// `signed` allows it.
pub open spec fn after_sign(s: Seq<char>, signed: bool) -> Seq<char> {
    if s.len() > 0 && (s[0] == '+' || (signed && s[0] == '-')) {
        s.skip(1)
    } else {
        s
    }
}

/// The integer a text spells: an optional sign, then one or more digits.
pub open spec fn integer_of(s: Seq<char>, signed: bool) -> Option<int> {
    let digits = after_sign(s, signed);
    if digits.len() == 0 || !all_digits(digits) {
        None
    } else if signed && s[0] == '-' {
        Some(-(digits_value(digits) as int))
    } else {
        Some(digits_value(digits) as int)
    }
}

/// The `i64` a text spells, if it spells an integer and the integer fits.
pub open spec fn i64_of(s: Seq<char>) -> Option<int> {
    match integer_of(s, true) {
        Some(n) if i64::MIN <= n <= i64::MAX => Some(n),
        _ => None,
    }
}

/// The `usize` a text spells, if it spells a natural number and it fits.
pub open spec fn usize_of(s: Seq<char>) -> Option<int> {
    match integer_of(s, false) {
        Some(n) if n <= usize::MAX => Some(n),
        _ => None,
    }
}

fn digit_char(n: u8) -> (r: char)
    requires
        n < 10,
    ensures
        r == digit(n as nat),
{
    (48 + n) as char
}

fn digits(n: u128) -> (r: Vec<char>)
    ensures
        r@ == decimal(n as nat),
    decreases n,
{
    let c = digit_char((n % 10) as u8);
    if n < 10 {
        let mut out: Vec<char> = Vec::new();
        out.push(c);
        assert(out@ =~= decimal(n as nat));
        out
    } else {
        let mut out = digits(n / 10);
        out.push(c);
        out
    }
}

/// Writes a natural number in decimal.
pub fn write_natural(n: u128) -> (r: String)
    ensures
        r@ == decimal(n as nat),
{
    to_text(digits(n).as_slice())
}

/// Writes an integer in decimal.
pub fn write_integer(n: i64) -> (r: String)
    ensures
        r@ == decimal_int(n as int),
{
    if n < 0 {
        let mut out: Vec<char> = Vec::new();
        out.push('-');
        let m: u128 = (-(n as i128)) as u128;
        let mut rest = digits(m);
        out.append(&mut rest);
        assert(out@ =~= decimal_int(n as int));
        to_text(out.as_slice())
    } else {
        write_natural(n as u128)
    }
}

fn grouped_digits(n: u128) -> (r: Vec<char>)
    ensures
        r@ == grouped(n as nat),
    decreases n,
{
    if n < 1000 {
        digits(n)
    } else {
        let mut out = grouped_digits(n / 1000);
        let ghost head = out@;
        out.push(',');
        out.push(digit_char((n / 100 % 10) as u8));
        out.push(digit_char((n / 10 % 10) as u8));
        out.push(digit_char((n % 10) as u8));
        assert(out@ =~= grouped(n as nat));
        out
    }
}

/// Writes a natural number in decimal with thousands separators.
pub fn write_grouped(n: u128) -> (r: String)
    ensures
        r@ == grouped(n as nat),
{
    to_text(grouped_digits(n).as_slice())
}

proof fn lemma_digits_value_grows(s: Seq<char>, k: int)
    requires
        0 <= k <= s.len(),
    ensures
        digits_value(s.take(k)) <= digits_value(s),
    decreases s.len(),
{
    if k < s.len() {
        lemma_digits_value_grows(s.drop_last(), k);
        assert(s.drop_last().take(k) =~= s.take(k));
    } else {
        assert(s.take(k) =~= s);
    }
}

/// The number a run of characters stands for, provided that they are digits
/// and that it is at most `limit`.
fn read_digits(s: &[char], limit: u128) -> (r: Option<u128>)
    requires
        limit <= 0xffff_ffff_ffff_ffff,
    ensures
        r == (if s@.len() > 0 && all_digits(s@) && digits_value(s@) <= limit {
            Some(digits_value(s@) as u128)
        } else {
            None
        }),
{
    if s.len() == 0 {
        return None;
    }
    let mut value: u128 = 0;
    let mut i: usize = 0;
    assert(s@.take(0) =~= Seq::empty());
    while i < s.len()
        invariant
            i <= s@.len(),
            limit <= 0xffff_ffff_ffff_ffff,
            value <= limit,
            value == digits_value(s@.take(i as int)),
            all_digits(s@.take(i as int)),
        decreases s@.len() - i,
    {
        let c = s[i];
        if !('0' <= c && c <= '9') {
            assert(!is_digit(s@[i as int]));
            return None;
        }
        let d: u128 = (c as u32 - 48) as u128;
        value = value * 10 + d;
        proof {
            assert(s@.take(i + 1).drop_last() =~= s@.take(i as int));
            assert(value == digits_value(s@.take(i + 1)));
            assert forall|j: int| 0 <= j < i + 1 implies is_digit(#[trigger] s@.take(i + 1)[j]) by {
                if j < i {
                    assert(s@.take(i + 1)[j] == s@.take(i as int)[j]);
                }
            }
        }
        if value > limit {
            proof {
                lemma_digits_value_grows(s@, i + 1);
            }
            return None;
        }
        i += 1;
    }
    assert(s@.take(s@.len() as int) =~= s@);
    Some(value)
}

/// Reads an `i64`: an optional sign, then decimal digits, within range.
pub fn read_i64(s: &str) -> (r: Option<i64>)
    ensures
        r is Some <==> i64_of(s@) is Some,
        r matches Some(n) ==> i64_of(s@) == Some(n as int),
{
    let chars = to_chars(s);
    if chars.len() == 0 {
        return None;
    }
    if chars[0] == '-' {
        let rest = slice_subrange(chars.as_slice(), 1, chars.len());
        assert(rest@ =~= s@.skip(1));
        match read_digits(rest, 0x8000_0000_0000_0000) {
            Some(n) => Some((-(n as i128)) as i64),
            None => None,
        }
    } else {
        let from: usize = if chars[0] == '+' { 1 } else { 0 };
        let rest = slice_subrange(chars.as_slice(), from, chars.len());
        assert(rest@ =~= after_sign(s@, true));
        match read_digits(rest, 0x7fff_ffff_ffff_ffff) {
            Some(n) => Some(n as i64),
            None => None,
        }
    }
}

/// Reads a `usize`: an optional `+`, then decimal digits, within range.
pub fn read_usize(s: &str) -> (r: Option<usize>)
    ensures
        r is Some <==> usize_of(s@) is Some,
        r matches Some(n) ==> usize_of(s@) == Some(n as int),
{
    let chars = to_chars(s);
    let from: usize = if chars.len() > 0 && chars[0] == '+' { 1 } else { 0 };
    let rest = slice_subrange(chars.as_slice(), from, chars.len());
    assert(rest@ =~= after_sign(s@, false));
    match read_digits(rest, usize::MAX as u128) {
        Some(n) => Some(n as usize),
        None => None,
    }
}

proof fn lemma_digit(n: nat)
    requires
        n < 10,
    ensures
        is_digit(digit(n)),
        digit(n) as nat == '0' as nat + n,
{
}

/// Reading the decimal digits of a number gives the number back.
pub proof fn lemma_read_decimal(n: nat)
    ensures
        decimal(n).len() >= 1,
        all_digits(decimal(n)),
        digits_value(decimal(n)) == n,
    decreases n,
{
    lemma_digit(n % 10);
    if n < 10 {
        assert(decimal(n).drop_last() =~= Seq::empty());
        assert(digits_value(decimal(n).drop_last()) == 0);
    } else {
        lemma_read_decimal(n / 10);
        assert(decimal(n).drop_last() =~= decimal(n / 10));
        assert forall|i: int| 0 <= i < decimal(n).len() implies is_digit(#[trigger] decimal(n)[i]) by {
            if i < decimal(n / 10).len() {
                assert(decimal(n)[i] == decimal(n / 10)[i]);
            }
        }
    }
}

/// Every `i64` reads back from its own decimal text.
pub proof fn lemma_read_decimal_int(n: int)
    requires
        i64::MIN <= n <= i64::MAX,
    ensures
        i64_of(decimal_int(n)) == Some(n),
{
    if n < 0 {
        lemma_read_decimal((-n) as nat);
        assert(decimal_int(n).skip(1) =~= decimal((-n) as nat));
    } else {
        lemma_read_decimal(n as nat);
        assert(is_digit(decimal(n as nat)[0]));
    }
}

} // verus!

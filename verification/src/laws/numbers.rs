//! How numbers are written and read, and how texts are counted.

use vstd::prelude::*;

use crate::number::{
    all_digits, decimal, decimal_int, digit, digits_value, grouped, i64_of, integer_of, is_digit,
    usize_of,
};
use crate::tokens::{Counter, Estimator};

verus! {

/// The character of a digit below ten.
pub open spec fn figure(d: nat) -> char {
    if d == 0 {
        '0'
    } else if d == 1 {
        '1'
    } else if d == 2 {
        '2'
    } else if d == 3 {
        '3'
    } else if d == 4 {
        '4'
    } else if d == 5 {
        '5'
    } else if d == 6 {
        '6'
    } else if d == 7 {
        '7'
    } else if d == 8 {
        '8'
    } else {
        '9'
    }
}

proof fn lemma_figure(d: nat)
    requires
        d < 10,
    ensures
        digit(d) == figure(d),
        is_digit(figure(d)),
        figure(d) as nat == '0' as nat + d,
        figure(d) != ',',
{
}

/// A number is written in figures, the last of them its remainder by ten, with
/// no zero in front; a negative one with a minus before it.
pub proof fn lemma_decimal(n: nat, d: nat)
    requires
        d < 10,
    ensures
        decimal(d) == seq![figure(d)],
        n > 0 ==> decimal(10 * n + d) == decimal(n).push(figure(d)),
        n > 0 ==> decimal(n)[0] != '0' && decimal(n).len() > 0,
        n > 0 ==> decimal_int(-(n as int)) == seq!['-'] + decimal(n),
        decimal_int(n as int) == decimal(n),
    decreases n,
{
    lemma_figure(d);
    if n > 0 {
        assert((10 * n + d) / 10 == n && (10 * n + d) % 10 == d);
        lemma_figure(n % 10);
        if n >= 10 {
            lemma_decimal(n / 10, n % 10);
        }
    }
}

/// Figures read as the number they are written for: each one more makes ten
/// times the number and its own worth.
pub proof fn lemma_digits(s: Seq<char>, d: nat)
    requires
        d < 10,
    ensures
        digits_value(Seq::empty()) == 0,
        digits_value(s.push(figure(d))) == 10 * digits_value(s) + d,
{
    lemma_figure(d);
    assert(s.push(figure(d)).drop_last() =~= s);
}

/// Whether a text is figures and nothing else.
pub open spec fn is_figures(s: Seq<char>) -> bool {
    s.len() > 0 && forall|i: int| 0 <= i < s.len() ==> '0' <= #[trigger] s[i] <= '9'
}

proof fn lemma_integer(s: Seq<char>, signed: bool)
    ensures
        is_figures(s) ==> integer_of(s, signed) == Some(digits_value(s) as int),
        is_figures(s) ==> integer_of(seq!['+'] + s, signed) == Some(digits_value(s) as int),
        is_figures(s) ==> integer_of(seq!['-'] + s, true) == Some(-(digits_value(s) as int)),
        !is_figures(s) ==> integer_of(seq!['+'] + s, signed) is None,
        !is_figures(s) ==> integer_of(seq!['-'] + s, true) is None,
        integer_of(seq!['-'] + s, false) is None,
        !is_figures(s) && (s.len() == 0 || (s[0] != '+' && s[0] != '-')) ==> integer_of(s, signed) is None,
{
    assert((seq!['+'] + s).skip(1) =~= s);
    assert((seq!['-'] + s).skip(1) =~= s);
    assert(s.len() > 0 ==> (is_figures(s) <==> all_digits(s))) by {
        if is_figures(s) {
            assert forall|i: int| 0 <= i < s.len() implies is_digit(#[trigger] s[i]) by {}
        }
        if all_digits(s) {
            assert forall|i: int| 0 <= i < s.len() implies '0' <= #[trigger] s[i] <= '9' by {
                assert(is_digit(s[i]));
            }
        }
    }
    let m = seq!['-'] + s;
    if all_digits(m) {
        assert(is_digit(m[0]));
    }
    if is_figures(s) {
        assert('0' <= s[0] <= '9');
    }
}

/// An integer is read from figures, with a sign before them or without, and
/// from nothing else; a length from figures without a minus. What does not fit
/// is not read.
pub proof fn lemma_read(s: Seq<char>)
    ensures
        is_figures(s) && digits_value(s) <= i64::MAX ==> i64_of(s) == Some(digits_value(s) as int)
            && i64_of(seq!['+'] + s) == Some(digits_value(s) as int),
        is_figures(s) && digits_value(s) > i64::MAX ==> i64_of(s) is None && i64_of(
            seq!['+'] + s,
        ) is None,
        is_figures(s) && digits_value(s) <= i64::MAX + 1 ==> i64_of(seq!['-'] + s) == Some(
            -(digits_value(s) as int),
        ),
        is_figures(s) && digits_value(s) > i64::MAX + 1 ==> i64_of(seq!['-'] + s) is None,
        is_figures(s) && digits_value(s) <= usize::MAX ==> usize_of(s) == Some(digits_value(s) as int)
            && usize_of(seq!['+'] + s) == Some(digits_value(s) as int),
        is_figures(s) && digits_value(s) > usize::MAX ==> usize_of(s) is None,
        usize_of(seq!['-'] + s) is None,
        !is_figures(s) ==> i64_of(seq!['+'] + s) is None && i64_of(seq!['-'] + s) is None,
        !is_figures(s) && (s.len() == 0 || (s[0] != '+' && s[0] != '-')) ==> i64_of(s) is None
            && usize_of(s) is None,
{
    lemma_integer(s, true);
    lemma_integer(s, false);
}

/// A grouped number is the number with a comma before every third figure from
/// the end, and no other comma.
pub proof fn lemma_grouped(n: nat)
    ensures
        grouped(n).filter(|c: char| c != ',') == decimal(n),
        forall|j: int|
            0 <= j < grouped(n).len() ==> ((#[trigger] grouped(n)[grouped(n).len() - 1 - j]) == ','
                <==> j % 4 == 3),
    decreases n,
{
    let keep = |c: char| c != ',';
    lemma_figure(n % 10);
    lemma_figure(n / 10 % 10);
    lemma_figure(n / 100 % 10);
    if n < 1000 {
        lemma_plain(n);
        lemma_short(n);
        assert forall|j: int| 0 <= j < grouped(n).len() implies ((
        #[trigger] grouped(n)[grouped(n).len() - 1 - j]) == ',' <==> j % 4 == 3) by {
            assert(decimal(n)[decimal(n).len() - 1 - j] != ',');
        }
    } else {
        let head = n / 1000;
        let tail = seq![',', digit(n / 100 % 10), digit(n / 10 % 10), digit(n % 10)];
        lemma_grouped(head);
        assert(head == n / 10 / 10 / 10);
        assert(n / 10 / 10 == n / 100);
        Seq::filter_distributes_over_add(grouped(head), tail, keep);
        assert(tail.filter(keep) == seq![digit(n / 100 % 10), digit(n / 10 % 10), digit(n % 10)]) by {
            reveal_with_fuel(Seq::filter, 5);
            assert(tail.drop_last() =~= seq![',', digit(n / 100 % 10), digit(n / 10 % 10)]);
            assert(tail.drop_last().drop_last() =~= seq![',', digit(n / 100 % 10)]);
            assert(tail.drop_last().drop_last().drop_last() =~= seq![',']);
            assert(tail.drop_last().drop_last().drop_last().drop_last() =~= Seq::empty());
            assert(tail.filter(keep) =~= seq![
                digit(n / 100 % 10),
                digit(n / 10 % 10),
                digit(n % 10),
            ]);
        }
        assert(decimal(n) == decimal(n / 10).push(digit(n % 10)));
        assert(decimal(n / 10) == decimal(n / 100).push(digit(n / 10 % 10)));
        assert(decimal(n / 100) == decimal(head).push(digit(n / 100 % 10)));
        assert(grouped(n).filter(keep) =~= decimal(n));
        let len = grouped(n).len() as int;
        assert forall|j: int| 0 <= j < len implies ((#[trigger] grouped(n)[len - 1 - j]) == ','
            <==> j % 4 == 3) by {
            if j >= 4 {
                let k = j - 4;
                assert(grouped(n)[len - 1 - j] == grouped(head)[grouped(head).len() - 1 - k]);
                assert(j % 4 == k % 4);
            }
        }
    }
}

proof fn lemma_short(n: nat)
    requires
        n < 1000,
    ensures
        decimal(n).len() <= 3,
{
    reveal_with_fuel(decimal, 3);
}

proof fn lemma_plain(n: nat)
    ensures
        forall|i: int| 0 <= i < decimal(n).len() ==> #[trigger] decimal(n)[i] != ',',
        decimal(n).filter(|c: char| c != ',') == decimal(n),
    decreases n,
{
    reveal(Seq::filter);
    let keep = |c: char| c != ',';
    lemma_figure(n % 10);
    if n < 10 {
        assert(decimal(n).drop_last() =~= Seq::empty());
        assert(decimal(n).drop_last().filter(keep) =~= Seq::empty());
        assert(decimal(n).filter(keep) =~= decimal(n));
    } else {
        lemma_plain(n / 10);
        assert(decimal(n).drop_last() =~= decimal(n / 10));
    }
}

/// Four characters make a token, and what is left over makes one more.
pub proof fn lemma_estimate(text: Seq<char>)
    ensures
        4 * Estimator.tokens(text) >= text.len(),
        4 * Estimator.tokens(text) < text.len() + 4,
{
}

} // verus!

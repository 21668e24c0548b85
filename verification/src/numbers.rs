//! Laws of decimal literals: what is written is read back as the same value.

use vstd::prelude::*;
use crate::output::{digit_char, digits_of, duration_text, padded, trimmed};
use crate::serialise::signed_text;
use crate::text::{
    all_digits, decimal_ticks, digit_value, digits_value, dot_position, fraction_part, is_digit,
    pow10, signed_decimal_ticks, whole_part, lemma_dot_position_is, lemma_pow10_values,
};

verus! {

pub proof fn lemma_digit_char(d: nat)
    ensures
        is_digit(digit_char(d)),
        digit_value(digit_char(d)) == d % 10,
        digit_char(d) != '.',
        digit_char(d) != '-',
        (digit_char(d) == '0') == (d % 10 == 0),
{
}

/// The digits of a number are digits, and they denote the number.
pub proof fn lemma_digits_of(n: nat)
    ensures
        digits_of(n).len() >= 1,
        all_digits(digits_of(n)),
        digits_value(digits_of(n)) == n,
    decreases n,
{
    lemma_digit_char(n);
    if n < 10 {
        let d = digits_of(n);
        assert(d.drop_last() =~= Seq::<char>::empty());
        assert(digits_value(d.drop_last()) == 0);
    } else {
        lemma_digits_of(n / 10);
        let d = digits_of(n);
        assert(d.drop_last() =~= digits_of(n / 10));
        assert forall|i: int| 0 <= i < d.len() implies is_digit(#[trigger] d[i]) by {
            if i < d.len() - 1 {
                assert(d[i] == digits_of(n / 10)[i]);
            }
        }
    }
}

/// A number below ten to the `k` has at most `k` digits.
pub proof fn lemma_digits_of_len(n: nat, k: nat)
    requires
        k >= 1,
        n < pow10(k),
    ensures
        digits_of(n).len() <= k,
    decreases k,
{
    if n >= 10 {
        assert(pow10(k) == 10 * pow10((k - 1) as nat));
        if k == 1 {
            assert(pow10(0) == 1);
        } else {
            lemma_digits_of_len(n / 10, (k - 1) as nat);
        }
    }
}

/// The last `k` digits of a number are digits, and they denote the number
/// modulo ten to the `k`.
pub proof fn lemma_padded(n: nat, k: nat)
    ensures
        padded(n, k).len() == k,
        all_digits(padded(n, k)),
        digits_value(padded(n, k)) == n % pow10(k),
    decreases k,
{
    if k > 0 {
        lemma_padded(n / 10, (k - 1) as nat);
        lemma_digit_char(n);
        let d = padded(n, k);
        let p = pow10((k - 1) as nat);
        assert(d.drop_last() =~= padded(n / 10, (k - 1) as nat));
        assert forall|i: int| 0 <= i < d.len() implies is_digit(#[trigger] d[i]) by {
            if i < d.len() - 1 {
                assert(d[i] == padded(n / 10, (k - 1) as nat)[i]);
            }
        }
        crate::text::lemma_pow10_add((k - 1) as nat, 0);
        assert(p > 0);
        assert(((n / 10) % p) * 10 + n % 10 == n % (10 * p)) by (nonlinear_arith)
            requires
                p > 0,
        ;
    } else {
        assert(pow10(0) == 1);
    }
}

/// Trimming drops zeros only: what is left, followed by as many zeros as
/// were dropped, denotes what the digits denoted.
pub proof fn lemma_trimmed(d: Seq<char>)
    requires
        all_digits(d),
    ensures
        all_digits(trimmed(d)),
        trimmed(d).len() <= d.len(),
        d.len() >= 1 ==> trimmed(d).len() >= 1,
        digits_value(trimmed(d)) * pow10((d.len() - trimmed(d).len()) as nat) == digits_value(d),
    decreases d.len(),
{
    if d.len() > 1 && d.last() == '0' {
        let shorter = d.drop_last();
        assert(all_digits(shorter)) by {
            assert forall|i: int| 0 <= i < shorter.len() implies is_digit(#[trigger] shorter[i]) by {
                assert(shorter[i] == d[i]);
            }
        }
        lemma_trimmed(shorter);
        let kept = trimmed(d);
        assert(kept == trimmed(shorter));
        let dropped = (shorter.len() - kept.len()) as nat;
        assert((d.len() - kept.len()) as nat == dropped + 1);
        assert(pow10(dropped + 1) == 10 * pow10(dropped));
        assert(digit_value('0') == 0);
        assert(digits_value(d) == digits_value(shorter) * 10 + digit_value(d.last()));
        assert(digits_value(d) == digits_value(shorter) * 10);
        let v = digits_value(kept);
        let q = pow10(dropped);
        assert(v * (10 * q) == (v * q) * 10) by (nonlinear_arith);
        assert(v * pow10(dropped + 1) == digits_value(shorter) * 10);
    } else {
        assert(trimmed(d) == d);
        assert((d.len() - trimmed(d).len()) as nat == 0);
        assert(pow10(0) == 1);
        assert(digits_value(d) * 1 == digits_value(d));
    }
}

/// The first `.` of digits, a `.` and more text is the `.` in between.
pub proof fn lemma_dot_after_digits(a: Seq<char>, b: Seq<char>)
    requires
        all_digits(a),
    ensures
        dot_position(a + seq!['.'] + b) == a.len(),
        whole_part(a + seq!['.'] + b) == a,
        fraction_part(a + seq!['.'] + b) == b,
{
    let s = a + seq!['.'] + b;
    assert forall|i: int| 0 <= i < a.len() implies #[trigger] s[i] != '.' by {
        assert(s[i] == a[i]);
        assert(is_digit(a[i]));
    }
    assert(s[a.len() as int] == '.');
    lemma_dot_position_is(s, a.len() as int);
    assert(s.take(a.len() as int) =~= a);
    assert(s.skip(a.len() as int + 1) =~= b);
}

/// A duration that is written is read back as it was.
pub proof fn lemma_duration_text_is_read_back(ticks: u64)
    requires
        ticks < 1_000_000_000_000_000_000,
    ensures
        decimal_ticks(duration_text(ticks)) == Some(ticks as nat),
{
    let w = (ticks / 1_000_000) as nat;
    let f = (ticks % 1_000_000) as nat;
    let whole = digits_of(w);
    let six = padded(f, 6);
    let fraction = trimmed(six);
    lemma_pow10_values();
    lemma_digits_of(w);
    lemma_digits_of_len(w, 12);
    lemma_padded(f, 6);
    lemma_trimmed(six);
    lemma_dot_after_digits(whole, fraction);
    let dropped = (6 - fraction.len()) as nat;
    assert(digits_value(fraction) * pow10(dropped) == f);
}

/// A value that is written is read back as it was.
pub proof fn lemma_signed_text_is_read_back(ticks: i64)
    requires
        -1_000_000_000_000_000_000 < ticks < 1_000_000_000_000_000_000,
    ensures
        signed_decimal_ticks(signed_text(ticks)) == Some(ticks as int),
{
    if ticks < 0 {
        let size = (-(ticks as int)) as u64;
        lemma_duration_text_is_read_back(size);
        let s = signed_text(ticks);
        assert(s.drop_first() =~= duration_text(size));
        assert(s[0] == '-');
    } else {
        lemma_duration_text_is_read_back(ticks as u64);
        let s = duration_text(ticks as u64);
        let w = (ticks as u64 / 1_000_000) as nat;
        lemma_digits_of(w);
        assert(s[0] == digits_of(w)[0]);
        assert(is_digit(digits_of(w)[0]));
    }
}

} // verus!

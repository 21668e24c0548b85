//! Characters, symbols and decimal numbers.

use vstd::prelude::*;

verus! {

/// Time and numeric values are held on a grid of one millionth.
pub const TICKS_PER_UNIT: u64 = 1_000_000;

/// The number of fractional digits the grid can hold.
pub const FRACTION_DIGITS: usize = 6;

/// The longest integer part a decimal literal may have.
pub const WHOLE_DIGITS: usize = 12;

pub open spec fn is_space(c: char) -> bool {
    c == ' ' || c == '\t' || c == '\n' || c == '\r'
}

/// ASCII upper-case letters fold to lower case; every other character is kept.
pub open spec fn fold_case(c: char) -> char {
    if 'A' <= c && c <= 'Z' {
        ((c as u8) + 32u8) as char
    } else {
        c
    }
}

pub fn fold_case_char(c: char) -> (r: char)
    ensures
        r == fold_case(c),
{
    if 'A' <= c && c <= 'Z' {
        ((c as u8) + 32u8) as char
    } else {
        c
    }
}

/// Two symbols are the same when they agree up to ASCII case.
pub open spec fn same_symbol(a: Seq<char>, b: Seq<char>) -> bool {
    &&& a.len() == b.len()
    &&& forall|i: int| 0 <= i < a.len() ==> fold_case(#[trigger] a[i]) == fold_case(b[i])
}

pub fn symbols_match(a: &Vec<char>, b: &Vec<char>) -> (r: bool)
    ensures
        r == same_symbol(a@, b@),
{
    if a.len() != b.len() {
        return false;
    }
    let mut i: usize = 0;
    while i < a.len()
        invariant
            i <= a.len(),
            a.len() == b.len(),
            forall|k: int| 0 <= k < i ==> fold_case(#[trigger] a@[k]) == fold_case(b@[k]),
        decreases a.len() - i,
    {
        if fold_case_char(a[i]) != fold_case_char(b[i]) {
            return false;
        }
        i = i + 1;
    }
    true
}

/// The characters of a string slice.
pub fn chars_of(s: &str) -> (out: Vec<char>)
    ensures
        out@ == s@,
{
    let mut out: Vec<char> = Vec::new();
    for c in it: s.chars()
        invariant
            out@ == it.seq().take(it.index() as int),
            it.seq() == s@,
    {
        out.push(c);
    }
    out
}

/// Builds a `String` from characters with `String::from_iter`; the new string
/// holds exactly the given characters, in order.
#[verifier::external_body]
pub(crate) fn string_of(chars: &Vec<char>) -> (s: String)
    ensures
        s@ == chars@,
{
    chars.iter().collect()
}

/// Whether a symbol read from text is the given word, up to ASCII case.
pub fn is_word(a: &Vec<char>, word: &str) -> (r: bool)
    ensures
        r == same_symbol(a@, word@),
{
    let w = chars_of(word);
    symbols_match(a, &w)
}

/// Whether two names are the same symbol.
pub fn names_match(a: &String, b: &String) -> (r: bool)
    ensures
        r == same_symbol(a@, b@),
{
    let x = chars_of(a.as_str());
    let y = chars_of(b.as_str());
    symbols_match(&x, &y)
}

/// Copies a name that may be absent.
pub fn copy_optional_name(name: &Option<String>) -> (out: Option<String>)
    ensures
        out == *name,
{
    match name {
        Some(n) => Some(n.clone()),
        None => None,
    }
}

/// Copies a list of names.
pub fn copy_names(names: &Vec<String>) -> (out: Vec<String>)
    ensures
        out@ == names@,
{
    let mut out: Vec<String> = Vec::new();
    let mut i: usize = 0;
    while i < names.len()
        invariant
            i <= names.len(),
            out@ == names@.take(i as int),
        decreases names.len() - i,
    {
        out.push(names[i].clone());
        assert(names@.take(i + 1) == names@.take(i as int).push(names@[i as int]));
        i = i + 1;
    }
    assert(names@.take(names.len() as int) == names@);
    out
}

/// The views of a run of values.
pub open spec fn view_all<T: View>(items: Seq<T>) -> Seq<T::V> {
    Seq::new(items.len(), |i: int| items[i]@)
}

pub proof fn lemma_view_all_push<T: View>(items: Seq<T>, last: T)
    ensures
        view_all(items.push(last)) == view_all(items).push(last@),
{
    assert(view_all(items.push(last)) =~= view_all(items).push(last@));
}

pub proof fn lemma_view_all_empty<T: View>()
    ensures
        view_all(Seq::<T>::empty()) == Seq::<T::V>::empty(),
{
    assert(view_all(Seq::<T>::empty()) =~= Seq::<T::V>::empty());
}

/// The character sequences behind a list of names.
pub open spec fn names_view(names: Seq<String>) -> Seq<Seq<char>> {
    Seq::new(names.len(), |i: int| names[i]@)
}

pub open spec fn is_digit(c: char) -> bool {
    '0' <= c && c <= '9'
}

pub open spec fn digit_value(c: char) -> nat {
    (c as u32 - '0' as u32) as nat
}

pub open spec fn all_digits(s: Seq<char>) -> bool {
    forall|i: int| 0 <= i < s.len() ==> is_digit(#[trigger] s[i])
}

/// The number a run of decimal digits denotes.
pub open spec fn digits_value(s: Seq<char>) -> nat
    decreases s.len(),
{
    if s.len() == 0 {
        0
    } else {
        digits_value(s.drop_last()) * 10 + digit_value(s.last())
    }
}

pub open spec fn pow10(n: nat) -> nat
    decreases n,
{
    if n == 0 {
        1
    } else {
        10 * pow10((n - 1) as nat)
    }
}

/// The position of the first `.` in `s`, or its length if there is none.
pub open spec fn dot_position(s: Seq<char>) -> int
    decreases s.len(),
{
    if s.len() == 0 {
        0
    } else if s[0] == '.' {
        0
    } else {
        1 + dot_position(s.drop_first())
    }
}

/// The digits before the first `.`.
pub open spec fn whole_part(s: Seq<char>) -> Seq<char> {
    s.take(dot_position(s))
}

/// The digits after the first `.`; empty if there is none.
pub open spec fn fraction_part(s: Seq<char>) -> Seq<char> {
    if dot_position(s) < s.len() {
        s.skip(dot_position(s) + 1)
    } else {
        Seq::empty()
    }
}

/// The value of an unsigned decimal literal on the grid, in ticks.
///
/// A literal is one or more digits with at most one `.` among them, at most
/// twelve digits before it and at most six after it. Anything else is no
/// literal: a number with a sign or an exponent, with more than twelve
/// whole digits or with more than six digits of fraction is not on the grid
/// of ticks. A duration written so is treated as one that is no constant:
/// the action gets the default duration and a warning.
pub open spec fn decimal_ticks(s: Seq<char>) -> Option<nat> {
    let whole = whole_part(s);
    let fraction = fraction_part(s);
    if whole.len() + fraction.len() == 0 {
        None
    } else if !all_digits(whole) || !all_digits(fraction) {
        None
    } else if whole.len() > WHOLE_DIGITS || fraction.len() > FRACTION_DIGITS {
        None
    } else {
        Some(
            digits_value(whole) * 1_000_000 + digits_value(fraction) * pow10(
                (FRACTION_DIGITS - fraction.len()) as nat,
            ),
        )
    }
}

/// The value of a decimal literal that may carry a leading `-`, in ticks.
pub open spec fn signed_decimal_ticks(s: Seq<char>) -> Option<int> {
    if s.len() > 0 && s[0] == '-' {
        match decimal_ticks(s.drop_first()) {
            Some(v) => Some(-(v as int)),
            None => None,
        }
    } else {
        match decimal_ticks(s) {
            Some(v) => Some(v as int),
            None => None,
        }
    }
}

pub proof fn lemma_dot_position_bounds(s: Seq<char>)
    ensures
        0 <= dot_position(s) <= s.len(),
        dot_position(s) < s.len() ==> s[dot_position(s)] == '.',
        forall|i: int| 0 <= i < dot_position(s) ==> #[trigger] s[i] != '.',
    decreases s.len(),
{
    if s.len() > 0 && s[0] != '.' {
        lemma_dot_position_bounds(s.drop_first());
        assert forall|i: int| 0 <= i < dot_position(s) implies #[trigger] s[i] != '.' by {
            if i > 0 {
                assert(s[i] == s.drop_first()[i - 1]);
            }
        }
    }
}

/// The first `.` is where a scan from the left first meets one.
pub proof fn lemma_dot_position_is(s: Seq<char>, d: int)
    requires
        0 <= d <= s.len(),
        forall|i: int| 0 <= i < d ==> #[trigger] s[i] != '.',
        d < s.len() ==> s[d] == '.',
    ensures
        dot_position(s) == d,
{
    lemma_dot_position_bounds(s);
    let p = dot_position(s);
    if p < d {
        assert(s[p] != '.');
    } else if p > d {
        assert(s[d] != '.');
    }
}

pub proof fn lemma_digits_value_bound(s: Seq<char>)
    requires
        all_digits(s),
    ensures
        digits_value(s) < pow10(s.len()),
    decreases s.len(),
{
    if s.len() > 0 {
        assert(all_digits(s.drop_last())) by {
            assert forall|i: int| 0 <= i < s.drop_last().len() implies is_digit(
                #[trigger] s.drop_last()[i],
            ) by {
                assert(s.drop_last()[i] == s[i]);
            }
        }
        lemma_digits_value_bound(s.drop_last());
        assert(is_digit(s[s.len() - 1]));
    }
}

pub proof fn lemma_pow10_values()
    ensures
        pow10(0) == 1,
        pow10(1) == 10,
        pow10(2) == 100,
        pow10(3) == 1_000,
        pow10(4) == 10_000,
        pow10(5) == 100_000,
        pow10(6) == 1_000_000,
        pow10(12) == 1_000_000_000_000,
{
    reveal_with_fuel(pow10, 13);
}

pub proof fn lemma_pow10_add(a: nat, b: nat)
    ensures
        pow10(a) * pow10(b) == pow10(a + b),
        pow10(a) > 0,
    decreases a,
{
    if a > 0 {
        let x = pow10((a - 1) as nat);
        let y = pow10(b);
        lemma_pow10_add((a - 1) as nat, b);
        assert(((a - 1) as nat) + b == (a + b - 1) as nat);
        assert(pow10(a + b) == 10 * pow10((a + b - 1) as nat));
        assert((10 * x) * y == 10 * (x * y)) by (nonlinear_arith);
        assert(pow10(a) == 10 * x);
        assert(x * y == pow10((a + b - 1) as nat));
    } else {
        assert(pow10(a) == 1);
        assert(a + b == b);
    }
}

pub proof fn lemma_pow10_monotonic(a: nat, b: nat)
    requires
        a <= b,
    ensures
        pow10(a) <= pow10(b),
    decreases b,
{
    if a < b {
        lemma_pow10_monotonic(a, (b - 1) as nat);
    }
}

/// Ten to the `n`, for the exponents a literal can need.
pub fn pow10_of(n: usize) -> (r: u64)
    requires
        n <= 6,
    ensures
        r == pow10(n as nat),
{
    proof {
        lemma_pow10_values();
    }
    if n == 0 {
        1
    } else if n == 1 {
        10
    } else if n == 2 {
        100
    } else if n == 3 {
        1_000
    } else if n == 4 {
        10_000
    } else if n == 5 {
        100_000
    } else {
        1_000_000
    }
}

/// Every decimal literal is below ten to the eighteenth ticks.
pub proof fn lemma_decimal_ticks_bound(s: Seq<char>)
    ensures
        decimal_ticks(s) is Some ==> decimal_ticks(s)->0 < 1_000_000_000_000_000_000,
{
    if decimal_ticks(s) is Some {
        let whole = whole_part(s);
        let fraction = fraction_part(s);
        lemma_digits_value_bound(whole);
        lemma_digits_value_bound(fraction);
        lemma_pow10_monotonic(whole.len(), 12);
        lemma_pow10_values();
        lemma_pow10_add(fraction.len(), (6 - fraction.len()) as nat);
        let f = digits_value(fraction);
        let bound = pow10(fraction.len());
        let scale = pow10((6 - fraction.len()) as nat);
        assert(f * scale < bound * scale) by (nonlinear_arith)
            requires
                f < bound,
                scale > 0,
        ;
        let w = digits_value(whole);
        assert(w * 1_000_000 <= 999_999_999_999 * 1_000_000) by (nonlinear_arith)
            requires
                w <= 999_999_999_999,
        ;
    }
}

/// Reads a run of at most twelve digits in `s[from..to]`.
fn read_digits(s: &Vec<char>, from: usize, to: usize) -> (r: Option<u64>)
    requires
        from <= to <= s.len(),
        to - from <= 12,
    ensures
        r is Some <==> all_digits(s@.subrange(from as int, to as int)),
        r is Some ==> r->0 == digits_value(s@.subrange(from as int, to as int)),
{
    let mut acc: u64 = 0;
    let mut i: usize = from;
    let ghost run = s@.subrange(from as int, to as int);
    while i < to
        invariant
            from <= i <= to <= s.len(),
            to - from <= 12,
            run == s@.subrange(from as int, to as int),
            all_digits(run.take(i - from)),
            acc == digits_value(run.take(i - from)),
        decreases to - i,
    {
        let c = s[i];
        proof {
            assert(run[i - from] == c);
            assert(run.take(i - from + 1).drop_last() == run.take(i - from));
            assert(run.take(i - from + 1).last() == c);
        }
        if !('0' <= c && c <= '9') {
            proof {
                assert(!is_digit(run[i - from]));
            }
            return None;
        }
        proof {
            lemma_digits_value_bound(run.take(i - from));
            lemma_pow10_monotonic((i - from) as nat, 12);
            lemma_pow10_values();
            assert forall|k: int| 0 <= k < run.take(i - from + 1).len() implies is_digit(
                #[trigger] run.take(i - from + 1)[k],
            ) by {
                if k < i - from {
                    assert(run.take(i - from)[k] == run.take(i - from + 1)[k]);
                }
            }
        }
        let d: u64 = (c as u32 - '0' as u32) as u64;
        acc = acc * 10 + d;
        i = i + 1;
    }
    proof {
        assert(run.take(to - from) == run);
    }
    Some(acc)
}

/// Reads an unsigned decimal literal in `s[from..]`.
fn parse_decimal_from(s: &Vec<char>, from: usize) -> (r: Option<u64>)
    requires
        from <= s.len(),
    ensures
        r is Some <==> decimal_ticks(s@.skip(from as int)) is Some,
        r is Some ==> r->0 == decimal_ticks(s@.skip(from as int))->0,
        r is Some ==> r->0 < 1_000_000_000_000_000_000,
{
    let ghost t = s@.skip(from as int);
    let mut d: usize = from;
    while d < s.len() && s[d] != '.'
        invariant
            from <= d <= s.len(),
            t == s@.skip(from as int),
            forall|i: int| 0 <= i < d - from ==> #[trigger] t[i] != '.',
        decreases s.len() - d,
    {
        d = d + 1;
    }
    proof {
        lemma_dot_position_is(t, d - from);
    }
    let whole_len = d - from;
    let fraction_len = if d < s.len() {
        s.len() - d - 1
    } else {
        0
    };
    proof {
        assert(whole_part(t).len() == whole_len);
        assert(fraction_part(t).len() == fraction_len);
    }
    if whole_len + fraction_len == 0 {
        return None;
    }
    if whole_len > WHOLE_DIGITS || fraction_len > FRACTION_DIGITS {
        return None;
    }
    let whole = read_digits(s, from, d);
    proof {
        assert(s@.subrange(from as int, d as int) == whole_part(t));
    }
    let fraction = if d < s.len() {
        proof {
            assert(s@.subrange(d + 1, s.len() as int) == fraction_part(t));
        }
        read_digits(s, d + 1, s.len())
    } else {
        proof {
            assert(digits_value(Seq::<char>::empty()) == 0);
        }
        Some(0)
    };
    match (whole, fraction) {
        (Some(w), Some(f)) => {
            proof {
                lemma_digits_value_bound(whole_part(t));
                lemma_digits_value_bound(fraction_part(t));
                lemma_pow10_monotonic(whole_len as nat, 12);
                lemma_pow10_monotonic(fraction_len as nat, 6);
                lemma_pow10_values();
                assert(w < 1_000_000_000_000);
                assert(f < 1_000_000);
            }
            let scale = pow10_of(FRACTION_DIGITS - fraction_len);
            proof {
                lemma_pow10_add(fraction_len as nat, (6 - fraction_len) as nat);
                let bound = pow10(fraction_len as nat);
                assert(f * scale < bound * scale) by (nonlinear_arith)
                    requires
                        f < bound,
                        scale > 0,
                ;
                assert(f * scale < 1_000_000);
                assert(w * 1_000_000 < 1_000_000_000_000 * 1_000_000) by (nonlinear_arith)
                    requires
                        w < 1_000_000_000_000,
                ;
            }
            Some(w * 1_000_000 + f * scale)
        },
        _ => None,
    }
}

/// Reads an unsigned decimal literal.
pub fn parse_decimal(s: &Vec<char>) -> (r: Option<u64>)
    ensures
        r is Some <==> decimal_ticks(s@) is Some,
        r is Some ==> r->0 == decimal_ticks(s@)->0,
        r is Some ==> r->0 < 1_000_000_000_000_000_000,
{
    proof {
        assert(s@.skip(0) == s@);
    }
    parse_decimal_from(s, 0)
}

/// Reads a decimal literal that may carry a leading `-`.
pub fn parse_signed_decimal(s: &Vec<char>) -> (r: Option<i64>)
    ensures
        r is Some <==> signed_decimal_ticks(s@) is Some,
        r is Some ==> r->0 == signed_decimal_ticks(s@)->0,
{
    if s.len() > 0 && s[0] == '-' {
        proof {
            assert(s@.skip(1) == s@.drop_first());
        }
        match parse_decimal_from(s, 1) {
            Some(v) => Some(0 - (v as i64)),
            None => None,
        }
    } else {
        match parse_decimal(s) {
            Some(v) => Some(v as i64),
            None => None,
        }
    }
}

} // verus!

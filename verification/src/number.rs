//! Numeric literals.
//!
//! A number is kept as exact decimal text in a canonical form: the integer
//! digits without leading zeros (`0` when there are none), a dot, and the
//! fraction digits without trailing zeros (`0` when there are none). So the
//! literals `5`, `5.`, `05.0` and `5.000` all denote the number `5.0`.

use vstd::prelude::*;
use crate::text::{chars_of, push_char};

verus! {

pub open spec fn is_digit(c: char) -> bool {
    '0' <= c && c <= '9'
}

/// The first index at or after `i` that holds a dot, or `s.len()`.
pub open spec fn dot_from(s: Seq<char>, i: int) -> int
    decreases s.len() - i,
{
    if i < 0 || i >= s.len() {
        s.len() as int
    } else if s[i] == '.' {
        i
    } else {
        dot_from(s, i + 1)
    }
}

/// The index of the first dot of `s`, or `s.len()` when it has none.
pub open spec fn first_dot(s: Seq<char>) -> int {
    dot_from(s, 0)
}

/// `s` holds two dots or more.
pub open spec fn has_two_dots(s: Seq<char>) -> bool {
    first_dot(s) < s.len() && dot_from(s, first_dot(s) + 1) < s.len()
}

/// What a literal may look like: digits and at most one dot, with at least one digit.
pub open spec fn is_decimal_literal(s: Seq<char>) -> bool {
    &&& forall|i: int| 0 <= i < s.len() ==> is_digit(#[trigger] s[i]) || s[i] == '.'
    &&& !has_two_dots(s)
    &&& exists|i: int| 0 <= i < s.len() && is_digit(#[trigger] s[i])
}

/// The first index at or after `i` (and before `end`) that does not hold `'0'`, or `end`.
pub open spec fn nonzero_from(s: Seq<char>, i: int, end: int) -> int
    decreases end - i,
{
    if i >= end {
        end
    } else if s[i] != '0' {
        i
    } else {
        nonzero_from(s, i + 1, end)
    }
}

/// The end of `s[start..j]` once its trailing `'0'`s are dropped.
pub open spec fn nonzero_until(s: Seq<char>, start: int, j: int) -> int
    decreases j - start,
{
    if j <= start {
        start
    } else if s[j - 1] != '0' {
        j
    } else {
        nonzero_until(s, start, j - 1)
    }
}

/// `s`, or `"0"` when `s` is empty.
pub open spec fn or_zero(s: Seq<char>) -> Seq<char> {
    if s.len() == 0 {
        seq!['0']
    } else {
        s
    }
}

/// The canonical text of the decimal literal `s`.
pub open spec fn canonical(s: Seq<char>) -> Seq<char> {
    let d = first_dot(s);
    let int_digits = s.subrange(nonzero_from(s, 0, d), d);
    let frac_start = if d < s.len() { d + 1 } else { d };
    let frac_digits = s.subrange(frac_start, nonzero_until(s, frac_start, s.len() as int));
    or_zero(int_digits) + seq!['.'] + or_zero(frac_digits)
}

/// The canonical text of zero.
pub open spec fn zero_text() -> Seq<char> {
    seq!['0', '.', '0']
}

/// A numeric value, held as its canonical decimal text.
#[derive(Debug, PartialEq)]
pub struct Number {
    text: String,
}

impl View for Number {
    type V = Seq<char>;

    closed spec fn view(&self) -> Seq<char> {
        self.text@
    }
}

pub proof fn lemma_dot_from_bounds(s: Seq<char>, i: int)
    requires
        0 <= i,
    ensures
        i <= dot_from(s, i) <= s.len() || (i > s.len() && dot_from(s, i) == s.len()),
        dot_from(s, i) < s.len() ==> s[dot_from(s, i)] == '.',
        forall|k: int| i <= k < dot_from(s, i) ==> s[k] != '.',
    decreases s.len() - i,
{
    if i < s.len() && s[i] != '.' {
        lemma_dot_from_bounds(s, i + 1);
    }
}

pub proof fn lemma_nonzero_from_bounds(s: Seq<char>, i: int, end: int)
    requires
        i <= end,
    ensures
        i <= nonzero_from(s, i, end) <= end,
    decreases end - i,
{
    if i < end && s[i] == '0' {
        lemma_nonzero_from_bounds(s, i + 1, end);
    }
}

pub proof fn lemma_nonzero_until_bounds(s: Seq<char>, start: int, j: int)
    requires
        start <= j,
    ensures
        start <= nonzero_until(s, start, j) <= j,
    decreases j - start,
{
    if j > start && s[j - 1] == '0' {
        lemma_nonzero_until_bounds(s, start, j - 1);
    }
}

impl Number {
    /// The number written by the literal `v[start..end]`.
    pub(crate) fn from_chars(v: &Vec<char>, start: usize, end: usize) -> (n: Number)
        requires
            start <= end <= v@.len(),
        ensures
            n@ == canonical(v@.subrange(start as int, end as int)),
    {
        let ghost s = v@.subrange(start as int, end as int);
        // the first dot
        let mut d = start;
        while d < end && v[d] != '.'
            invariant
                start <= d <= end <= v@.len(),
                s == v@.subrange(start as int, end as int),
                dot_from(s, 0) == dot_from(s, d - start),
            decreases end - d,
        {
            assert(s[d - start] == v@[d as int]);
            d = d + 1;
        }
        // the first digit of the integer part that is not a zero
        let mut a = start;
        while a < d && v[a] == '0'
            invariant
                start <= a <= d <= end <= v@.len(),
                s == v@.subrange(start as int, end as int),
                dot_from(s, 0) == d - start,
                nonzero_from(s, 0, d - start) == nonzero_from(s, a - start, d - start),
            decreases d - a,
        {
            assert(s[a - start] == v@[a as int]);
            a = a + 1;
        }
        let frac_start = if d < end { d + 1 } else { d };
        // the end of the fraction digits once the trailing zeros are dropped
        let mut b = end;
        while b > frac_start && v[b - 1] == '0'
            invariant
                start <= frac_start <= b <= end <= v@.len(),
                s == v@.subrange(start as int, end as int),
                nonzero_until(s, frac_start - start, s.len() as int) == nonzero_until(s, frac_start - start, b - start),
            decreases b - frac_start,
        {
            assert(s[b - 1 - start] == v@[b - 1]);
            b = b - 1;
        }
        let mut text = String::new();
        if a == d {
            push_char(&mut text, '0');
        } else {
            let mut i = a;
            while i < d
                invariant
                    a <= i <= d <= v@.len(),
                    text@ == v@.subrange(a as int, i as int),
                decreases d - i,
            {
                push_char(&mut text, v[i]);
                i = i + 1;
                assert(text@ =~= v@.subrange(a as int, i as int));
            }
        }
        push_char(&mut text, '.');
        if b == frac_start {
            push_char(&mut text, '0');
        } else {
            let ghost before = text@;
            let mut i = frac_start;
            while i < b
                invariant
                    frac_start <= i <= b <= v@.len(),
                    text@ == before + v@.subrange(frac_start as int, i as int),
                decreases b - i,
            {
                push_char(&mut text, v[i]);
                i = i + 1;
                assert(text@ =~= before + v@.subrange(frac_start as int, i as int));
            }
        }
        proof {
            let sd = first_dot(s);
            assert(sd == d - start);
            assert(s.subrange(a - start, sd) =~= v@.subrange(a as int, d as int));
            let fs = if sd < s.len() { sd + 1 } else { sd };
            assert(fs == frac_start - start);
            assert(s.subrange(fs, b - start) =~= v@.subrange(frac_start as int, b as int));
            assert(text@ =~= canonical(s));
        }
        Number { text }
    }

    /// The number that a decimal literal such as `5`, `5.0` or `0.25` denotes.
    pub fn from_literal(literal: &str) -> (n: Number)
        requires
            is_decimal_literal(literal@),
        ensures
            n@ == canonical(literal@),
    {
        let v = chars_of(literal);
        let n = Number::from_chars(&v, 0, v.len());
        assert(v@.subrange(0, v@.len() as int) =~= literal@);
        n
    }

    /// The number zero.
    pub fn zero() -> (n: Number)
        ensures
            n@ == zero_text(),
    {
        let mut text = String::new();
        push_char(&mut text, '0');
        push_char(&mut text, '.');
        push_char(&mut text, '0');
        assert(text@ =~= zero_text());
        Number { text }
    }

    /// Whether this number is zero.
    pub fn is_zero(&self) -> (r: bool)
        ensures
            r == (self@ == zero_text()),
    {
        let t = self.text.as_str();
        let v = chars_of(t);
        let r = v.len() == 3 && v[0] == '0' && v[1] == '.' && v[2] == '0';
        assert(r ==> v@ =~= zero_text());
        r
    }

    /// The canonical decimal text of this number.
    pub fn text(&self) -> (r: &str)
        ensures
            r@ == self@,
    {
        self.text.as_str()
    }

    /// Whether the two numbers are equal.
    pub fn equals(&self, other: &Number) -> (r: bool)
        ensures
            r == (self@ == other@),
    {
        self.text == other.text
    }

    /// A copy of this number.
    pub fn copy(&self) -> (r: Number)
        ensures
            r@ == self@,
    {
        Number { text: self.text.clone() }
    }
}

} // verus!

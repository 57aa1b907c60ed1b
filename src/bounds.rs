//! Reading the bounds of a constrained integer, such as `(0..255)`.
use vstd::prelude::*;
use vstd::string::*;

verus! {

pub open spec fn is_digit(c: char) -> bool {
    '0' <= c && c <= '9'
}

/// A non-empty run of decimal digits.
pub open spec fn is_digits(d: Seq<char>) -> bool {
    d.len() > 0 && forall|i: int| 0 <= i < d.len() ==> is_digit(#[trigger] d[i])
}

/// The decimal number that the digits `d` spell.
pub open spec fn digits_value(d: Seq<char>) -> nat
    decreases d.len(),
{
    if d.len() == 0 {
        0
    } else {
        digits_value(d.drop_last()) * 10 + (d.last() as nat - '0' as nat) as nat
    }
}

/// Whether `t` starts with a sign, `-` or `+`.
pub open spec fn has_sign(t: Seq<char>) -> bool {
    t.len() > 0 && (t[0] == '-' || t[0] == '+')
}

/// The integer that `t` spells, an optional sign and digits, where it fits
/// an `i128`.
pub open spec fn int_value(t: Seq<char>) -> Option<i128> {
    let negative = t.len() > 0 && t[0] == '-';
    let d = if has_sign(t) {
        t.drop_first()
    } else {
        t
    };
    if !is_digits(d) {
        None
    } else if negative {
        if digits_value(d) <= i128::MAX + 1 {
            Some((-digits_value(d)) as i128)
        } else {
            None
        }
    } else if digits_value(d) <= i128::MAX {
        Some(digits_value(d) as i128)
    } else {
        None
    }
}

/// Index of the first `.` of `s` at or after `i`, or `s.len()`.
pub open spec fn first_dot(s: Seq<char>, i: int) -> int
    decreases s.len() - i,
{
    if i < 0 || i >= s.len() {
        s.len() as int
    } else if s[i] == '.' {
        i
    } else {
        first_dot(s, i + 1)
    }
}

/// The bounds that `s` spells as `(min..max)`, each an integer.
pub open spec fn bounds_value(s: Seq<char>) -> Option<(i128, i128)> {
    if s.len() < 2 || s[0] != '(' || s.last() != ')' {
        None
    } else {
        let inner = s.subrange(1, s.len() - 1);
        let p = first_dot(inner, 0);
        if p + 1 >= inner.len() || inner[p + 1] != '.' {
            None
        } else {
            match (int_value(inner.subrange(0, p)), int_value(inner.subrange(p + 2, inner.len() as int))) {
                (Some(lo), Some(hi)) => Some((lo, hi)),
                _ => None,
            }
        }
    }
}

pub proof fn lemma_digits_value_prefix(d: Seq<char>, k: int)
    requires
        0 <= k <= d.len(),
    ensures
        digits_value(d.take(k)) <= digits_value(d),
    decreases d.len(),
{
    if k < d.len() {
        assert(d.drop_last().take(k) =~= d.take(k));
        lemma_digits_value_prefix(d.drop_last(), k);
    } else {
        assert(d.take(k) =~= d);
    }
}

proof fn lemma_first_dot_range(s: Seq<char>, i: int)
    requires
        0 <= i <= s.len(),
    ensures
        i <= first_dot(s, i) <= s.len(),
        forall|j: int| i <= j < first_dot(s, i) ==> s[j] != '.',
    decreases s.len() - i,
{
    if i < s.len() && s[i] != '.' {
        lemma_first_dot_range(s, i + 1);
    }
}

/// Reads `s@[from..to]` as an integer: `int_value` of those characters.
fn parse_int(s: &str, from: usize, to: usize) -> (r: Option<i128>)
    requires
        from <= to <= s@.len(),
    ensures
        r == int_value(s@.subrange(from as int, to as int)),
{
    let ghost t = s@.subrange(from as int, to as int);
    let signed = from < to && (s.get_char(from) == '-' || s.get_char(from) == '+');
    let negative = from < to && s.get_char(from) == '-';
    let first = if signed { from + 1 } else { from };
    let ghost d = s@.subrange(first as int, to as int);
    if signed {
        assert(t.drop_first() =~= d);
    } else {
        assert(t =~= d);
    }
    if first >= to {
        return None;
    }
    // The largest magnitude that the sign allows.
    let limit: u128 = if negative { i128::MAX as u128 + 1 } else { i128::MAX as u128 };
    let mut acc: u128 = 0;
    let mut i: usize = first;
    assert(d.take(0) =~= Seq::<char>::empty());
    while i < to
        invariant
            first <= i <= to <= s@.len(),
            d == s@.subrange(first as int, to as int),
            t == s@.subrange(from as int, to as int),
            has_sign(t) == signed,
            negative == (t.len() > 0 && t[0] == '-'),
            signed ==> t.drop_first() == d,
            !signed ==> t == d,
            limit == if negative { i128::MAX + 1 } else { i128::MAX as int },
            acc as int == digits_value(d.take(i - first)),
            acc <= limit,
            forall|j: int| 0 <= j < i - first ==> is_digit(#[trigger] d[j]),
        decreases to - i,
    {
        let c = s.get_char(i);
        assert(d[i - first] == c);
        if !('0' <= c && c <= '9') {
            assert(!is_digits(d));
            return None;
        }
        let digit = (c as u32 - '0' as u32) as u128;
        assert(d.take(i - first + 1).drop_last() =~= d.take(i - first));
        if digit > limit || acc > (limit - digit) / 10 {
            proof {
                lemma_digits_value_prefix(d, i - first + 1);
                assert(digits_value(d.take(i - first + 1)) == acc * 10 + digit);
                assert(digits_value(d) > limit);
            }
            return None;
        }
        acc = acc * 10 + digit;
        i = i + 1;
    }
    assert(d.take(i - first) =~= d);
    if negative {
        if acc == i128::MAX as u128 + 1 {
            Some(i128::MIN)
        } else {
            Some(-(acc as i128))
        }
    } else {
        Some(acc as i128)
    }
}

/// Reads bound text `(min..max)` as the pair of its integers; `None` where
/// the text has another shape or a number does not fit an `i128`.
pub fn parse_bounds(s: &str) -> (r: Option<(i128, i128)>)
    ensures
        r == bounds_value(s@),
{
    let n = s.unicode_len();
    if n < 2 || s.get_char(0) != '(' || s.get_char(n - 1) != ')' {
        return None;
    }
    let ghost inner = s@.subrange(1, n - 1);
    // Find the first '.' inside the parentheses.
    let mut p: usize = 1;
    proof {
        lemma_first_dot_range(inner, 0);
    }
    while p < n - 1 && s.get_char(p) != '.'
        invariant
            1 <= p <= n - 1,
            n == s@.len(),
            inner == s@.subrange(1, n - 1),
            first_dot(inner, 0) == first_dot(inner, p - 1),
        decreases n - p,
    {
        p = p + 1;
    }
    assert(first_dot(inner, 0) == p - 1);
    if p + 1 >= n - 1 || s.get_char(p + 1) != '.' {
        return None;
    }
    let lo = parse_int(s, 1, p);
    let hi = parse_int(s, p + 2, n - 1);
    assert(inner.subrange(0, p - 1) =~= s@.subrange(1, p as int));
    assert(inner.subrange(p + 1, inner.len() as int) =~= s@.subrange(p + 2, n - 1));
    match (lo, hi) {
        (Some(lo), Some(hi)) => Some((lo, hi)),
        _ => None,
    }
}

} // verus!

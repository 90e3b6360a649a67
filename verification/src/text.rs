//! Small text operations on ASCII bytes: case folding, comparison and
//! decimal numerals.

use vstd::prelude::*;
use crate::combinators::spec_is_digit;

verus! {

/// ASCII lower case of a byte; other bytes are kept.
pub open spec fn ascii_lower(c: u8) -> u8 {
    if 0x41 <= c && c <= 0x5A {
        (c + 32) as u8
    } else {
        c
    }
}

/// `s` with every ASCII letter in lower case.
pub open spec fn lower_seq(s: Seq<u8>) -> Seq<u8> {
    s.map_values(|c: u8| ascii_lower(c))
}

/// The ASCII lower case of `c`.
pub fn to_ascii_lower(c: u8) -> (r: u8)
    ensures
        r == ascii_lower(c),
{
    if c >= 0x41 && c <= 0x5A {
        c + 32
    } else {
        c
    }
}

/// Whether `name`, folded to lower case, equals `lower`.
pub fn eq_lowercase(name: &[u8], lower: &[u8]) -> (r: bool)
    ensures
        r == (lower_seq(name@) == lower@),
{
    if name.len() != lower.len() {
        assert(lower_seq(name@).len() != lower@.len());
        return false;
    }
    let mut i: usize = 0;
    while i < name.len()
        invariant
            name.len() == lower.len(),
            i <= name.len(),
            forall|j: int| 0 <= j < i ==> ascii_lower(name@[j]) == lower@[j],
        decreases name.len() - i,
    {
        if to_ascii_lower(name[i]) != lower[i] {
            assert(lower_seq(name@)[i as int] != lower@[i as int]);
            return false;
        }
        i = i + 1;
    }
    assert(lower_seq(name@) =~= lower@);
    true
}

/// Whether the two byte strings are equal.
pub fn bytes_eq(a: &[u8], b: &[u8]) -> (r: bool)
    ensures
        r == (a@ == b@),
{
    if a.len() != b.len() {
        return false;
    }
    let mut i: usize = 0;
    while i < a.len()
        invariant
            a.len() == b.len(),
            i <= a.len(),
            forall|j: int| 0 <= j < i ==> a@[j] == b@[j],
        decreases a.len() - i,
    {
        if a[i] != b[i] {
            return false;
        }
        i = i + 1;
    }
    assert(a@ =~= b@);
    true
}

// ---------------------------------------------------------------------------
// Decimal numerals
// ---------------------------------------------------------------------------
pub open spec fn all_digits(s: Seq<u8>) -> bool {
    forall|i: int| 0 <= i < s.len() ==> spec_is_digit(#[trigger] s[i])
}

/// The value of a string of decimal digits.
pub open spec fn decimal_value(s: Seq<u8>) -> nat
    decreases s.len(),
{
    if s.len() == 0 {
        0
    } else {
        10 * decimal_value(s.drop_last()) + ((s.last() - 0x30) as nat)
    }
}

/// What `str::parse::<usize>` gives for the text `s`: an optional `+` and
/// then at least one digit, with a value that fits in `usize`.
pub open spec fn spec_parse_usize(s: Seq<u8>) -> Option<usize> {
    let digits = if s.len() > 0 && s[0] == 0x2B {
        s.drop_first()
    } else {
        s
    };
    if digits.len() == 0 || !all_digits(digits) {
        None
    } else if decimal_value(digits) <= usize::MAX {
        Some(decimal_value(digits) as usize)
    } else {
        None
    }
}

proof fn lemma_decimal_value_prefix_monotone(s: Seq<u8>, i: int, j: int)
    requires
        0 <= i <= j <= s.len(),
        all_digits(s),
    ensures
        decimal_value(s.take(i)) <= decimal_value(s.take(j)),
    decreases j - i,
{
    if i < j {
        lemma_decimal_value_prefix_monotone(s, i, j - 1);
        assert(s.take(j).drop_last() =~= s.take(j - 1));
    }
}

/// Parses decimal digits with an optional leading `+` into a `usize`, as
/// `str::parse::<usize>` does.
pub fn parse_usize(s: &[u8]) -> (r: Option<usize>)
    ensures
        r == spec_parse_usize(s@),
{
    let start: usize = if s.len() > 0 && s[0] == 0x2B {
        1
    } else {
        0
    };
    let ghost digits = if s@.len() > 0 && s@[0] == 0x2B {
        s@.drop_first()
    } else {
        s@
    };
    assert(digits =~= s@.subrange(start as int, s@.len() as int));
    if start == s.len() {
        return None;
    }
    let mut value: usize = 0;
    let mut i: usize = start;
    while i < s.len()
        invariant
            start <= i <= s.len(),
            digits == s@.subrange(start as int, s@.len() as int),
            digits == (if s@.len() > 0 && s@[0] == 0x2B {
                s@.drop_first()
            } else {
                s@
            }),
            all_digits(digits.take(i - start)),
            value == decimal_value(digits.take(i - start)),
        decreases s.len() - i,
    {
        let c = s[i];
        if !(c >= 0x30 && c <= 0x39) {
            assert(digits[i - start] == c);
            assert(!spec_is_digit(digits[i - start]));
            assert(!all_digits(digits));
            return None;
        }
        let ghost k = i - start;
        assert(digits.take(k + 1).drop_last() =~= digits.take(k));
        assert(digits.take(k + 1).last() == c);
        let d: usize = (c - 0x30) as usize;
        match value.checked_mul(10) {
            None => {
                proof {
                    assert(decimal_value(digits.take(k + 1)) == 10 * decimal_value(digits.take(k))
                        + (c - 0x30) as nat);
                    assert(decimal_value(digits.take(k + 1)) > usize::MAX);
                    if all_digits(digits) {
                        lemma_decimal_value_prefix_monotone(digits, k + 1, digits.len() as int);
                        assert(digits.take(digits.len() as int) =~= digits);
                    }
                }
                return None;
            },
            Some(t) => match t.checked_add(d) {
                None => {
                    proof {
                        assert(decimal_value(digits.take(k + 1)) == 10 * decimal_value(
                            digits.take(k),
                        ) + (c - 0x30) as nat);
                        assert(decimal_value(digits.take(k + 1)) > usize::MAX);
                        if all_digits(digits) {
                            lemma_decimal_value_prefix_monotone(
                                digits,
                                k + 1,
                                digits.len() as int,
                            );
                            assert(digits.take(digits.len() as int) =~= digits);
                        }
                    }
                    return None;
                },
                Some(v) => {
                    value = v;
                },
            },
        }
        i = i + 1;
        assert(all_digits(digits.take(i - start)));
    }
    assert(digits.take(i - start) =~= digits);
    Some(value)
}

/// The shortest decimal numeral of `n`.
pub open spec fn decimal_digits(n: nat) -> Seq<u8>
    decreases n,
{
    if n < 10 {
        seq![(0x30 + n) as u8]
    } else {
        decimal_digits(n / 10).push((0x30 + n % 10) as u8)
    }
}

/// Appends the decimal numeral of `n` to `out`.
pub fn push_decimal(out: &mut Vec<u8>, n: usize)
    ensures
        final(out)@ == old(out)@ + decimal_digits(n as nat),
    decreases n,
{
    if n >= 10 {
        push_decimal(out, n / 10);
    }
    let ghost before = out@;
    out.push(0x30 + (n % 10) as u8);
    proof {
        if n < 10 {
            assert(out@ =~= old(out)@ + decimal_digits(n as nat));
        } else {
            assert(out@ =~= old(out)@ + decimal_digits(n as nat));
        }
    }
}

/// The decimal numeral of `n`, as `n.to_string()` writes it.
pub fn usize_to_decimal(n: usize) -> (r: Vec<u8>)
    ensures
        r@ == decimal_digits(n as nat),
{
    let mut out: Vec<u8> = Vec::new();
    push_decimal(&mut out, n);
    assert(out@ =~= decimal_digits(n as nat));
    out
}

pub proof fn lemma_decimal_digits_shape(n: nat)
    ensures
        decimal_digits(n).len() >= 1,
        all_digits(decimal_digits(n)),
        decimal_value(decimal_digits(n)) == n,
    decreases n,
{
    if n >= 10 {
        lemma_decimal_digits_shape(n / 10);
        let d = decimal_digits(n);
        assert(d.drop_last() =~= decimal_digits(n / 10));
        assert(forall|i: int| 0 <= i < d.len() - 1 ==> d[i] == decimal_digits(n / 10)[i]);
        assert(d.last() == (0x30 + n % 10) as u8);
        assert(((0x30 + n % 10) as u8) as int == 0x30 + n % 10);
        assert(decimal_value(d) == 10 * decimal_value(d.drop_last()) + ((d.last() - 0x30) as nat));
        assert(10 * (n / 10) + n % 10 == n);
    } else {
        let d = decimal_digits(n);
        assert(d.drop_last() =~= Seq::<u8>::empty());
        assert(decimal_value(Seq::<u8>::empty()) == 0);
        assert(((0x30 + n) as u8) as int == 0x30 + n);
        assert(decimal_value(d) == 10 * decimal_value(d.drop_last()) + ((d.last() - 0x30) as nat));
    }
}

/// Law: the numeral that the library writes for a length reads back as
/// that length.
pub proof fn lemma_parse_decimal_roundtrip(n: usize)
    ensures
        spec_parse_usize(decimal_digits(n as nat)) == Some(n),
{
    lemma_decimal_digits_shape(n as nat);
    let d = decimal_digits(n as nat);
    assert(spec_is_digit(d[0]));
}

} // verus!

//! Decimal numerals as they appear on the wire.
//!
//! A number has exactly one numeral: the shortest one, with a leading minus
//! sign for a negative number and no sign otherwise. Parsing accepts that
//! numeral and nothing else, so that formatting and parsing are inverse to
//! each other in both directions.

use vstd::prelude::*;

verus! {

/// The digit `0`.
pub const ZERO: u8 = 48;

/// The digit `9`.
pub const NINE: u8 = 57;

/// The minus sign.
pub const MINUS: u8 = 45;

/// Whether `b` is a decimal digit.
pub open spec fn is_digit(b: u8) -> bool {
    ZERO <= b <= NINE
}

/// The shortest decimal numeral of `n`, most significant digit first.
pub open spec fn decimal(n: nat) -> Seq<u8>
    decreases n,
{
    if n < 10 {
        seq![(ZERO + n) as u8]
    } else {
        decimal(n / 10).push((ZERO + n % 10) as u8)
    }
}

/// The number that a sequence of digits denotes, read most significant digit
/// first.
pub open spec fn digits_value(s: Seq<u8>) -> nat
    decreases s.len(),
{
    if s.len() == 0 {
        0
    } else {
        digits_value(s.drop_last()) * 10 + (s.last() - ZERO) as nat
    }
}

/// Whether every element of `s` is a digit.
pub open spec fn all_digits(s: Seq<u8>) -> bool {
    forall|i: int| 0 <= i < s.len() ==> is_digit(#[trigger] s[i])
}

/// Whether `s` is the shortest numeral of some natural number: one digit or
/// more, and no leading zero but for the numeral `0` itself.
pub open spec fn is_numeral(s: Seq<u8>) -> bool {
    &&& s.len() >= 1
    &&& all_digits(s)
    &&& (s.len() > 1 ==> s[0] != ZERO)
}

/// The natural number that `s` is the numeral of, if it is one that fits in
/// 64 bits.
pub open spec fn parse_nat(s: Seq<u8>) -> Option<u64> {
    if is_numeral(s) && digits_value(s) <= u64::MAX {
        Some(digits_value(s) as u64)
    } else {
        None
    }
}

/// The numeral of the integer `n`: a minus sign before the numeral of its
/// magnitude where `n` is negative.
pub open spec fn decimal_int(n: int) -> Seq<u8> {
    if n < 0 {
        seq![MINUS] + decimal((-n) as nat)
    } else {
        decimal(n as nat)
    }
}

/// The integer that `s` is the numeral of, if it is one that fits in 64 bits
/// with a sign. Zero has no negative numeral.
pub open spec fn parse_int(s: Seq<u8>) -> Option<i64> {
    if s.len() >= 1 && s[0] == MINUS {
        let digits = s.skip(1);
        if is_numeral(digits) && 0 < digits_value(digits) <= 0x8000_0000_0000_0000 {
            Some((-(digits_value(digits) as int)) as i64)
        } else {
            None
        }
    } else if is_numeral(s) && digits_value(s) <= i64::MAX {
        Some(digits_value(s) as i64)
    } else {
        None
    }
}

/// A numeral holds digits only, and denotes the number it was made from.
pub proof fn lemma_decimal_numeral(n: nat)
    ensures
        is_numeral(decimal(n)),
        digits_value(decimal(n)) == n,
    decreases n,
{
    if n < 10 {
        let s = decimal(n);
        assert(s.drop_last() =~= Seq::<u8>::empty());
        assert(digits_value(s.drop_last()) == 0);
    } else {
        lemma_decimal_numeral(n / 10);
        let p = decimal(n / 10);
        let s = decimal(n);
        assert(s == p.push((ZERO + n % 10) as u8));
        assert(s.drop_last() =~= p);
        assert(s[0] == p[0]);
        if p.len() == 1 {
            assert(p.drop_last() =~= Seq::<u8>::empty());
            assert(digits_value(p.drop_last()) == 0);
            assert(digits_value(p) == (p[0] - ZERO) as nat);
            assert(p[0] != ZERO);
        }
        assert forall|i: int| 0 <= i < s.len() implies is_digit(#[trigger] s[i]) by {
            if i < p.len() {
                assert(s[i] == p[i]);
            }
        }
    }
}

/// The shortest numeral of the number that a numeral denotes is that numeral.
pub proof fn lemma_numeral_decimal(s: Seq<u8>)
    requires
        is_numeral(s),
    ensures
        decimal(digits_value(s)) == s,
    decreases s.len(),
{
    let p = s.drop_last();
    if s.len() == 1 {
        assert(p =~= Seq::<u8>::empty());
        assert(digits_value(p) == 0);
        assert(is_digit(s[0]));
        assert(decimal(digits_value(s)) =~= s);
    } else {
        assert(is_digit(s.last()));
        assert forall|i: int| 0 <= i < p.len() implies is_digit(#[trigger] p[i]) by {
            assert(p[i] == s[i]);
        }
        assert(p[0] == s[0]);
        assert(is_numeral(p));
        lemma_numeral_decimal(p);
        lemma_leading_digit(p);
        let v = digits_value(s);
        assert(v == digits_value(p) * 10 + (s.last() - ZERO) as nat);
        assert(digits_value(p) >= 1);
        assert(v >= 10);
        assert(v / 10 == digits_value(p));
        assert(v % 10 == (s.last() - ZERO) as nat);
        assert(decimal(v) =~= s);
    }
}

/// A run of digits that does not start with `0` denotes a positive number.
proof fn lemma_leading_digit(s: Seq<u8>)
    requires
        s.len() >= 1,
        all_digits(s),
        s[0] != ZERO,
    ensures
        digits_value(s) >= 1,
    decreases s.len(),
{
    let p = s.drop_last();
    if s.len() == 1 {
        assert(p =~= Seq::<u8>::empty());
        assert(digits_value(p) == 0);
        assert(is_digit(s[0]));
    } else {
        assert forall|i: int| 0 <= i < p.len() implies is_digit(#[trigger] p[i]) by {
            assert(p[i] == s[i]);
        }
        assert(p[0] == s[0]);
        lemma_leading_digit(p);
    }
}

/// Every natural number below 2^64 is read back from its numeral.
pub proof fn lemma_parse_nat_decimal(n: nat)
    requires
        n <= u64::MAX,
    ensures
        parse_nat(decimal(n)) == Some(n as u64),
{
    lemma_decimal_numeral(n);
}

/// What `parse_nat` accepts is the numeral of what it returns.
pub proof fn lemma_decimal_parse_nat(s: Seq<u8>)
    requires
        parse_nat(s) is Some,
    ensures
        decimal(parse_nat(s)->0 as nat) == s,
{
    lemma_numeral_decimal(s);
}

/// Every 64-bit signed integer is read back from its numeral.
pub proof fn lemma_parse_int_decimal(n: i64)
    ensures
        parse_int(decimal_int(n as int)) == Some(n),
{
    let s = decimal_int(n as int);
    if n < 0 {
        let m = (-(n as int)) as nat;
        lemma_decimal_numeral(m);
        assert(s.skip(1) =~= decimal(m));
        assert(s[0] == MINUS);
    } else {
        lemma_decimal_numeral(n as nat);
        assert(is_digit(s[0]));
    }
}

/// What `parse_int` accepts is the numeral of what it returns.
pub proof fn lemma_decimal_parse_int(s: Seq<u8>)
    requires
        parse_int(s) is Some,
    ensures
        decimal_int(parse_int(s)->0 as int) == s,
{
    if s.len() >= 1 && s[0] == MINUS {
        let digits = s.skip(1);
        lemma_numeral_decimal(digits);
        assert(seq![MINUS] + digits =~= s);
    } else {
        lemma_numeral_decimal(s);
    }
}

/// A prefix of a run of digits denotes no more than the whole run.
proof fn lemma_prefix_value(s: Seq<u8>, k: int)
    requires
        0 <= k <= s.len(),
    ensures
        digits_value(s.subrange(0, k)) <= digits_value(s),
    decreases s.len() - k,
{
    if k == s.len() {
        assert(s.subrange(0, k) =~= s);
    } else {
        lemma_prefix_value(s, k + 1);
        let q = s.subrange(0, k + 1);
        assert(q.drop_last() =~= s.subrange(0, k));
        assert(digits_value(q) == digits_value(s.subrange(0, k)) * 10 + (q.last() - ZERO) as nat);
    }
}

/// Writes `n` as its numeral.
pub fn format_u64(n: u64) -> (out: Vec<u8>)
    ensures
        out@ == decimal(n as nat),
    decreases n,
{
    if n < 10 {
        let mut out: Vec<u8> = Vec::new();
        out.push(ZERO + (n as u8));
        assert(out@ =~= decimal(n as nat));
        out
    } else {
        let mut out = format_u64(n / 10);
        out.push(ZERO + ((n % 10) as u8));
        out
    }
}

/// Writes `n` as its numeral.
pub fn format_i64(n: i64) -> (out: Vec<u8>)
    ensures
        out@ == decimal_int(n as int),
{
    if n < 0 {
        let magnitude: u64 = ((-(n + 1)) as u64) + 1;
        let digits = format_u64(magnitude);
        let mut out: Vec<u8> = Vec::new();
        out.push(MINUS);
        let mut i: usize = 0;
        while i < digits.len()
            invariant
                i <= digits.len(),
                out@ == seq![MINUS] + digits@.subrange(0, i as int),
            decreases digits.len() - i,
        {
            out.push(digits[i]);
            assert(digits@.subrange(0, i + 1) =~= digits@.subrange(0, i as int).push(
                digits@[i as int],
            ));
            i += 1;
        }
        assert(digits@.subrange(0, i as int) =~= digits@);
        out
    } else {
        format_u64(n as u64)
    }
}

/// Reads the numeral of a natural number below 2^64.
///
/// `None` means that `s` is not such a numeral: it is empty, holds something
/// other than digits, has a leading zero, or denotes a larger number.
pub fn parse_u64(s: &[u8]) -> (out: Option<u64>)
    ensures
        out == parse_nat(s@),
{
    let n = s.len();
    if n == 0 {
        return None;
    }
    if n > 1 && s[0] == ZERO {
        return None;
    }
    let mut acc: u64 = 0;
    let mut i: usize = 0;
    assert(s@.subrange(0, 0) =~= Seq::<u8>::empty());
    while i < n
        invariant
            i <= n,
            n == s@.len(),
            all_digits(s@.subrange(0, i as int)),
            acc == digits_value(s@.subrange(0, i as int)),
        decreases n - i,
    {
        let b = s[i];
        if b < ZERO || b > NINE {
            assert(!is_digit(s@[i as int]));
            return None;
        }
        let ghost prev = s@.subrange(0, i as int);
        let ghost next = s@.subrange(0, i + 1);
        proof {
            assert(next.drop_last() =~= prev);
            assert(next.last() == b);
            assert(digits_value(next) == acc * 10 + (b - ZERO) as nat);
            assert forall|j: int| 0 <= j < next.len() implies is_digit(#[trigger] next[j]) by {
                if j < i {
                    assert(prev[j] == next[j]);
                }
            }
            lemma_prefix_value(s@, i + 1);
        }
        let scaled = match acc.checked_mul(10) {
            Some(v) => v,
            None => {
                return None;
            },
        };
        acc = match scaled.checked_add((b - ZERO) as u64) {
            Some(v) => v,
            None => {
                return None;
            },
        };
        i += 1;
    }
    assert(s@.subrange(0, i as int) =~= s@);
    Some(acc)
}

/// Reads the numeral of a 64-bit signed integer.
///
/// `None` means that `s` is not such a numeral: besides what `parse_u64`
/// refuses, a plus sign, a lone minus sign, `-0`, or a number out of range.
pub fn parse_i64(s: &[u8]) -> (out: Option<i64>)
    ensures
        out == parse_int(s@),
{
    if s.len() >= 1 && s[0] == MINUS {
        let digits = vstd::slice::slice_subrange(s, 1, s.len());
        assert(digits@ =~= s@.skip(1));
        match parse_u64(digits) {
            Some(m) => {
                if m == 0 || m > 0x8000_0000_0000_0000 {
                    None
                } else if m == 0x8000_0000_0000_0000 {
                    Some(i64::MIN)
                } else {
                    Some(-(m as i64))
                }
            },
            None => None,
        }
    } else {
        match parse_u64(s) {
            Some(m) => {
                if m > 0x7fff_ffff_ffff_ffff {
                    None
                } else {
                    Some(m as i64)
                }
            },
            None => None,
        }
    }
}

} // verus!

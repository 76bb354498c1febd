//! The language's spelling of integers and booleans, and the move of a fixed
//! decimal spelling into exponential notation.
//!
//! Integers print in decimal with a leading `-` when negative; booleans
//! print as `true` / `false`.
use vstd::prelude::*;
use vstd::string::StringSliceAdditionalSpecFns;

use crate::json::numbers::dot_index;
use crate::text::{
    ascii_chars, ascii_string, decimal_digits, is_ascii_bytes, lemma_decimal_digits_ascii,
    push_decimal, signed_decimal,
};

verus! {

/// The `String` spelling the integer `v` in decimal.
fn signed_string(v: i128) -> (r: String)
    requires
        -0x1_0000_0000_0000_0000 < v < 0x1_0000_0000_0000_0000,
    ensures
        r@ == ascii_chars(signed_decimal(v as int)),
{
    let mut out: Vec<u8> = Vec::new();
    if v < 0 {
        out.push(45u8);
        push_decimal(&mut out, (-v) as u64);
    } else {
        push_decimal(&mut out, v as u64);
    }
    proof {
        assert(out@ =~= signed_decimal(v as int));
        if v < 0 {
            lemma_decimal_digits_ascii((-v) as nat);
        } else {
            lemma_decimal_digits_ascii(v as nat);
        }
        assert(is_ascii_bytes(out@));
    }
    ascii_string(out)
}

/// Formats an `i32` in decimal.
pub fn fmt_i32(v: i32) -> (r: String)
    ensures
        r@ == ascii_chars(signed_decimal(v as int)),
{
    signed_string(v as i128)
}

/// Formats a `u32` in decimal.
pub fn fmt_u32(v: u32) -> (r: String)
    ensures
        r@ == ascii_chars(decimal_digits(v as nat)),
{
    signed_string(v as i128)
}

/// Formats an `i64` in decimal.
pub fn fmt_i64(v: i64) -> (r: String)
    ensures
        r@ == ascii_chars(signed_decimal(v as int)),
{
    signed_string(v as i128)
}

/// Formats a `u64` in decimal.
pub fn fmt_u64(v: u64) -> (r: String)
    ensures
        r@ == ascii_chars(decimal_digits(v as nat)),
{
    signed_string(v as i128)
}

/// Formats a boolean as `true` / `false`.
pub fn fmt_bool(v: bool) -> (r: String)
    ensures
        r@ == (if v { "true"@ } else { "false"@ }),
{
    if v {
        String::from_str("true")
    } else {
        String::from_str("false")
    }
}

// ----- fixed to exponential notation -----

/// Number of leading `0` bytes of `f` from index `i` on.
pub open spec fn zeros_from(f: Seq<u8>, i: int) -> int
    decreases f.len() - i,
{
    if i < 0 || i >= f.len() || f[i] != 48 {
        0
    } else {
        1 + zeros_from(f, i + 1)
    }
}

/// `d` without trailing `0` bytes, keeping at least one byte.
pub open spec fn trim_trailing_zeros(d: Seq<u8>) -> Seq<u8>
    decreases d.len(),
{
    if d.len() > 1 && d.last() == 48 {
        trim_trailing_zeros(d.drop_last())
    } else {
        d
    }
}

/// Length of the sign of a fixed spelling: one for a leading `-`.
pub open spec fn sign_len(b: Seq<u8>) -> int {
    if b.len() > 0 && b[0] == 45 { 1 } else { 0 }
}

/// The significant digits of a fixed spelling `[-]int[.frac]`, and the
/// decimal exponent of the first of them. For a zero integer part the
/// digits start at the first non-zero fraction digit.
pub open spec fn significand(b: Seq<u8>) -> (Seq<u8>, int) {
    let m = b.subrange(sign_len(b), b.len() as int);
    let dot = dot_index(m, 0);
    let integer = m.subrange(0, dot);
    let fraction = if dot < m.len() { m.subrange(dot + 1, m.len() as int) } else { Seq::empty() };
    if integer == seq![48u8] {
        let first = zeros_from(fraction, 0);
        (fraction.subrange(first, fraction.len() as int), -(first + 1))
    } else {
        (integer + fraction, integer.len() - 1)
    }
}

/// The exponential spelling of a fixed spelling: sign, first significant
/// digit, `.` and the remaining digits when there are any (trailing
/// zeros dropped), `e`, and the exponent with an explicit `+` when it is
/// not negative. A spelling without significant digits is kept as is.
pub open spec fn exponential_spelling(b: Seq<u8>) -> Seq<u8> {
    let (digits, exponent) = significand(b);
    let t = trim_trailing_zeros(digits);
    if t.len() == 0 {
        b
    } else {
        b.subrange(0, sign_len(b)) + seq![t[0]] + (if t.len() > 1 {
            seq![46u8] + t.subrange(1, t.len() as int)
        } else {
            Seq::empty()
        }) + seq![101u8] + (if exponent >= 0 { seq![43u8] } else { Seq::empty() })
            + signed_decimal(exponent)
    }
}

/// `trim_trailing_zeros` keeps a prefix.
proof fn lemma_trim_prefix(d: Seq<u8>)
    ensures
        trim_trailing_zeros(d).len() <= d.len(),
        d.len() > 0 ==> trim_trailing_zeros(d).len() > 0,
        trim_trailing_zeros(d) =~= d.subrange(0, trim_trailing_zeros(d).len() as int),
    decreases d.len(),
{
    if d.len() > 1 && d.last() == 48 {
        lemma_trim_prefix(d.drop_last());
    }
}

/// Counting zeros from `i` finds the first non-zero byte.
proof fn lemma_zeros_from(f: Seq<u8>, i: int)
    requires
        0 <= i <= f.len(),
    ensures
        0 <= zeros_from(f, i) <= f.len() - i,
        forall|q: int| i <= q < i + zeros_from(f, i) ==> #[trigger] f[q] == 48,
        i + zeros_from(f, i) < f.len() ==> f[i + zeros_from(f, i)] != 48,
    decreases f.len() - i,
{
    if i < f.len() && f[i] == 48 {
        lemma_zeros_from(f, i + 1);
    }
}

/// The significant digits of the fixed spelling `b` and the exponent of
/// the first one.
fn significant_digits(b: &[u8]) -> (r: (Vec<u8>, i32))
    requires
        b@.len() < 0x7fff_ffff,
        is_ascii_bytes(b@),
    ensures
        (r.0@, r.1 as int) == significand(b@),
        is_ascii_bytes(r.0@),
{
    let ghost bs = b@;
    let n = b.len();
    let start: usize = if n > 0 && b[0] == 45 { 1 } else { 0 };
    let ghost m = bs.subrange(start as int, n as int);
    let mut dot = start;
    while dot < n && b[dot] != 46
        invariant
            start <= dot <= n,
            n == b@.len(),
            bs == b@,
            m == bs.subrange(start as int, n as int),
            dot_index(m, 0) == dot_index(m, dot - start),
        decreases n - dot,
    {
        dot = dot + 1;
    }
    let frac_start: usize = if dot < n { dot + 1 } else { n };
    let ghost integer = m.subrange(0, dot - start);
    let ghost fraction = if dot < n { m.subrange(dot - start + 1, m.len() as int) } else { Seq::<u8>::empty() };
    proof {
        assert(integer =~= bs.subrange(start as int, dot as int));
        assert(fraction =~= bs.subrange(frac_start as int, n as int));
    }
    let mut digits: Vec<u8> = Vec::new();
    if dot == start + 1 && b[start] == 48 {
        proof {
            assert(integer =~= seq![48u8]);
        }
        let mut first = frac_start;
        while first < n && b[first] == 48
            invariant
                frac_start <= first <= n,
                n == b@.len(),
                bs == b@,
                forall|q: int| frac_start <= q < first ==> #[trigger] bs[q] == 48,
            decreases n - first,
        {
            first = first + 1;
        }
        proof {
            lemma_zeros_from(fraction, 0);
            let z = zeros_from(fraction, 0);
            assert forall|q: int| 0 <= q < first - frac_start implies #[trigger] fraction[q] == 48 by {
                assert(fraction[q] == bs[q + frac_start]);
            }
            if z < first - frac_start {
                assert(fraction[z] == 48);
            }
            if first - frac_start < z {
                assert(fraction[first - frac_start] == bs[first as int]);
            }
            assert(z == first - frac_start);
        }
        let mut k = first;
        while k < n
            invariant
                first <= k <= n,
                n == b@.len(),
                bs == b@,
                digits@ =~= bs.subrange(first as int, k as int),
            decreases n - k,
        {
            digits.push(b[k]);
            k = k + 1;
        }
        proof {
            assert(fraction.subrange(first - frac_start, fraction.len() as int) =~= bs.subrange(first as int, n as int));
            assert forall|i: int| 0 <= i < digits@.len() implies #[trigger] digits@[i] < 128 by {
                assert(digits@[i] == bs[i + first]);
            }
        }
        (digits, -((first - frac_start) as i32 + 1))
    } else {
        proof {
            if integer == seq![48u8] {
                assert(integer.len() == 1);
                assert(integer[0] == bs[start as int]);
            }
        }
        let mut k = start;
        while k < n
            invariant
                start <= k <= n,
                start <= dot <= n,
                frac_start == if dot < n { (dot + 1) as usize } else { n },
                n == b@.len(),
                bs == b@,
                digits@ =~= bs.subrange(start as int, if k <= dot { k as int } else { dot as int }) + (if k <= frac_start { Seq::<u8>::empty() } else { bs.subrange(frac_start as int, k as int) }),
                is_ascii_bytes(bs),
                is_ascii_bytes(digits@),
            decreases n - k,
        {
            if k != dot {
                proof {
                    assert(bs[k as int] < 128);
                }
                digits.push(b[k]);
            }
            k = k + 1;
        }
        proof {
            assert(digits@ =~= integer + fraction);
        }
        (digits, (dot - start) as i32 - 1)
    }
}

/// Length of `digits` without its trailing zeros (keeping one byte).
fn trimmed_len(digits: &Vec<u8>) -> (len: usize)
    ensures
        len <= digits@.len(),
        digits@.len() > 0 ==> len > 0,
        digits@.subrange(0, len as int) == trim_trailing_zeros(digits@),
{
    proof {
        lemma_trim_prefix(digits@);
        assert(digits@.subrange(0, digits@.len() as int) =~= digits@);
    }
    let mut len = digits.len();
    while len > 1 && digits[len - 1] == 48
        invariant
            len <= digits@.len(),
            trim_trailing_zeros(digits@.subrange(0, len as int)) == trim_trailing_zeros(digits@),
        decreases len,
    {
        proof {
            assert(digits@.subrange(0, len as int).drop_last() =~= digits@.subrange(0, len - 1));
        }
        len = len - 1;
    }
    len
}

/// Moves the digits of a fixed decimal spelling (`[-]int[.frac]`, as
/// std prints a float) into exponential notation: `1e+21`,
/// `9.999999999999997e-7`.
pub fn fixed_to_exponential(fixed: &str) -> (r: String)
    requires
        vstd::string::is_ascii(fixed),
        fixed@.len() < 0x7fff_ffff,
    ensures
        r@ == ascii_chars(exponential_spelling(fixed.spec_bytes())),
{
    proof {
        vstd::string::is_ascii_spec_bytes(fixed);
    }
    let b = fixed.as_bytes();
    let ghost bs = b@;
    assert(is_ascii_bytes(bs)) by {
        assert forall|i: int| 0 <= i < bs.len() implies #[trigger] bs[i] < 128 by {
            assert(bs[i] == fixed@[i] as u8);
        }
    }
    let n = b.len();
    let (digits, exponent) = significant_digits(b);
    let len = trimmed_len(&digits);
    let ghost t = trim_trailing_zeros(digits@);
    let mut out: Vec<u8> = Vec::new();
    if len == 0 {
        let mut k: usize = 0;
        while k < n
            invariant
                k <= n,
                n == b@.len(),
                out@ =~= b@.subrange(0, k as int),
            decreases n - k,
        {
            out.push(b[k]);
            k = k + 1;
        }
        proof {
            assert(out@ =~= exponential_spelling(bs));
        }
        return ascii_string(out);
    }
    let start: usize = if n > 0 && b[0] == 45 { 1 } else { 0 };
    if start == 1 {
        out.push(45u8);
    }
    out.push(digits[0]);
    if len > 1 {
        out.push(46u8);
        let mut k: usize = 1;
        while k < len
            invariant
                1 <= k <= len <= digits@.len(),
                out@ =~= bs.subrange(0, start as int) + seq![digits@[0]] + seq![46u8] + digits@.subrange(1, k as int),
            decreases len - k,
        {
            out.push(digits[k]);
            k = k + 1;
        }
    }
    out.push(101u8);
    if exponent >= 0 {
        out.push(43u8);
        push_decimal(&mut out, exponent as u64);
    } else {
        out.push(45u8);
        push_decimal(&mut out, (-(exponent as i64)) as u64);
    }
    proof {
        assert(t[0] == digits@[0]);
        if len > 1 {
            assert(t.subrange(1, t.len() as int) =~= digits@.subrange(1, len as int));
        }
        assert(out@ =~= exponential_spelling(bs));
        lemma_decimal_digits_ascii(if exponent < 0 { (-exponent) as nat } else { exponent as nat });
        assert(is_ascii_bytes(out@)) by {
            assert forall|i: int| 0 <= i < out@.len() implies #[trigger] out@[i] < 128 by {
                if start as int <= i < start + len + (if len > 1 { 1int } else { 0 }) {
                    if i == start {
                        assert(out@[i] == digits@[0]);
                    } else if i > start + 1 {
                        assert(out@[i] == digits@[i - start - 1]);
                    }
                } else if i >= start + len + (if len > 1 { 1int } else { 0 }) + 2 {
                    let e = if exponent < 0 { (-exponent) as nat } else { exponent as nat };
                    assert(out@[i] == decimal_digits(e)[i - (start + len + (if len > 1 { 1int } else { 0 }) + 2)]);
                }
            }
        }
    }
    ascii_string(out)
}

} // verus!

//! Exact integers from JSON decimal text: the conversion never passes
//! through a binary float.
use vstd::prelude::*;

use super::{NUMBER_I16, NUMBER_I32, NUMBER_I64, NUMBER_I8, NUMBER_U16, NUMBER_U32, NUMBER_U64, NUMBER_U8};
use crate::text::{
    digits_value, is_digits, lemma_digits_value_bound, lemma_digits_value_lower,
    lemma_digits_value_split, lemma_digits_value_zero, lemma_pow10_adds, lemma_pow10_grows, pow10,
};

verus! {


/// The value of an exponent spelling (`+`/`-`, then at least one
/// digit), saturated to `±i64::MAX`; `None` for any other spelling.
pub open spec fn saturated_exponent(bytes: Seq<u8>) -> Option<int> {
    if bytes.len() == 0 {
        None
    } else {
        let neg = bytes[0] == 45;
        let d = if bytes[0] == 43 || bytes[0] == 45 { bytes.subrange(1, bytes.len() as int) } else { bytes };
        if d.len() == 0 || !is_digits(d) {
            None
        } else {
            let v = if digits_value(d) > i64::MAX { i64::MAX as int } else { digits_value(d) };
            Some(if neg { -v } else { v })
        }
    }
}

/// Parses an exponent spelling, saturating its magnitude at `i64::MAX`.
pub fn decimal_exponent(bytes: &[u8]) -> (r: Option<i64>)
    ensures
        r matches Some(v) ==> saturated_exponent(bytes@) == Some(v as int),
        r is None ==> saturated_exponent(bytes@) is None,
{
    if bytes.len() == 0 {
        return None;
    }
    let negative = bytes[0] == 45;
    let start: usize = if bytes[0] == 43 || bytes[0] == 45 { 1 } else { 0 };
    let ghost d = bytes@.subrange(start as int, bytes@.len() as int);
    proof {
        if start == 0 {
            assert(d =~= bytes@);
        }
    }
    if start == bytes.len() {
        proof {
            assert(d.len() == 0);
            assert(d == if bytes@[0] == 43 || bytes@[0] == 45 {
                bytes@.subrange(1, bytes@.len() as int)
            } else {
                bytes@
            });
        }
        return None;
    }
    let mut magnitude: i64 = 0;
    let mut i = start;
    while i < bytes.len()
        invariant
            start <= i <= bytes@.len(),
            bytes@.len() > 0,
            d == bytes@.subrange(start as int, bytes@.len() as int),
            d == if bytes@[0] == 43 || bytes@[0] == 45 {
                bytes@.subrange(1, bytes@.len() as int)
            } else {
                bytes@
            },
            negative == (bytes@[0] == 45),
            is_digits(bytes@.subrange(start as int, i as int)),
            0 <= digits_value(bytes@.subrange(start as int, i as int)),
            magnitude == if digits_value(bytes@.subrange(start as int, i as int)) > i64::MAX {
                i64::MAX as int
            } else {
                digits_value(bytes@.subrange(start as int, i as int))
            },
        decreases bytes@.len() - i,
    {
        let digit = bytes[i];
        if !(48 <= digit && digit <= 57) {
            proof {
                assert(d[i - start] == digit);
                assert(!is_digits(d));
            }
            return None;
        }
        let ghost prefix = bytes@.subrange(start as int, i as int);
        let ghost next = bytes@.subrange(start as int, i + 1);
        proof {
            assert(next.drop_last() =~= prefix);
            assert(is_digits(next)) by {
                assert forall|k: int| 0 <= k < next.len() implies 48 <= #[trigger] next[k] <= 57 by {
                    if k < prefix.len() {
                        assert(next[k] == prefix[k]);
                    }
                }
            }
        }
        let add = (digit - 48) as i64;
        magnitude = if magnitude > (i64::MAX - add) / 10 {
            i64::MAX
        } else {
            magnitude * 10 + add
        };
        i = i + 1;
    }
    proof {
        assert(bytes@.subrange(start as int, bytes@.len() as int) =~= d);
    }
    Some(if negative { -magnitude } else { magnitude })
}

/// First index at or after `i` holding `e` or `E` (the length when none).
pub open spec fn exponent_marker(s: Seq<u8>, i: int) -> int
    decreases s.len() - i,
{
    if i >= s.len() || i < 0 {
        s.len() as int
    } else if s[i] == 101 || s[i] == 69 {
        i
    } else {
        exponent_marker(s, i + 1)
    }
}

/// First index at or after `i` holding `.` (the length when none).
pub open spec fn dot_index(m: Seq<u8>, i: int) -> int
    decreases m.len() - i,
{
    if i >= m.len() || i < 0 {
        m.len() as int
    } else if m[i] == 46 {
        i
    } else {
        dot_index(m, i + 1)
    }
}

/// `m` without its `.` bytes.
pub open spec fn without_dots(m: Seq<u8>) -> Seq<u8>
    decreases m.len(),
{
    if m.len() == 0 {
        m
    } else if m.last() == 46 {
        without_dots(m.drop_last())
    } else {
        without_dots(m.drop_last()).push(m.last())
    }
}

/// Start of the mantissa: after a leading `-`.
pub open spec fn mantissa_start(s: Seq<u8>) -> int {
    if s.len() > 0 && s[0] == 45 { 1 } else { 0 }
}

/// The mantissa bytes: from after the sign up to the exponent marker.
pub open spec fn mantissa_of(s: Seq<u8>) -> Seq<u8> {
    s.subrange(mantissa_start(s), exponent_marker(s, mantissa_start(s)))
}

/// Every mantissa byte is a decimal digit or `.` (true of every JSON
/// number).
pub open spec fn mantissa_ok(s: Seq<u8>) -> bool {
    forall|k: int|
        0 <= k < mantissa_of(s).len() ==> (48 <= #[trigger] mantissa_of(s)[k] <= 57 || mantissa_of(
            s,
        )[k] == 46)
}

/// Number of mantissa digits after its first `.`.
pub open spec fn fraction_len_of(s: Seq<u8>) -> int {
    let m = mantissa_of(s);
    let p = dot_index(m, 0);
    if p < m.len() { m.len() - p - 1 } else { 0 }
}

/// `m * 10^shift` when that is an integer below `10^20`.
pub open spec fn scaled_integer(m: int, shift: int) -> Option<int> {
    if shift >= 0 {
        let v = m * pow10(shift as nat);
        if v < pow10(20) { Some(v) } else { None }
    } else {
        let p = pow10((-shift) as nat) as int;
        if m % p == 0 && m / p < pow10(20) { Some(m / p) } else { None }
    }
}

/// The exact integer a JSON decimal denotes, as sign and magnitude: the
/// mantissa digits times ten to the (saturated) exponent minus the
/// fraction length, when that is an integer below `10^20`. A zero
/// mantissa is zero whatever its exponent (keeping the sign of `-0`).
pub open spec fn exact_integer_of(s: Seq<u8>) -> Option<(bool, int)> {
    let neg = s.len() > 0 && s[0] == 45;
    let m = digits_value(without_dots(mantissa_of(s)));
    let ea = exponent_marker(s, mantissa_start(s));
    let e = if ea == s.len() { Some(0int) } else { saturated_exponent(s.subrange(ea + 1, s.len() as int)) };
    if m == 0 {
        Some((neg, 0int))
    } else {
        match e {
            None => None,
            Some(e) => {
                let f = if fraction_len_of(s) > i64::MAX { i64::MAX as int } else { fraction_len_of(s) };
                let shift = if e - f < i64::MIN { i64::MIN as int } else { e - f };
                match scaled_integer(m, shift) {
                    Some(v) => Some((neg, v)),
                    None => None,
                }
            },
        }
    }
}

/// `without_dots` of digits and dots is digits.
proof fn lemma_without_dots_digits(m: Seq<u8>)
    requires
        forall|k: int| 0 <= k < m.len() ==> (48 <= #[trigger] m[k] <= 57 || m[k] == 46),
    ensures
        is_digits(without_dots(m)),
    decreases m.len(),
{
    if m.len() > 0 {
        assert forall|k: int| 0 <= k < m.drop_last().len() implies (48 <= #[trigger] m.drop_last()[k] <= 57
            || m.drop_last()[k] == 46) by {
            assert(m.drop_last()[k] == m[k]);
        }
        lemma_without_dots_digits(m.drop_last());
        let w = without_dots(m.drop_last());
        if m.last() != 46 {
            assert forall|k: int| 0 <= k < w.push(m.last()).len() implies 48 <= #[trigger] w.push(m.last())[k] <= 57 by {
                if k < w.len() {
                    assert(w.push(m.last())[k] == w[k]);
                }
            }
        }
    }
}

/// Leading zeros do not change a digit string's value, and what remains
/// after them fixes its order of magnitude.
proof fn lemma_strip_leading_zeros(d: Seq<u8>, first: int)
    requires
        is_digits(d),
        0 <= first <= d.len(),
        forall|q: int| 0 <= q < first ==> #[trigger] d[q] == 48,
        first < d.len() ==> d[first] != 48,
    ensures
        digits_value(d) == digits_value(d.subrange(first, d.len() as int)),
        first == d.len() ==> digits_value(d) == 0,
        first < d.len() ==> pow10((d.len() - first - 1) as nat) <= digits_value(d) < pow10(
            (d.len() - first) as nat,
        ),
{
    let head = d.subrange(0, first);
    let tail = d.subrange(first, d.len() as int);
    lemma_digits_value_split(d, first);
    assert(is_digits(head) && is_digits(tail)) by {
        assert forall|q: int| 0 <= q < head.len() implies 48 <= #[trigger] head[q] <= 57 by {
            assert(head[q] == d[q]);
        }
        assert forall|q: int| 0 <= q < tail.len() implies 48 <= #[trigger] tail[q] <= 57 by {
            assert(tail[q] == d[q + first]);
        }
    }
    lemma_digits_value_zero(head);
    assert forall|q: int| 0 <= q < head.len() implies #[trigger] head[q] == 48 by {
        assert(head[q] == d[q]);
    }
    lemma_digits_value_bound(tail);
    if first < d.len() {
        assert(tail[0] == d[first]);
        lemma_digits_value_lower(tail);
    } else {
        assert(tail.len() == 0);
    }
}

/// A prefix of a digit string is worth no more than the whole.
proof fn lemma_digits_prefix_le(d: Seq<u8>, i: int)
    requires
        is_digits(d),
        0 <= i <= d.len(),
    ensures
        0 <= digits_value(d.subrange(0, i)) <= digits_value(d),
{
    lemma_digits_value_split(d, i);
    let head = d.subrange(0, i);
    let tail = d.subrange(i, d.len() as int);
    assert(is_digits(head) && is_digits(tail)) by {
        assert forall|q: int| 0 <= q < head.len() implies 48 <= #[trigger] head[q] <= 57 by {
            assert(head[q] == d[q]);
        }
        assert forall|q: int| 0 <= q < tail.len() implies 48 <= #[trigger] tail[q] <= 57 by {
            assert(tail[q] == d[q + i]);
        }
    }
    lemma_digits_value_bound(head);
    lemma_digits_value_bound(tail);
    lemma_pow10_grows(0, (d.len() - i) as nat);
    let a = digits_value(head);
    let p = pow10((d.len() - i) as nat) as int;
    assert(a <= a * p) by (nonlinear_arith)
        requires
            a >= 0,
            p >= 1,
    ;
}

/// Returns the sign and magnitude of an exact integral JSON decimal:
/// `None` when the decimal is not an integer or its magnitude reaches
/// `10^20` (no accepted target is wider than `u64`).
pub fn exact_integer(text: &[u8]) -> (r: Option<(bool, u128)>)
    requires
        mantissa_ok(text@),
    ensures
        match r {
            Some((neg, v)) => exact_integer_of(text@) == Some((neg, v as int)),
            None => exact_integer_of(text@) is None,
        },
{
    let ghost s = text@;
    let negative = text.len() > 0 && text[0] == 45;
    let start: usize = if negative { 1 } else { 0 };
    assert(start == mantissa_start(s));
    // The exponent marker.
    let mut exponent_at = start;
    while exponent_at < text.len() && !(text[exponent_at] == 101 || text[exponent_at] == 69)
        invariant
            start <= exponent_at <= text@.len(),
            exponent_marker(s, start as int) == exponent_marker(s, exponent_at as int),
            s == text@,
        decreases text@.len() - exponent_at,
    {
        exponent_at = exponent_at + 1;
    }
    let ghost m = s.subrange(start as int, exponent_at as int);
    assert(m == mantissa_of(s));
    // The first decimal point of the mantissa.
    let mut decimal_at = start;
    while decimal_at < exponent_at && text[decimal_at] != 46
        invariant
            start <= decimal_at <= exponent_at,
            exponent_at <= text@.len(),
            m == s.subrange(start as int, exponent_at as int),
            dot_index(m, 0) == dot_index(m, decimal_at - start),
            s == text@,
        decreases exponent_at - decimal_at,
    {
        decimal_at = decimal_at + 1;
    }
    let fraction_len: usize = if decimal_at < exponent_at { exponent_at - decimal_at - 1 } else { 0 };
    assert(fraction_len == fraction_len_of(s));
    // The mantissa digits.
    let mut digits: Vec<u8> = Vec::new();
    let mut k = start;
    while k < exponent_at
        invariant
            start <= k <= exponent_at,
            exponent_at <= text@.len(),
            m == s.subrange(start as int, exponent_at as int),
            digits@ == without_dots(m.subrange(0, k - start)),
            s == text@,
        decreases exponent_at - k,
    {
        proof {
            assert(m.subrange(0, k + 1 - start).drop_last() =~= m.subrange(0, k - start));
        }
        if text[k] != 46 {
            digits.push(text[k]);
        }
        k = k + 1;
    }
    proof {
        assert(m.subrange(0, m.len() as int) =~= m);
        lemma_without_dots_digits(m);
        lemma_digits_value_zero(digits@);
    }
    let mut all_zero = true;
    let mut z: usize = 0;
    while z < digits.len()
        invariant
            z <= digits@.len(),
            all_zero == forall|q: int| 0 <= q < z ==> #[trigger] digits@[q] == 48,
        decreases digits@.len() - z,
    {
        if digits[z] != 48 {
            all_zero = false;
        }
        z = z + 1;
    }
    if all_zero {
        return Some((negative, 0));
    }
    let exponent: i64 = if exponent_at == text.len() {
        0
    } else {
        match decimal_exponent(&text[exponent_at + 1..text.len()]) {
            Some(e) => e,
            None => {
                proof {
                    assert(text@.subrange(exponent_at + 1, text@.len() as int) == s.subrange(exponent_at + 1, s.len() as int));
                    assert(digits@ == without_dots(mantissa_of(s)));
                }
                return None;
            },
        }
    };
    let fl: i64 = if fraction_len as u64 > i64::MAX as u64 { i64::MAX } else { fraction_len as i64 };
    let shift: i64 = if exponent < i64::MIN + fl { i64::MIN } else { exponent - fl };
    proof {
        assert(digits@ == without_dots(mantissa_of(s)));
        assert(exponent_at == exponent_marker(s, mantissa_start(s)));
        if exponent_at < text.len() {
            assert(text@.subrange(exponent_at + 1, text@.len() as int) == s.subrange(exponent_at + 1, s.len() as int));
        }
    }
    proof {
        lemma_digits_value_bound(digits@);
        if digits_value(digits@) == 0 {
            assert(forall|q: int| 0 <= q < digits@.len() ==> #[trigger] digits@[q] == 48);
        }
    }
    match scaled_magnitude(&digits, shift) {
        Some(v) => Some((negative, v)),
        None => None,
    }
}

/// True when the last `remove` digits are all zero, that is when
/// `10^remove` divides the value.
fn zero_tail(digits: &Vec<u8>, remove: usize) -> (r: bool)
    requires
        is_digits(digits@),
        remove <= digits@.len(),
    ensures
        r == (digits_value(digits@) % (pow10(remove as nat) as int) == 0),
        r ==> digits_value(digits@.subrange(0, digits@.len() - remove)) == digits_value(digits@) / (
        pow10(remove as nat) as int),
{
    let ghost d = digits@;
    let n = digits.len();
    let keep = n - remove;
    let ghost tail = d.subrange(keep as int, n as int);
    let ghost head = digits_value(d.subrange(0, keep as int));
    proof {
        lemma_digits_value_split(d, keep as int);
        assert(is_digits(tail)) by {
            assert forall|q: int| 0 <= q < tail.len() implies 48 <= #[trigger] tail[q] <= 57 by {
                assert(tail[q] == d[q + keep]);
            }
        }
        assert(is_digits(d.subrange(0, keep as int))) by {
            assert forall|q: int| 0 <= q < keep implies 48 <= #[trigger] d.subrange(0, keep as int)[q] <= 57 by {
                assert(d.subrange(0, keep as int)[q] == d[q]);
            }
        }
        lemma_digits_value_zero(tail);
        lemma_digits_value_bound(tail);
        lemma_digits_value_bound(d.subrange(0, keep as int));
        lemma_pow10_grows(0, remove as nat);
        vstd::arithmetic::div_mod::lemma_fundamental_div_mod_converse(
            digits_value(d),
            pow10(remove as nat) as int,
            head,
            digits_value(tail),
        );
    }
    let mut t = keep;
    while t < n
        invariant
            keep <= t <= n,
            n == digits@.len(),
            d == digits@,
            tail == d.subrange(keep as int, n as int),
            digits_value(d) % (pow10(remove as nat) as int) == digits_value(tail),
            digits_value(tail) == 0 <==> forall|q: int| 0 <= q < tail.len() ==> #[trigger] tail[q] == 48,
            forall|q: int| keep <= q < t ==> #[trigger] digits@[q] == 48,
        decreases n - t,
    {
        if digits[t] != 48 {
            proof {
                assert(tail[t - keep] != 48);
            }
            return false;
        }
        t = t + 1;
    }
    proof {
        assert forall|q: int| 0 <= q < tail.len() implies #[trigger] tail[q] == 48 by {
            assert(tail[q] == d[q + keep]);
        }
    }
    true
}

/// A value of `count` significant digits scaled by `10^scale` stays
/// below `10^20` exactly when `count + scale <= 20`.
proof fn lemma_scaled_digits_bound(base: int, count: nat, scale: nat)
    requires
        count >= 1,
        pow10((count - 1) as nat) <= base < pow10(count),
    ensures
        count + scale > 20 ==> base * pow10(scale) >= pow10(20),
        count + scale <= 20 ==> base * pow10(scale) < pow10(20),
{
    lemma_pow10_adds((count - 1) as nat, scale);
    lemma_pow10_adds(count, scale);
    lemma_pow10_grows(0, scale);
    let lo = pow10((count - 1) as nat) as int;
    let hi = pow10(count) as int;
    let p = pow10(scale) as int;
    assert(lo * p <= base * p < hi * p) by (nonlinear_arith)
        requires
            lo <= base < hi,
            p >= 1,
    ;
    if count + scale > 20 {
        lemma_pow10_grows(20, (count - 1 + scale) as nat);
    } else {
        lemma_pow10_grows((count + scale) as nat, 20);
    }
}

/// The value of a digit string below `10^20`, folded into a `u128`.
fn fold_digits(digits: &Vec<u8>, from: usize, to: usize) -> (r: u128)
    requires
        from <= to <= digits@.len(),
        is_digits(digits@.subrange(from as int, to as int)),
        digits_value(digits@.subrange(from as int, to as int)) < 100_000_000_000_000_000_000,
    ensures
        r == digits_value(digits@.subrange(from as int, to as int)),
{
    let ghost r = digits@.subrange(from as int, to as int);
    let mut magnitude: u128 = 0;
    let mut i = from;
    while i < to
        invariant
            from <= i <= to <= digits@.len(),
            r == digits@.subrange(from as int, to as int),
            is_digits(r),
            digits_value(r) < 100_000_000_000_000_000_000,
            magnitude == digits_value(r.subrange(0, i - from)),
        decreases to - i,
    {
        proof {
            assert(r.subrange(0, i + 1 - from).drop_last() =~= r.subrange(0, i - from));
            assert(r[i - from] == digits@[i as int]);
            lemma_digits_prefix_le(r, i + 1 - from);
        }
        magnitude = magnitude * 10 + (digits[i] - 48) as u128;
        i = i + 1;
    }
    proof {
        assert(r.subrange(0, to - from) =~= r);
    }
    magnitude
}

/// `10^20`, the bound below which a magnitude is carried.
proof fn lemma_pow10_twenty()
    ensures
        pow10(20) == 100_000_000_000_000_000_000,
{
    reveal_with_fuel(pow10, 21);
}

/// The index of the first non-zero digit among the first `keep` digits
/// (`keep` when they are all zero).
fn skip_leading_zeros(digits: &Vec<u8>, keep: usize) -> (first: usize)
    requires
        keep <= digits@.len(),
    ensures
        first <= keep,
        forall|q: int| 0 <= q < first ==> #[trigger] digits@[q] == 48,
        first < keep ==> digits@[first as int] != 48,
{
    let mut first: usize = 0;
    while first < keep && digits[first] == 48
        invariant
            first <= keep <= digits@.len(),
            forall|q: int| 0 <= q < first ==> #[trigger] digits@[q] == 48,
        decreases keep - first,
    {
        first = first + 1;
    }
    first
}

/// `magnitude * 10^append`, given that the product stays below `10^20`.
fn scale_by_pow10(magnitude: u128, append: u64, base: Ghost<int>) -> (r: u128)
    requires
        magnitude == base@,
        base@ > 0,
        base@ * pow10(append as nat) < 100_000_000_000_000_000_000,
    ensures
        r == base@ * pow10(append as nat),
{
    let ghost b = base@;
    let mut m = magnitude;
    let mut j: u64 = 0;
    proof {
        assert(pow10(0) == 1);
    }
    while j < append
        invariant
            j <= append,
            m == b * pow10(j as nat),
            b * pow10(append as nat) < 100_000_000_000_000_000_000,
            b > 0,
        decreases append - j,
    {
        proof {
            lemma_pow10_grows((j + 1) as nat, append as nat);
            assert(b * pow10((j + 1) as nat) <= b * pow10(append as nat)) by (nonlinear_arith)
                requires
                    b > 0,
                    pow10((j + 1) as nat) <= pow10(append as nat),
            ;
            assert(b * pow10((j + 1) as nat) == b * pow10(j as nat) * 10) by (nonlinear_arith)
                requires
                    pow10((j + 1) as nat) == 10 * pow10(j as nat),
            ;
        }
        m = m * 10;
        j = j + 1;
    }
    m
}

/// `value(digits[..keep]) * 10^append` when that is below `10^20`.
fn magnitude_of(digits: &Vec<u8>, keep: usize, append: u64) -> (r: Option<u128>)
    requires
        is_digits(digits@),
        keep <= digits@.len(),
        digits_value(digits@.subrange(0, keep as int)) > 0,
    ensures
        ({
            let v = digits_value(digits@.subrange(0, keep as int)) * pow10(append as nat);
            match r {
                Some(m) => v < pow10(20) && m == v,
                None => v >= pow10(20),
            }
        }),
{
    let ghost d = digits@;
    let ghost kept = d.subrange(0, keep as int);
    let ghost base = digits_value(kept);
    let first = skip_leading_zeros(digits, keep);
    proof {
        assert(is_digits(kept)) by {
            assert forall|q: int| 0 <= q < kept.len() implies 48 <= #[trigger] kept[q] <= 57 by {
                assert(kept[q] == d[q]);
            }
        }
        assert forall|q: int| 0 <= q < first implies #[trigger] kept[q] == 48 by {
            assert(kept[q] == d[q]);
        }
        if first < keep {
            assert(kept[first as int] == d[first as int]);
        }
        lemma_strip_leading_zeros(kept, first as int);
    }
    let count: u64 = (keep - first) as u64;
    proof {
        lemma_scaled_digits_bound(base, count as nat, append as nat);
    }
    if count > 20 || append > 20 - count {
        return None;
    }
    proof {
        lemma_pow10_twenty();
        lemma_pow10_grows(0, append as nat);
        assert(base <= base * pow10(append as nat)) by (nonlinear_arith)
            requires
                base >= 0,
                pow10(append as nat) >= 1,
        ;
        let r = kept.subrange(first as int, keep as int);
        assert(r =~= d.subrange(first as int, keep as int));
        assert(is_digits(r)) by {
            assert forall|q: int| 0 <= q < r.len() implies 48 <= #[trigger] r[q] <= 57 by {
                assert(r[q] == kept[q + first]);
            }
        }
    }
    let magnitude = fold_digits(digits, first, keep);
    Some(scale_by_pow10(magnitude, append, Ghost(base)))
}

/// `digits * 10^shift` when that is an integer below `10^20`.
fn scaled_magnitude(digits: &Vec<u8>, shift: i64) -> (r: Option<u128>)
    requires
        is_digits(digits@),
        digits_value(digits@) > 0,
    ensures
        match r {
            Some(v) => scaled_integer(digits_value(digits@), shift as int) == Some(v as int),
            None => scaled_integer(digits_value(digits@), shift as int) is None,
        },
{
    let ghost d = digits@;
    let ghost mv = digits_value(d);
    proof {
        lemma_digits_value_bound(d);
    }
    let n = digits.len();
    if shift >= 0 {
        proof {
            assert(d.subrange(0, n as int) =~= d);
        }
        return magnitude_of(digits, n, shift as u64);
    }
    let remove128: i128 = -(shift as i128);
    if remove128 >= n as i128 {
        proof {
            lemma_pow10_grows(n as nat, remove128 as nat);
            vstd::arithmetic::div_mod::lemma_small_mod(mv as nat, pow10(remove128 as nat));
        }
        return None;
    }
    let remove = remove128 as usize;
    if !zero_tail(digits, remove) {
        return None;
    }
    proof {
        let p = pow10(remove as nat) as int;
        lemma_pow10_grows(0, remove as nat);
        assert(mv / p > 0) by {
            vstd::arithmetic::div_mod::lemma_fundamental_div_mod(mv, p);
            assert(mv == p * (mv / p));
            if mv / p <= 0 {
                assert(p * (mv / p) <= 0) by (nonlinear_arith)
                    requires
                        p >= 1,
                        mv / p <= 0,
                ;
            }
        }
        assert(pow10(0) == 1);
    }
    magnitude_of(digits, n - remove, 0)
}

/// The range of an integer target tag: whether it is signed, its
/// largest value, and the magnitude of its smallest value.
pub open spec fn target_range(target: u32) -> Option<(bool, int, int)> {
    if target == NUMBER_I8 {
        Some((true, 0x7f, 0x80))
    } else if target == NUMBER_U8 {
        Some((false, 0xff, 0))
    } else if target == NUMBER_I16 {
        Some((true, 0x7fff, 0x8000))
    } else if target == NUMBER_U16 {
        Some((false, 0xffff, 0))
    } else if target == NUMBER_I32 {
        Some((true, 0x7fff_ffff, 0x8000_0000))
    } else if target == NUMBER_U32 {
        Some((false, 0xffff_ffff, 0))
    } else if target == NUMBER_I64 {
        Some((true, 0x7fff_ffff_ffff_ffff, 0x8000_0000_0000_0000))
    } else if target == NUMBER_U64 {
        Some((false, 0xffff_ffff_ffff_ffff, 0))
    } else {
        None
    }
}

/// The integer a JSON decimal denotes at an integer target, as the
/// target's two's-complement bits widened to 64: `None` when the
/// decimal is not an exact integer, the tag names no integer target, or
/// the value is out of the target's range. `-0` is `0` at every target.
pub open spec fn integer_of(s: Seq<u8>, target: u32) -> Option<u64> {
    match exact_integer_of(s) {
        None => None,
        Some((neg, m)) => match target_range(target) {
            None => None,
            Some((signed, positive_max, negative_max)) => if neg && m != 0 {
                if !signed || m > negative_max {
                    None
                } else {
                    Some((0x1_0000_0000_0000_0000 - m) as u64)
                }
            } else if m <= positive_max {
                Some(m as u64)
            } else {
                None
            },
        },
    }
}

/// Converts a JSON decimal to one exact integer target without passing
/// through a binary float: a fractional or exponential spelling is
/// accepted only when its exact value is integral and in range. Signed
/// results are returned as their two's-complement bits.
pub fn integer_value(text: &[u8], target: u32) -> (r: Option<u64>)
    requires
        mantissa_ok(text@),
    ensures
        r == integer_of(text@, target),
{
    let (negative, magnitude) = match exact_integer(text) {
        Some(pair) => pair,
        None => return None,
    };
    let (signed, positive_max, negative_max): (bool, u128, u128) = if target == NUMBER_I8 {
        (true, 0x7f, 0x80)
    } else if target == NUMBER_U8 {
        (false, 0xff, 0)
    } else if target == NUMBER_I16 {
        (true, 0x7fff, 0x8000)
    } else if target == NUMBER_U16 {
        (false, 0xffff, 0)
    } else if target == NUMBER_I32 {
        (true, 0x7fff_ffff, 0x8000_0000)
    } else if target == NUMBER_U32 {
        (false, 0xffff_ffff, 0)
    } else if target == NUMBER_I64 {
        (true, 0x7fff_ffff_ffff_ffff, 0x8000_0000_0000_0000)
    } else if target == NUMBER_U64 {
        (false, 0xffff_ffff_ffff_ffff, 0)
    } else {
        return None;
    };
    if negative && magnitude != 0 {
        if !signed || magnitude > negative_max {
            return None;
        }
        let m = magnitude as u64;
        Some(u64::MAX - (m - 1))
    } else if magnitude <= positive_max {
        Some(magnitude as u64)
    } else {
        None
    }
}

/// The exact integer reading `e` is a value in `[lo, hi]`.
pub open spec fn value_within(e: Option<(bool, int)>, lo: int, hi: int) -> bool {
    e matches Some((neg, m)) && lo <= signed_value(neg, m) <= hi
}

/// The 64-bit two's-complement bits of `v`.
pub open spec fn bits_of(v: int) -> u64 {
    (if v < 0 { v + 0x1_0000_0000_0000_0000 } else { v }) as u64
}

/// The signed value an exact-integer reading denotes.
pub open spec fn signed_value(neg: bool, m: int) -> int {
    if neg { -m } else { m }
}

/// An integer target accepts a decimal exactly when its exact integer
/// value lies in the target type's range, and then gives that value's
/// two's-complement bits: 8, 16, 32 or 64 bits, signed or unsigned.
pub proof fn lemma_integer_targets(s: Seq<u8>)
    requires
        mantissa_ok(s),
    ensures
        ({
            let e = exact_integer_of(s);
            &&& (integer_of(s, NUMBER_I8) is Some <==> value_within(e, -128, 127))
            &&& (integer_of(s, NUMBER_U8) is Some <==> value_within(e, 0, 255))
            &&& (integer_of(s, NUMBER_I16) is Some <==> value_within(e, -32768, 32767))
            &&& (integer_of(s, NUMBER_U16) is Some <==> value_within(e, 0, 65535))
            &&& (integer_of(s, NUMBER_I32) is Some <==> value_within(e, -2147483648, 2147483647))
            &&& (integer_of(s, NUMBER_U32) is Some <==> value_within(e, 0, 4294967295))
            &&& (integer_of(s, NUMBER_I64) is Some <==> value_within(e, 
                -9223372036854775808,
                9223372036854775807,
            ))
            &&& (integer_of(s, NUMBER_U64) is Some <==> value_within(e, 0, 18446744073709551615))
            &&& forall|t: u32|
                #![trigger integer_of(s, t)]
                integer_of(s, t) matches Some(b) ==> e matches Some((neg, m)) && b == bits_of(
                    signed_value(neg, m),
                )
        }),
{
    lemma_magnitude_nonnegative(s);
}

/// The exact-integer reading of a JSON number is a sign and a
/// non-negative magnitude.
proof fn lemma_magnitude_nonnegative(s: Seq<u8>)
    requires
        mantissa_ok(s),
    ensures
        exact_integer_of(s) matches Some((_, m)) ==> m >= 0,
{
    let mt = mantissa_of(s);
    assert forall|k: int| 0 <= k < mt.len() implies (48 <= #[trigger] mt[k] <= 57 || mt[k] == 46) by {}
    lemma_without_dots_digits(mt);
    crate::text::lemma_digits_value_bound(without_dots(mt));
    let m = digits_value(without_dots(mt));
    assert forall|shift: int| (#[trigger] scaled_integer(m, shift)) is Some implies scaled_integer(m, shift).unwrap() >= 0 by {
        if shift >= 0 {
            crate::text::lemma_pow10_pos(shift as nat);
            let p = pow10(shift as nat);
            assert(m * p >= 0) by (nonlinear_arith)
                requires
                    m >= 0,
                    p > 0,
            ;
        } else {
            crate::text::lemma_pow10_pos((-shift) as nat);
            let p = pow10((-shift) as nat) as int;
            assert(m / p >= 0) by (nonlinear_arith)
                requires
                    m >= 0,
                    p > 0,
            ;
        }
    }
}

} // verus!

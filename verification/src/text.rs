//! Byte-level text helpers shared by the formatting modules: decimal
//! digits, zero padding, and ASCII byte buffers turned into `String`s.
use vstd::prelude::*;
use vstd::utf8::*;

verus! {

/// True when every byte is ASCII.
pub open spec fn is_ascii_bytes(bytes: Seq<u8>) -> bool {
    forall|i: int| 0 <= i < bytes.len() ==> #[trigger] bytes[i] < 128
}

/// The characters of an ASCII byte sequence.
pub open spec fn ascii_chars(bytes: Seq<u8>) -> Seq<char> {
    bytes.map_values(|b: u8| b as char)
}

/// ASCII code of the decimal digit `d` (`0 <= d < 10`).
pub open spec fn digit_byte(d: int) -> u8 {
    (d + 48) as u8
}

/// Decimal digits of `n`, most significant first, without leading zeros
/// (`"0"` for zero).
pub open spec fn decimal_digits(n: nat) -> Seq<u8>
    decreases n,
{
    if n < 10 {
        seq![digit_byte(n as int)]
    } else {
        decimal_digits(n / 10).push(digit_byte((n % 10) as int))
    }
}

/// Decimal spelling of the integer `v`: a `-` before the digits of a
/// negative value.
pub open spec fn signed_decimal(v: int) -> Seq<u8> {
    if v < 0 {
        seq![45u8] + decimal_digits((-v) as nat)
    } else {
        decimal_digits(v as nat)
    }
}

/// Decimal digits of `n` left-padded with `0` to at least `width` bytes.
pub open spec fn zero_padded(n: nat, width: nat) -> Seq<u8> {
    let digits = decimal_digits(n);
    let pad: int = if digits.len() < width { width - digits.len() } else { 0 };
    Seq::new(pad as nat, |i: int| 48u8) + digits
}

/// Decimal digits are ASCII digits and never empty.
pub proof fn lemma_decimal_digits_ascii(n: nat)
    ensures
        decimal_digits(n).len() >= 1,
        forall|i: int|
            0 <= i < decimal_digits(n).len() ==> 48 <= #[trigger] decimal_digits(n)[i] <= 57,
    decreases n,
{
    if n >= 10 {
        lemma_decimal_digits_ascii(n / 10);
    }
}

/// Zero-padded decimal digits are ASCII digits.
pub proof fn lemma_zero_padded_ascii(n: nat, width: nat)
    ensures
        forall|i: int|
            0 <= i < zero_padded(n, width).len() ==> 48 <= #[trigger] zero_padded(n, width)[i] <= 57,
{
    lemma_decimal_digits_ascii(n);
    let digits = decimal_digits(n);
    let pad: int = if digits.len() < width { width - digits.len() } else { 0 };
    let zeros = Seq::new(pad as nat, |i: int| 48u8);
    assert forall|i: int| 0 <= i < zero_padded(n, width).len() implies 48 <= #[trigger] zero_padded(n, width)[i] <= 57 by {
        if i < pad {
            assert(zero_padded(n, width)[i] == zeros[i]);
        } else {
            assert(zero_padded(n, width)[i] == digits[i - pad]);
        }
    }
}

/// The number of decimal digits grows with the value.
pub proof fn lemma_decimal_digits_len(n: nat, k: nat)
    requires
        n < k,
        k == 10 || k == 100 || k == 1000 || k == 10000,
    ensures
        decimal_digits(n).len() <= if k == 10 {
            1int
        } else if k == 100 {
            2int
        } else if k == 1000 {
            3int
        } else {
            4int
        },
    decreases n,
{
    if n >= 10 {
        lemma_decimal_digits_len(n / 10, k / 10);
    }
}

/// True when every byte is an ASCII decimal digit.
pub open spec fn is_digits(d: Seq<u8>) -> bool {
    forall|i: int| 0 <= i < d.len() ==> 48 <= #[trigger] d[i] <= 57
}

/// The value of a string of decimal digits, most significant first (zero
/// for the empty string).
pub open spec fn digits_value(d: Seq<u8>) -> int
    decreases d.len(),
{
    if d.len() == 0 {
        0
    } else {
        digits_value(d.drop_last()) * 10 + (d.last() as int - 48)
    }
}

/// `10^(a + b) == 10^a * 10^b`.
pub proof fn lemma_pow10_adds(a: nat, b: nat)
    ensures
        pow10(a + b) == pow10(a) * pow10(b),
    decreases b,
{
    if b == 0 {
        assert(pow10(0) == 1);
        assert(a + b == a);
    } else {
        lemma_pow10_adds(a, (b - 1) as nat);
        let x = pow10(a) as int;
        let y = pow10((b - 1) as nat) as int;
        assert(pow10(b) == 10 * y);
        assert((a + b - 1) as nat == a + (b - 1) as nat);
        assert(pow10(a + b) == 10 * pow10((a + b - 1) as nat));
        assert(pow10((a + b - 1) as nat) == x * y);
        assert(x * (10 * y) == 10 * (x * y)) by (nonlinear_arith);
    }
}

/// Powers of ten are positive.
pub proof fn lemma_pow10_pos(a: nat)
    ensures
        1 <= pow10(a),
    decreases a,
{
    if a > 0 {
        lemma_pow10_pos((a - 1) as nat);
    }
}

/// Powers of ten grow with the exponent.
pub proof fn lemma_pow10_grows(a: nat, b: nat)
    requires
        a <= b,
    ensures
        1 <= pow10(a) <= pow10(b),
    decreases b,
{
    lemma_pow10_pos(a);
    if b > a {
        lemma_pow10_grows(a, (b - 1) as nat);
    }
}

/// Splitting a digit string at `k` splits its value.
pub proof fn lemma_digits_value_split(d: Seq<u8>, k: int)
    requires
        0 <= k <= d.len(),
    ensures
        digits_value(d) == digits_value(d.subrange(0, k)) * pow10((d.len() - k) as nat) + digits_value(
            d.subrange(k, d.len() as int),
        ),
    decreases d.len(),
{
    if k == d.len() {
        assert(d.subrange(0, k) =~= d);
        assert(d.subrange(k, d.len() as int) =~= Seq::<u8>::empty());
        assert(pow10(0) == 1);
        assert(digits_value(d.subrange(0, k)) * pow10(0) == digits_value(d));
    } else {
        let e = d.drop_last();
        lemma_digits_value_split(e, k);
        assert(e.subrange(0, k) =~= d.subrange(0, k));
        let t = d.subrange(k, d.len() as int);
        assert(t.drop_last() =~= e.subrange(k, e.len() as int));
        assert(t.last() == d.last());
        let a = digits_value(d.subrange(0, k)) as int;
        let p = pow10((e.len() - k) as nat) as int;
        let b = digits_value(e.subrange(k, e.len() as int)) as int;
        let l = d.last() as int - 48;
        assert(digits_value(e) == a * p + b);
        assert(digits_value(d) == digits_value(e) * 10 + l);
        assert(digits_value(t) == b * 10 + l);
        assert(((d.len() - k) as nat) == ((e.len() - k) as nat) + 1);
        assert(pow10((d.len() - k) as nat) == 10 * p);
        assert((a * p + b) * 10 + l == a * (10 * p) + (b * 10 + l)) by (nonlinear_arith);
        assert(digits_value(d) == a * pow10((d.len() - k) as nat) + digits_value(t));
    }
}

/// A string of `n` digits has a value below `10^n`.
pub proof fn lemma_digits_value_bound(d: Seq<u8>)
    requires
        is_digits(d),
    ensures
        0 <= digits_value(d) < pow10(d.len()),
    decreases d.len(),
{
    if d.len() > 0 {
        assert(is_digits(d.drop_last())) by {
            assert forall|i: int| 0 <= i < d.drop_last().len() implies 48 <= #[trigger] d.drop_last()[i] <= 57 by {
                assert(d.drop_last()[i] == d[i]);
            }
        }
        lemma_digits_value_bound(d.drop_last());
        assert(48 <= d.last() <= 57);
    }
}

/// A digit string is worth zero exactly when every digit is `0`.
pub proof fn lemma_digits_value_zero(d: Seq<u8>)
    requires
        is_digits(d),
    ensures
        digits_value(d) == 0 <==> forall|i: int| 0 <= i < d.len() ==> #[trigger] d[i] == 48,
    decreases d.len(),
{
    if d.len() > 0 {
        lemma_digits_value_zero(d.drop_last());
        if digits_value(d) == 0 {
            assert forall|i: int| 0 <= i < d.len() implies #[trigger] d[i] == 48 by {
                if i < d.len() - 1 {
                    assert(d.drop_last()[i] == d[i]);
                }
            }
        }
        if forall|i: int| 0 <= i < d.len() ==> #[trigger] d[i] == 48 {
            assert forall|i: int| 0 <= i < d.drop_last().len() implies #[trigger] d.drop_last()[i] == 48 by {
                assert(d.drop_last()[i] == d[i]);
            }
        }
    }
}

/// A digit string without a leading zero is worth at least `10^(n-1)`.
pub proof fn lemma_digits_value_lower(d: Seq<u8>)
    requires
        is_digits(d),
        d.len() >= 1,
        d[0] != 48,
    ensures
        pow10((d.len() - 1) as nat) <= digits_value(d),
    decreases d.len(),
{
    if d.len() > 1 {
        assert(d.drop_last()[0] == d[0]);
        assert(is_digits(d.drop_last())) by {
            assert forall|i: int| 0 <= i < d.drop_last().len() implies 48 <= #[trigger] d.drop_last()[i] <= 57 by {
                assert(d.drop_last()[i] == d[i]);
            }
        }
        lemma_digits_value_lower(d.drop_last());
        lemma_digits_value_bound(d.drop_last());
        assert(pow10((d.len() - 1) as nat) == 10 * pow10((d.len() - 2) as nat));
        assert(48 <= d.last() <= 57);
        assert(digits_value(d) == digits_value(d.drop_last()) * 10 + (d.last() as int - 48));
    } else {
        assert(d.drop_last() =~= Seq::<u8>::empty());
        assert(digits_value(d.drop_last()) == 0);
        assert(d.last() == d[0]);
        assert(pow10(0) == 1);
        assert(48 <= d[0] <= 57);
    }
}

/// Builds a `String` from bytes with std's `String::from_utf8`. Taken on
/// trust from its documentation, not proved: it succeeds exactly when the
/// bytes are well-formed UTF-8, and the string's characters are then the
/// bytes decoded.
#[verifier::external_body]
pub(crate) fn string_from_utf8(bytes: Vec<u8>) -> (r: Option<String>)
    ensures
        r is Some <==> valid_utf8(bytes@),
        r matches Some(s) ==> s@ == decode_utf8(bytes@),
{
    String::from_utf8(bytes).ok()
}

/// ASCII bytes decode to the characters with the same codes.
pub proof fn lemma_ascii_decode(bytes: Seq<u8>)
    requires
        is_ascii_bytes(bytes),
    ensures
        valid_utf8(bytes),
        decode_utf8(bytes) == ascii_chars(bytes),
{
    let chars = ascii_chars(bytes);
    assert(is_ascii_chars(chars)) by {
        assert forall|i: int| 0 <= i < chars.len() implies '\0' <= #[trigger] chars[i] <= '\u{7f}' by {
            assert(bytes[i] < 128);
        }
    }
    is_ascii_chars_encode_utf8(chars);
    assert forall|i: int| 0 <= i < bytes.len() implies #[trigger] encode_utf8(chars)[i] == bytes[i] by {
        assert(chars[i] as u8 == encode_utf8(chars)[i]);
        assert(bytes[i] < 128);
    }
    assert(encode_utf8(chars) =~= bytes);
    encode_utf8_valid_utf8(chars);
    encode_utf8_decode_utf8(chars);
}

/// The `String` holding the ASCII bytes `bytes`.
pub fn ascii_string(bytes: Vec<u8>) -> (s: String)
    requires
        is_ascii_bytes(bytes@),
    ensures
        s@ == ascii_chars(bytes@),
{
    proof {
        lemma_ascii_decode(bytes@);
    }
    match string_from_utf8(bytes) {
        Some(s) => s,
        None => String::new(),
    }
}

/// Appends the decimal digits of `n`.
pub fn push_decimal(out: &mut Vec<u8>, n: u64)
    ensures
        final(out)@ == old(out)@ + decimal_digits(n as nat),
    decreases n,
{
    if n >= 10 {
        push_decimal(out, n / 10);
    }
    out.push(((n % 10) as u8) + 48);
    proof {
        assert(final(out)@ =~= old(out)@ + decimal_digits(n as nat));
    }
}

/// `10^k`.
pub open spec fn pow10(k: nat) -> nat
    decreases k,
{
    if k == 0 { 1 } else { 10 * pow10((k - 1) as nat) }
}

/// The decimal digits of `n` are worth `n`, and only zero starts with
/// the digit `0`.
pub proof fn lemma_decimal_digits_value(n: nat)
    ensures
        is_digits(decimal_digits(n)),
        digits_value(decimal_digits(n)) == n,
        n >= 1 ==> decimal_digits(n)[0] != 48,
        n == 0 ==> decimal_digits(n) == seq![48u8],
    decreases n,
{
    lemma_decimal_digits_ascii(n);
    if n >= 10 {
        lemma_decimal_digits_value(n / 10);
        let d = decimal_digits(n);
        assert(d.drop_last() == decimal_digits(n / 10));
        assert(d[0] == decimal_digits(n / 10)[0]);
        assert(d.last() == digit_byte((n % 10) as int));
        assert(d.last() as int - 48 == n % 10);
        assert(digits_value(d) == digits_value(d.drop_last()) * 10 + (d.last() as int - 48));
        assert((n / 10) * 10 + n % 10 == n);
    } else {
        let d = decimal_digits(n);
        assert(d.drop_last() =~= Seq::<u8>::empty());
        assert(d.last() == digit_byte(n as int));
        assert(d.last() as int - 48 == n);
        assert(digits_value(d.drop_last()) == 0);
    }
}

/// A value below `10^k` has at most `k` decimal digits.
pub proof fn lemma_decimal_digits_bound(n: nat, k: nat)
    requires
        k >= 1,
        n < pow10(k),
    ensures
        decimal_digits(n).len() <= k,
    decreases k,
{
    reveal_with_fuel(pow10, 2);
    if n >= 10 {
        assert(k >= 2);
        lemma_decimal_digits_bound(n / 10, (k - 1) as nat);
    }
}

/// Every `u64` has at most 20 decimal digits.
pub proof fn lemma_u64_decimal_len(n: u64)
    ensures
        decimal_digits(n as nat).len() <= 20,
{
    reveal_with_fuel(pow10, 21);
    lemma_decimal_digits_bound(n as nat, 20);
}

/// Number of decimal digits of `n`.
fn decimal_len(n: u64) -> (r: usize)
    ensures
        r == decimal_digits(n as nat).len(),
    decreases n,
{
    proof {
        lemma_u64_decimal_len(n);
    }
    if n >= 10 {
        decimal_len(n / 10) + 1
    } else {
        1
    }
}

/// Appends the decimal digits of `n`, left-padded with `0` to `width`.
pub fn push_padded_decimal(out: &mut Vec<u8>, n: u64, width: usize)
    ensures
        final(out)@ == old(out)@ + zero_padded(n as nat, width as nat),
{
    let len = decimal_len(n);
    let ghost start = out@;
    let mut i = len;
    while i < width
        invariant
            len <= i <= width || (i == len && width < len),
            out@ =~= start + Seq::new((i - len) as nat, |k: int| 48u8),
        decreases width - i,
    {
        out.push(48u8);
        i = i + 1;
        proof {
            assert(out@ =~= start + Seq::new((i - len) as nat, |k: int| 48u8));
        }
    }
    push_decimal(out, n);
    proof {
        assert(final(out)@ =~= old(out)@ + zero_padded(n as nat, width as nat));
    }
}

/// Whether two byte strings are equal.
pub fn bytes_equal(a: &[u8], b: &[u8]) -> (r: bool)
    ensures
        r == (a@ == b@),
{
    if a.len() != b.len() {
        return false;
    }
    let mut k: usize = 0;
    while k < a.len()
        invariant
            k <= a@.len(),
            a@.len() == b@.len(),
            forall|q: int| 0 <= q < k ==> a@[q] == b@[q],
        decreases a@.len() - k,
    {
        if a[k] != b[k] {
            return false;
        }
        k = k + 1;
    }
    proof {
        assert(a@ =~= b@);
    }
    true
}

} // verus!

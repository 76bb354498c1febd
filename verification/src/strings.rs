//! Byte-level string operations of the language: strings are UTF-8 byte
//! sequences, indexed by byte offset; an index inside a multi-byte
//! character is refused rather than split. `slice` follows the JS
//! negative and clamping rules on byte offsets.
use vstd::prelude::*;
use vstd::utf8::*;

use crate::arrops::{clamp_index, clamped_index};

verus! {

/// `i` is a character boundary of `b`: its start, its end, or the
/// position of a byte that does not continue a multi-byte character.
pub open spec fn is_boundary(b: Seq<u8>, i: int) -> bool {
    i == 0 || i == b.len() || (0 < i < b.len() && !is_continuation_byte(b[i]))
}

/// Why a string operation refused its index.
#[derive(Debug, Clone, Copy, PartialEq, Eq)]
pub enum StringError {
    /// The index is outside the string.
    OutOfRange,
    /// The index falls inside a multi-byte character.
    OffBoundary,
}

/// Whether `i` is a character boundary of `b`.
pub fn boundary(b: &[u8], i: usize) -> (r: bool)
    ensures
        r == is_boundary(b@, i as int),
{
    if i == 0 || i == b.len() {
        true
    } else if i < b.len() {
        !(0x80 <= b[i] && b[i] <= 0xbf)
    } else {
        false
    }
}

/// Within a valid encoding, the bytes after a scalar's first byte up to
/// its length continue it.
proof fn lemma_inside_scalar(b: Seq<u8>, i: int)
    requires
        valid_first_scalar(b),
        0 < i < length_of_first_scalar(b),
    ensures
        is_continuation_byte(b[i]),
{
}

/// A valid encoding split at a character boundary: the part after it is
/// valid, and so is the part before it.
proof fn lemma_split_valid(b: Seq<u8>, i: int)
    requires
        valid_utf8(b),
        0 <= i <= b.len(),
        is_boundary(b, i),
    ensures
        valid_utf8(b.subrange(i, b.len() as int)),
        valid_utf8(b.subrange(0, i)),
    decreases b.len(),
{
    if i == 0 {
        assert(b.subrange(0, b.len() as int) =~= b);
        assert(valid_utf8(b.subrange(0, 0))) by {
            assert(b.subrange(0, 0).len() == 0);
        }
    } else {
        let m = length_of_first_scalar(b);
        let rest = pop_first_scalar(b);
        assert(b.len() > 0);
        if i < m {
            lemma_inside_scalar(b, i);
            assert(false);
        }
        assert(rest =~= b.subrange(m, b.len() as int));
        assert(is_boundary(rest, i - m)) by {
            if i < b.len() {
                assert(rest[i - m] == b[i]);
            }
        }
        lemma_split_valid(rest, i - m);
        assert(rest.subrange(i - m, rest.len() as int) =~= b.subrange(i, b.len() as int));
        let pre = b.subrange(0, i);
        assert(pre.len() > 0);
        assert(valid_first_scalar(pre)) by {
            assert forall|j: int| 0 <= j < m implies pre[j] == b[j] by {}
        }
        assert(length_of_first_scalar(pre) == m);
        assert(pop_first_scalar(pre) =~= rest.subrange(0, i - m));
    }
}

/// Strings stay UTF-8 by construction: a slice between two character
/// boundaries of a valid encoding is a valid encoding.
pub proof fn lemma_slice_valid(b: Seq<u8>, lo: int, hi: int)
    requires
        valid_utf8(b),
        0 <= lo <= hi <= b.len(),
        is_boundary(b, lo),
        is_boundary(b, hi),
    ensures
        valid_utf8(b.subrange(lo, hi)),
{
    lemma_split_valid(b, lo);
    let suffix = b.subrange(lo, b.len() as int);
    assert(is_boundary(suffix, hi - lo)) by {
        if hi < b.len() && hi > lo {
            assert(suffix[hi - lo] == b[hi]);
        }
    }
    lemma_split_valid(suffix, hi - lo);
    assert(suffix.subrange(0, hi - lo) =~= b.subrange(lo, hi));
}

/// Strings stay UTF-8 by construction: the concatenation of two valid
/// encodings is a valid encoding.
pub proof fn lemma_concat_valid(a: Seq<u8>, b: Seq<u8>)
    requires
        valid_utf8(a),
        valid_utf8(b),
    ensures
        valid_utf8(a + b),
    decreases a.len(),
{
    if a.len() == 0 {
        assert(a + b =~= b);
    } else {
        let m = length_of_first_scalar(a);
        let ab = a + b;
        assert forall|j: int| 0 <= j < a.len() implies ab[j] == a[j] by {}
        assert(valid_first_scalar(ab));
        assert(length_of_first_scalar(ab) == m);
        lemma_concat_valid(pop_first_scalar(a), b);
        assert(pop_first_scalar(ab) =~= pop_first_scalar(a) + b);
    }
}

/// Copies `b[from..to]`.
fn copy_range(b: &[u8], from: usize, to: usize) -> (r: Vec<u8>)
    requires
        from <= to <= b@.len(),
    ensures
        r@ == b@.subrange(from as int, to as int),
{
    let mut out: Vec<u8> = Vec::new();
    let mut i = from;
    while i < to
        invariant
            from <= i <= to <= b@.len(),
            out@ == b@.subrange(from as int, i as int),
        decreases to - i,
    {
        out.push(b[i]);
        i = i + 1;
        proof {
            assert(out@ =~= b@.subrange(from as int, i as int));
        }
    }
    out
}

/// `a + b`: the bytes of `a` then those of `b`; `None` when the length
/// is not representable.
pub fn str_concat(a: &[u8], b: &[u8]) -> (r: Option<Vec<u8>>)
    ensures
        r is None <==> a@.len() + b@.len() > usize::MAX,
        r matches Some(v) ==> v@ == a@ + b@,
{
    if a.len() > usize::MAX - b.len() {
        return None;
    }
    let mut out = copy_range(a, 0, a.len());
    let tail = copy_range(b, 0, b.len());
    let mut tail = tail;
    out.append(&mut tail);
    proof {
        assert(a@.subrange(0, a@.len() as int) =~= a@);
        assert(b@.subrange(0, b@.len() as int) =~= b@);
    }
    Some(out)
}

/// `slice(start, end)` on byte offsets: each index is made relative (a
/// negative one counts from the end) and clamped to the string; a
/// reversed pair gives the empty string. Refused when either normalized
/// index falls inside a character.
pub fn slice(b: &[u8], start: i32, end: i32) -> (r: Result<Vec<u8>, StringError>)
    requires
        valid_utf8(b@),
    ensures
        ({
            let lo = clamped_index(start as int, b@.len() as int);
            let e = clamped_index(end as int, b@.len() as int);
            let hi = if e < lo { lo } else { e };
            &&& r is Err <==> !(is_boundary(b@, lo) && is_boundary(b@, e))
            &&& r matches Err(x) ==> x == StringError::OffBoundary
            &&& r matches Ok(v) ==> v@ == b@.subrange(lo, hi) && valid_utf8(v@)
        }),
{
    let n = b.len();
    let lo = clamp_index(start, n);
    let e = clamp_index(end, n);
    let hi = if e < lo { lo } else { e };
    if !boundary(b, lo) || !boundary(b, e) {
        return Err(StringError::OffBoundary);
    }
    let out = copy_range(b, lo, hi);
    proof {
        lemma_slice_valid(b@, lo as int, hi as int);
    }
    Ok(out)
}

/// `charCodeAt(i)`: the byte at offset `i`; `None` (a range error) when
/// `i` is outside the string.
pub fn char_code_at(b: &[u8], i: i32) -> (r: Option<i32>)
    ensures
        r == if 0 <= i < b@.len() { Some(b@[i as int] as i32) } else { None::<i32> },
{
    if i < 0 {
        return None;
    }
    let i = i as usize;
    if i < b.len() {
        Some(b[i] as i32)
    } else {
        None
    }
}

/// The encoded length of the character whose first byte is `lead`.
fn lead_width(lead: u8) -> (r: usize)
    ensures
        is_leading_byte_width_1(lead) ==> r == 1,
        is_leading_byte_width_2(lead) ==> r == 2,
        is_leading_byte_width_3(lead) ==> r == 3,
        is_leading_byte_width_4(lead) ==> r == 4,
{
    if lead < 0x80 {
        1
    } else if lead < 0xe0 {
        2
    } else if lead < 0xf0 {
        3
    } else {
        4
    }
}

/// The part of `b` from `i` on.
pub open spec fn from_offset(b: Seq<u8>, i: int) -> Seq<u8> {
    b.subrange(i, b.len() as int)
}

/// `charAt(i)`: the bytes of the character starting at offset `i`; the
/// empty string when `i` is outside the string. Refused when `i` falls
/// inside a character.
pub fn char_at(b: &[u8], i: i32) -> (r: Result<Vec<u8>, StringError>)
    requires
        valid_utf8(b@),
    ensures
        !(0 <= i < b@.len()) ==> (r matches Ok(v) && v@.len() == 0),
        0 <= i < b@.len() && !is_boundary(b@, i as int) ==> r == Err::<Vec<u8>, StringError>(
            StringError::OffBoundary,
        ),
        0 <= i < b@.len() && is_boundary(b@, i as int) ==> (r matches Ok(v) && v@
            == take_first_scalar(from_offset(b@, i as int))),
{
    if i < 0 || i as usize >= b.len() {
        return Ok(Vec::new());
    }
    let at = i as usize;
    if !boundary(b, at) {
        return Err(StringError::OffBoundary);
    }
    proof {
        lemma_split_valid(b@, at as int);
        assert(from_offset(b@, at as int)[0] == b@[at as int]);
    }
    let w = lead_width(b[at]);
    let out = copy_range(b, at, at + w);
    proof {
        assert(out@ =~= take_first_scalar(from_offset(b@, at as int)));
    }
    Ok(out)
}

/// The code point of a well-formed encoding's first character.
fn decode_at(b: &[u8], at: usize) -> (r: u32)
    requires
        at < b@.len(),
        valid_first_scalar(from_offset(b@, at as int)),
    ensures
        r == decode_first_scalar(from_offset(b@, at as int)),
{
    let ghost s = from_offset(b@, at as int);
    let b0 = b[at];
    proof {
        assert(s[0] == b0);
    }
    if b0 < 0x80 {
        let r = (b0 & 0x7f) as u32;
        assert(r == codepoint_width_1(b0)) by (bit_vector)
            requires
                r == (b0 & 0x7f) as u32,
        ;
        r
    } else if b0 < 0xe0 {
        let b1 = b[at + 1];
        proof {
            assert(s[1] == b1);
        }
        let r = (((b0 & 0x1f) as u32) << 6) | ((b1 & 0x3f) as u32);
        assert(r == codepoint_width_2(b0, b1)) by (bit_vector)
            requires
                r == (((b0 & 0x1f) as u32) << 6) | ((b1 & 0x3f) as u32),
        ;
        r
    } else if b0 < 0xf0 {
        let b1 = b[at + 1];
        let b2 = b[at + 2];
        proof {
            assert(s[1] == b1 && s[2] == b2);
        }
        let r = (((b0 & 0x0f) as u32) << 12) | (((b1 & 0x3f) as u32) << 6) | ((b2 & 0x3f) as u32);
        assert(r == codepoint_width_3(b0, b1, b2)) by (bit_vector)
            requires
                r == (((b0 & 0x0f) as u32) << 12) | (((b1 & 0x3f) as u32) << 6) | ((b2 & 0x3f) as u32),
        ;
        r
    } else {
        let b1 = b[at + 1];
        let b2 = b[at + 2];
        let b3 = b[at + 3];
        proof {
            assert(s[1] == b1 && s[2] == b2 && s[3] == b3);
        }
        let r = (((b0 & 0x07) as u32) << 18) | (((b1 & 0x3f) as u32) << 12) | (((b2 & 0x3f) as u32)
            << 6) | ((b3 & 0x3f) as u32);
        assert(r == codepoint_width_4(b0, b1, b2, b3)) by (bit_vector)
            requires
                r == (((b0 & 0x07) as u32) << 18) | (((b1 & 0x3f) as u32) << 12) | (((b2 & 0x3f)
                    as u32) << 6) | ((b3 & 0x3f) as u32),
        ;
        r
    }
}

/// `codePointAt(i)`: the Unicode scalar value of the character starting
/// at offset `i`. Refused when `i` is outside the string or inside a
/// character.
pub fn code_point_at(b: &[u8], i: i32) -> (r: Result<u32, StringError>)
    requires
        valid_utf8(b@),
    ensures
        !(0 <= i < b@.len()) ==> r == Err::<u32, StringError>(StringError::OutOfRange),
        0 <= i < b@.len() && !is_boundary(b@, i as int) ==> r == Err::<u32, StringError>(
            StringError::OffBoundary,
        ),
        0 <= i < b@.len() && is_boundary(b@, i as int) ==> r == Ok::<u32, StringError>(
            decode_first_scalar(from_offset(b@, i as int)),
        ),
{
    if i < 0 || i as usize >= b.len() {
        return Err(StringError::OutOfRange);
    }
    let at = i as usize;
    if !boundary(b, at) {
        return Err(StringError::OffBoundary);
    }
    proof {
        lemma_split_valid(b@, at as int);
    }
    Ok(decode_at(b, at))
}

/// One step of `for…of` over a string's code points.
#[derive(Debug, Clone, Copy, PartialEq, Eq)]
pub enum CodePointStep {
    /// A negative index: nothing is read and no next index is written.
    Refused,
    /// The index is at or past the end: iteration stops there.
    End,
    /// The code point read and the byte index after it.
    Next(u32, i32),
}

/// The replacement character read where a character is broken.
pub const REPLACEMENT_CHARACTER: u32 = 0xfffd;

/// `for…of` over a string reads the code point starting at byte `index`
/// and moves past its encoding. An index inside a character reads one
/// replacement character and moves one byte on. The next index
/// saturates at `i32::MAX`.
pub fn iter_code_point(b: &[u8], index: i32) -> (r: CodePointStep)
    requires
        valid_utf8(b@),
    ensures
        index < 0 ==> r == CodePointStep::Refused,
        0 <= index && index >= b@.len() ==> r == CodePointStep::End,
        0 <= index < b@.len() && is_boundary(b@, index as int) ==> r == CodePointStep::Next(
            decode_first_scalar(from_offset(b@, index as int)),
            if index + length_of_first_scalar(from_offset(b@, index as int)) > i32::MAX {
                i32::MAX
            } else {
                (index + length_of_first_scalar(from_offset(b@, index as int))) as i32
            },
        ),
        0 <= index < b@.len() && !is_boundary(b@, index as int) ==> r == CodePointStep::Next(
            REPLACEMENT_CHARACTER,
            if index == i32::MAX {
                i32::MAX
            } else {
                (index + 1) as i32
            },
        ),
{
    if index < 0 {
        return CodePointStep::Refused;
    }
    let at = index as usize;
    if at >= b.len() {
        return CodePointStep::End;
    }
    if !boundary(b, at) {
        let next = if index == i32::MAX { i32::MAX } else { index + 1 };
        return CodePointStep::Next(REPLACEMENT_CHARACTER, next);
    }
    proof {
        lemma_split_valid(b@, at as int);
        assert(from_offset(b@, at as int)[0] == b@[at as int]);
    }
    let scalar = decode_at(b, at);
    let width = lead_width(b[at]) as i32;
    let next = if index > i32::MAX - width { i32::MAX } else { index + width };
    CodePointStep::Next(scalar, next)
}

} // verus!

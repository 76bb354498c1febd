//! The value-level `Array` operations: the equality searches, `slice`,
//! `fill`, `reverse`, `concat` and `join` over an array of fixed-width
//! elements.
//!
//! An element is held as its bytes: the little-endian bytes of a number,
//! or the content of a string element.
use vstd::prelude::*;

use super::{abi_class, abi_of, clamp_index, clamped_index, ElemKind, FmtKind};
use crate::assocops::table::{le_bits, read_bits};
use crate::assocops::{is_nan_bits32, is_nan_bits64};
use crate::half::{binary64_from_binary16, f64_bits_from_f16};
use crate::text::{bytes_equal, decimal_digits, push_decimal, signed_decimal};

verus! {

/// IEEE binary64 `==` on raw bits: a NaN equals nothing, the two zeros
/// are equal, every other value equals only itself.
pub open spec fn ieee_eq64(a: u64, b: u64) -> bool {
    &&& !is_nan_bits64(a)
    &&& !is_nan_bits64(b)
    &&& (a == b || (a & 0x7fff_ffff_ffff_ffff == 0 && b & 0x7fff_ffff_ffff_ffff == 0))
}

/// IEEE binary32 `==` on raw bits.
pub open spec fn ieee_eq32(a: u32, b: u32) -> bool {
    &&& !is_nan_bits32(a)
    &&& !is_nan_bits32(b)
    &&& (a == b || (a & 0x7fff_ffff == 0 && b & 0x7fff_ffff == 0))
}

/// Strict (`===`) equality of two elements of `kind`: bitwise for
/// integers, IEEE for floats (binary16 compared after widening to
/// binary64), content for strings.
pub open spec fn elem_equal(kind: ElemKind, a: Seq<u8>, b: Seq<u8>) -> bool {
    match kind {
        ElemKind::F32 => ieee_eq32(le_bits(a, 4) as u32, le_bits(b, 4) as u32),
        ElemKind::F64 => ieee_eq64(le_bits(a, 8), le_bits(b, 8)),
        ElemKind::F16 => ieee_eq64(
            binary64_from_binary16(le_bits(a, 2) as u16 as int) as u64,
            binary64_from_binary16(le_bits(b, 2) as u16 as int) as u64,
        ),
        _ => a == b,
    }
}

fn eq64(a: u64, b: u64) -> (r: bool)
    ensures
        r == ieee_eq64(a, b),
{
    let a_nan = a & 0x7ff0_0000_0000_0000 == 0x7ff0_0000_0000_0000 && a & 0x000f_ffff_ffff_ffff
        != 0;
    let b_nan = b & 0x7ff0_0000_0000_0000 == 0x7ff0_0000_0000_0000 && b & 0x000f_ffff_ffff_ffff
        != 0;
    !a_nan && !b_nan && (a == b || (a & 0x7fff_ffff_ffff_ffff == 0 && b & 0x7fff_ffff_ffff_ffff
        == 0))
}

fn eq32(a: u32, b: u32) -> (r: bool)
    ensures
        r == ieee_eq32(a, b),
{
    let a_nan = a & 0x7f80_0000 == 0x7f80_0000 && a & 0x007f_ffff != 0;
    let b_nan = b & 0x7f80_0000 == 0x7f80_0000 && b & 0x007f_ffff != 0;
    !a_nan && !b_nan && (a == b || (a & 0x7fff_ffff == 0 && b & 0x7fff_ffff == 0))
}

/// Whether `b` holds the bytes an element of `kind` is read from: the
/// element width for numbers, any content for strings.
pub open spec fn fits(kind: ElemKind, width: nat, b: Seq<u8>) -> bool {
    kind != ElemKind::Str ==> b.len() == width
}

/// `===` equality of the elements `a` and `b`.
fn elem_eq(kind: ElemKind, width: usize, a: &[u8], b: &[u8]) -> (r: bool)
    requires
        abi_class(kind, width) is Some,
        fits(kind, width as nat, a@),
        fits(kind, width as nat, b@),
    ensures
        r == elem_equal(kind, a@, b@),
{
    match kind {
        ElemKind::F32 => {
            let x = read_bits(a, 4);
            let y = read_bits(b, 4);
            eq32(x as u32, y as u32)
        },
        ElemKind::F64 => eq64(read_bits(a, 8), read_bits(b, 8)),
        ElemKind::F16 => eq64(
            f64_bits_from_f16(read_bits(a, 2) as u16),
            f64_bits_from_f16(read_bits(b, 2) as u16),
        ),
        _ => bytes_equal(a, b),
    }
}

/// An array of elements that each occupy `elem_size` bytes in the
/// array's storage.
pub struct ElemArray {
    elem_size: usize,
    items: Vec<Vec<u8>>,
}

impl View for ElemArray {
    type V = Seq<Seq<u8>>;

    closed spec fn view(&self) -> Seq<Seq<u8>> {
        self.items@.map_values(|v: Vec<u8>| v@)
    }
}

impl ElemArray {
    /// The storage width of one element, in bytes.
    pub closed spec fn width(&self) -> nat {
        self.elem_size as nat
    }

    /// Whether every element of the array fits `kind`.
    pub open spec fn all_fit(&self, kind: ElemKind) -> bool {
        forall|i: int| 0 <= i < self@.len() ==> fits(kind, self.width(), #[trigger] self@[i])
    }

    /// An empty array of `elem_size`-byte elements.
    pub fn new(elem_size: usize) -> (r: ElemArray)
        ensures
            r@ == Seq::<Seq<u8>>::empty(),
            r.width() == elem_size,
    {
        ElemArray { elem_size, items: Vec::new() }
    }

    /// The storage width of one element, in bytes.
    pub fn elem_size(&self) -> (r: usize)
        ensures
            r == self.width(),
    {
        self.elem_size
    }

    /// Number of elements.
    pub fn len(&self) -> (r: usize)
        ensures
            r == self@.len(),
    {
        self.items.len()
    }

    /// The bytes of element `i`.
    pub fn get(&self, i: usize) -> (r: &[u8])
        requires
            i < self@.len(),
        ensures
            r@ == self@[i as int],
    {
        self.items[i].as_slice()
    }

    /// Appends an element.
    pub fn push(&mut self, x: &[u8])
        ensures
            final(self)@ == old(self)@.push(x@),
            final(self).width() == old(self).width(),
    {
        let v = vstd::slice::slice_to_vec(x);
        self.items.push(v);
        proof {
            assert(final(self)@ =~= old(self)@.push(x@));
        }
    }
}

/// `i` is the index of the first element of `items` equal to `x`, or −1
/// when none is.
pub open spec fn first_match(kind: ElemKind, items: Seq<Seq<u8>>, x: Seq<u8>, i: int) -> bool {
    if i < 0 {
        &&& i == -1
        &&& forall|j: int| 0 <= j < items.len() ==> !elem_equal(kind, #[trigger] items[j], x)
    } else {
        &&& i < items.len()
        &&& elem_equal(kind, items[i], x)
        &&& forall|j: int| 0 <= j < i ==> !elem_equal(kind, #[trigger] items[j], x)
    }
}

/// `i` is the index of the last element of `items` equal to `x`, or −1
/// when none is.
pub open spec fn last_match(kind: ElemKind, items: Seq<Seq<u8>>, x: Seq<u8>, i: int) -> bool {
    if i < 0 {
        &&& i == -1
        &&& forall|j: int| 0 <= j < items.len() ==> !elem_equal(kind, #[trigger] items[j], x)
    } else {
        &&& i < items.len()
        &&& elem_equal(kind, items[i], x)
        &&& forall|j: int| i < j < items.len() ==> !elem_equal(kind, #[trigger] items[j], x)
    }
}

impl ElemArray {
    /// `indexOf(x)`: the first index whose element is `===` to `x`, or
    /// −1. `None` when `kind` at this element width has no ABI class (an
    /// element shape generated code never produces).
    pub fn index_of(&self, x: &[u8], kind: ElemKind) -> (r: Option<i32>)
        requires
            self@.len() <= i32::MAX,
            self.all_fit(kind),
            fits(kind, self.width(), x@),
        ensures
            r is None <==> abi_class(kind, self.width() as usize) is None,
            r matches Some(i) ==> first_match(kind, self@, x@, i as int),
    {
        if abi_of(kind, self.elem_size).is_none() {
            return None;
        }
        let n = self.items.len();
        let mut i: usize = 0;
        while i < n
            invariant
                n == self@.len() <= i32::MAX,
                i <= n,
                self.all_fit(kind),
                fits(kind, self.width(), x@),
                abi_class(kind, self.width() as usize) is Some,
                forall|j: int| 0 <= j < i ==> !elem_equal(kind, #[trigger] self@[j], x@),
            decreases n - i,
        {
            assert(fits(kind, self.width(), self@[i as int]));
            if elem_eq(kind, self.elem_size, self.items[i].as_slice(), x) {
                return Some(i as i32);
            }
            i = i + 1;
        }
        Some(-1)
    }

    /// `lastIndexOf(x)`: the last index whose element is `===` to `x`,
    /// or −1; `None` as for [`ElemArray::index_of`].
    pub fn last_index_of(&self, x: &[u8], kind: ElemKind) -> (r: Option<i32>)
        requires
            self@.len() <= i32::MAX,
            self.all_fit(kind),
            fits(kind, self.width(), x@),
        ensures
            r is None <==> abi_class(kind, self.width() as usize) is None,
            r matches Some(i) ==> last_match(kind, self@, x@, i as int),
    {
        if abi_of(kind, self.elem_size).is_none() {
            return None;
        }
        let mut i: usize = self.items.len();
        while i > 0
            invariant
                self@.len() <= i32::MAX,
                i <= self@.len(),
                self.all_fit(kind),
                fits(kind, self.width(), x@),
                abi_class(kind, self.width() as usize) is Some,
                forall|j: int| i <= j < self@.len() ==> !elem_equal(kind, #[trigger] self@[j], x@),
            decreases i,
        {
            i = i - 1;
            assert(fits(kind, self.width(), self@[i as int]));
            if elem_eq(kind, self.elem_size, self.items[i].as_slice(), x) {
                return Some(i as i32);
            }
        }
        Some(-1)
    }

    /// `includes(x)`: 1 when some element is `===` to `x` (so a NaN is
    /// never found), else 0; `None` as for [`ElemArray::index_of`].
    pub fn includes(&self, x: &[u8], kind: ElemKind) -> (r: Option<i32>)
        requires
            self@.len() <= i32::MAX,
            self.all_fit(kind),
            fits(kind, self.width(), x@),
        ensures
            r is None <==> abi_class(kind, self.width() as usize) is None,
            r matches Some(v) ==> (v == 1 <==> exists|j: int|
                0 <= j < self@.len() && elem_equal(kind, #[trigger] self@[j], x@)),
            r matches Some(v) ==> (v == 0 || v == 1),
    {
        match self.index_of(x, kind) {
            None => None,
            Some(i) => {
                if i >= 0 {
                    Some(1)
                } else {
                    Some(0)
                }
            },
        }
    }
}

/// The elements of `items` from `lo` up to `hi`, none when `hi <= lo`.
pub open spec fn range_of(items: Seq<Seq<u8>>, lo: int, hi: int) -> Seq<Seq<u8>> {
    if lo < hi {
        items.subrange(lo, hi)
    } else {
        Seq::empty()
    }
}

/// `items` with every element from `lo` up to `hi` replaced by `x`.
pub open spec fn filled(items: Seq<Seq<u8>>, x: Seq<u8>, lo: int, hi: int) -> Seq<Seq<u8>> {
    Seq::new(items.len(), |k: int| if lo <= k < hi { x } else { items[k] })
}

impl ElemArray {
    /// `slice(start, end)`: a fresh array of the elements in the clamped
    /// range (a negative index counts from the end); the receiver is
    /// unchanged.
    pub fn slice(&self, start: i32, end: i32) -> (r: ElemArray)
        ensures
            r.width() == self.width(),
            r@ == range_of(
                self@,
                clamped_index(start as int, self@.len() as int),
                clamped_index(end as int, self@.len() as int),
            ),
    {
        let n = self.items.len();
        let lo = clamp_index(start, n);
        let hi = clamp_index(end, n);
        let mut out = ElemArray::new(self.elem_size);
        if hi <= lo {
            proof {
                assert(out@ =~= range_of(self@, lo as int, hi as int));
            }
            return out;
        }
        let mut i = lo;
        while i < hi
            invariant
                lo <= i <= hi,
                hi <= n == self@.len(),
                out.width() == self.width(),
                out@.len() == i - lo,
                forall|k: int| 0 <= k < out@.len() ==> #[trigger] out@[k] == self@[lo + k],
            decreases hi - i,
        {
            proof {
                assert(self@[i as int] == self.items@[i as int]@);
            }
            out.push(self.items[i].as_slice());
            i = i + 1;
        }
        proof {
            assert(out@ =~= range_of(self@, lo as int, hi as int));
        }
        out
    }

    /// `fill(x, start, end)` in place: every element in the clamped range
    /// becomes `x`.
    pub fn fill(&mut self, x: &[u8], start: i32, end: i32)
        ensures
            final(self).width() == old(self).width(),
            final(self)@ == filled(
                old(self)@,
                x@,
                clamped_index(start as int, old(self)@.len() as int),
                clamped_index(end as int, old(self)@.len() as int),
            ),
    {
        let n = self.items.len();
        let lo = clamp_index(start, n);
        let hi = clamp_index(end, n);
        let ghost start_items = self@;
        let mut i = lo;
        while i < hi
            invariant
                lo <= i,
                hi < lo ==> i == lo,
                lo <= hi ==> i <= hi,
                hi <= n == self@.len() == start_items.len(),
                self.width() == old(self).width(),
                start_items == old(self)@,
                self@ == filled(start_items, x@, lo as int, i as int),
            decreases hi - i,
        {
            let v = vstd::slice::slice_to_vec(x);
            let ghost prev = self@;
            let ghost prev_items = self.items@;
            self.items.set(i, v);
            i = i + 1;
            proof {
                assert forall|k: int| 0 <= k < n implies #[trigger] self@[k] == filled(
                    start_items,
                    x@,
                    lo as int,
                    i as int,
                )[k] by {
                    assert(self@[k] == self.items@[k]@);
                    assert(prev[k] == prev_items[k]@);
                }
                assert(self@ =~= filled(start_items, x@, lo as int, i as int));
            }
        }
        proof {
            if hi <= lo {
                assert(filled(start_items, x@, lo as int, i as int) =~= filled(
                    start_items,
                    x@,
                    lo as int,
                    hi as int,
                ));
            }
        }
    }

    /// `reverse()` in place.
    pub fn reverse(&mut self)
        ensures
            final(self).width() == old(self).width(),
            final(self)@ == old(self)@.reverse(),
    {
        let n = self.items.len();
        let mut out: Vec<Vec<u8>> = Vec::new();
        let mut i = n;
        while i > 0
            invariant
                i <= n == self@.len(),
                *self == *old(self),
                out@.len() == n - i,
                forall|k: int| 0 <= k < out@.len() ==> #[trigger] out@[k]@ == self@[n - 1 - k],
            decreases i,
        {
            i = i - 1;
            proof {
                assert(self@[i as int] == self.items@[i as int]@);
            }
            let v = vstd::slice::slice_to_vec(self.items[i].as_slice());
            out.push(v);
        }
        self.items = out;
        proof {
            assert(final(self)@ =~= old(self)@.reverse());
        }
    }

    /// `concat(other)`: a fresh array of this array's elements followed
    /// by `other`'s. `None` when the two element widths differ (operands
    /// the type checker never pairs).
    pub fn concat(&self, other: &ElemArray) -> (r: Option<ElemArray>)
        ensures
            r is None <==> self.width() != other.width(),
            r matches Some(c) ==> c.width() == self.width() && c@ == self@ + other@,
    {
        if self.elem_size != other.elem_size {
            return None;
        }
        let mut out = ElemArray::new(self.elem_size);
        let mut i: usize = 0;
        while i < self.items.len()
            invariant
                i <= self@.len(),
                out.width() == self.width(),
                out@ =~= self@.subrange(0, i as int),
            decreases self@.len() - i,
        {
            out.push(self.items[i].as_slice());
            i = i + 1;
        }
        let mut j: usize = 0;
        while j < other.items.len()
            invariant
                j <= other@.len(),
                out.width() == self.width(),
                out@ =~= self@ + other@.subrange(0, j as int),
            decreases other@.len() - j,
        {
            out.push(other.items[j].as_slice());
            j = j + 1;
        }
        Some(out)
    }
}

/// The word a boolean element of `width` bytes is read as: its
/// little-endian value at the widths the runtime reads (1, 2, 4, 8),
/// zero at any other.
pub open spec fn bool_word(b: Seq<u8>, width: nat) -> u64 {
    if width == 1 || width == 2 || width == 4 || width == 8 {
        le_bits(b, width)
    } else {
        0
    }
}

/// Whether elements of `kind` are floats, whose text comes from the
/// shortest round-trip float formatting.
pub open spec fn is_float_fmt(kind: FmtKind) -> bool {
    kind == FmtKind::F32 || kind == FmtKind::F64 || kind == FmtKind::F16
}

/// The number of bytes of an element that formatting under `kind` reads.
pub open spec fn fmt_read_width(kind: FmtKind, width: nat) -> nat {
    match kind {
        FmtKind::I32 | FmtKind::U32 => 4,
        FmtKind::I64 | FmtKind::U64 => 8,
        FmtKind::I8 | FmtKind::U8 => 1,
        FmtKind::I16 | FmtKind::U16 => 2,
        FmtKind::Bool => if bool_word_width(width) {
            width
        } else {
            0
        },
        _ => 0,
    }
}

/// The widths a boolean element is read at.
pub open spec fn bool_word_width(width: nat) -> bool {
    width == 1 || width == 2 || width == 4 || width == 8
}

/// The text of one element under `kind`: decimal for the integer kinds
/// (read at the kind's own width and signedness), `true` / `false` for
/// booleans, the content for strings, and `float_text` for the float
/// kinds.
pub open spec fn elem_text(kind: FmtKind, width: nat, b: Seq<u8>, float_text: Seq<u8>) -> Seq<u8> {
    match kind {
        FmtKind::I32 => signed_decimal(le_bits(b, 4) as u32 as i32 as int),
        FmtKind::U32 => decimal_digits(le_bits(b, 4) as u32 as nat),
        FmtKind::I64 => signed_decimal(le_bits(b, 8) as i64 as int),
        FmtKind::U64 => decimal_digits(le_bits(b, 8) as nat),
        FmtKind::I8 => signed_decimal(le_bits(b, 1) as u8 as i8 as int),
        FmtKind::U8 => decimal_digits(le_bits(b, 1) as u8 as nat),
        FmtKind::I16 => signed_decimal(le_bits(b, 2) as u16 as i16 as int),
        FmtKind::U16 => decimal_digits(le_bits(b, 2) as u16 as nat),
        FmtKind::Bool => if bool_word(b, width) != 0 {
            seq![116u8, 114u8, 117u8, 101u8]
        } else {
            seq![102u8, 97u8, 108u8, 115u8, 101u8]
        },
        FmtKind::Str => b,
        _ => float_text,
    }
}

/// `parts` separated by `sep`.
pub open spec fn joined(parts: Seq<Seq<u8>>, sep: Seq<u8>) -> Seq<u8>
    decreases parts.len(),
{
    if parts.len() == 0 {
        Seq::empty()
    } else if parts.len() == 1 {
        parts[0]
    } else {
        joined(parts.drop_last(), sep) + sep + parts.last()
    }
}

/// Appends the decimal spelling of `v`.
fn push_signed(out: &mut Vec<u8>, v: i64)
    ensures
        final(out)@ == old(out)@ + signed_decimal(v as int),
{
    if v < 0 {
        out.push(45u8);
        push_decimal(out, (-(v as i128)) as u64);
    } else {
        push_decimal(out, v as u64);
    }
    proof {
        assert(final(out)@ =~= old(out)@ + signed_decimal(v as int));
    }
}

/// Appends the text of one element.
fn push_text(out: &mut Vec<u8>, kind: FmtKind, width: usize, b: &[u8], float_text: &[u8])
    requires
        b@.len() >= fmt_read_width(kind, width as nat),
    ensures
        final(out)@ == old(out)@ + elem_text(kind, width as nat, b@, float_text@),
{
    match kind {
        FmtKind::I32 => {
            let w = read_bits(b, 4);
            push_signed(out, (w as u32 as i32) as i64);
        },
        FmtKind::U32 => {
            let w = read_bits(b, 4);
            push_decimal(out, (w as u32) as u64);
        },
        FmtKind::I64 => {
            let w = read_bits(b, 8);
            push_signed(out, w as i64);
        },
        FmtKind::U64 => {
            let w = read_bits(b, 8);
            push_decimal(out, w);
        },
        FmtKind::I8 => {
            let w = read_bits(b, 1);
            push_signed(out, (w as u8 as i8) as i64);
        },
        FmtKind::U8 => {
            let w = read_bits(b, 1);
            push_decimal(out, (w as u8) as u64);
        },
        FmtKind::I16 => {
            let w = read_bits(b, 2);
            push_signed(out, (w as u16 as i16) as i64);
        },
        FmtKind::U16 => {
            let w = read_bits(b, 2);
            push_decimal(out, (w as u16) as u64);
        },
        FmtKind::Bool => {
            let w = if width == 1 || width == 2 || width == 4 || width == 8 {
                read_bits(b, width)
            } else {
                0
            };
            if w != 0 {
                out.push(116u8);
                out.push(114u8);
                out.push(117u8);
                out.push(101u8);
            } else {
                out.push(102u8);
                out.push(97u8);
                out.push(108u8);
                out.push(115u8);
                out.push(101u8);
            }
        },
        FmtKind::Str => {
            out.extend_from_slice(b);
        },
        _ => {
            out.extend_from_slice(float_text);
        },
    }
    proof {
        assert(final(out)@ =~= old(out)@ + elem_text(kind, width as nat, b@, float_text@));
    }
}

impl ElemArray {
    /// The text of every element under `kind`, `float_texts` supplying
    /// the texts of float elements.
    pub open spec fn texts(&self, kind: FmtKind, float_texts: Seq<Seq<u8>>) -> Seq<Seq<u8>> {
        Seq::new(
            self@.len(),
            |i: int| elem_text(kind, self.width(), self@[i], float_texts[i]),
        )
    }

    /// `join(sep)`: the text of each element under `kind`, separated by
    /// `sep`. Float elements are written as `float_texts` gives them (their
    /// shortest round-trip spelling, one per element); the texts are not
    /// read for other kinds.
    pub fn join(&self, sep: &[u8], kind: FmtKind, float_texts: &Vec<Vec<u8>>) -> (r: Vec<u8>)
        requires
            is_float_fmt(kind) ==> float_texts@.len() == self@.len(),
            forall|i: int|
                0 <= i < self@.len() ==> (#[trigger] self@[i]).len() >= fmt_read_width(
                    kind,
                    self.width(),
                ),
        ensures
            r@ == joined(
                self.texts(kind, float_texts@.map_values(|t: Vec<u8>| t@)),
                sep@,
            ),
    {
        let ghost floats = float_texts@.map_values(|t: Vec<u8>| t@);
        let ghost parts = self.texts(kind, floats);
        let n = self.items.len();
        let mut out: Vec<u8> = Vec::new();
        let empty: Vec<u8> = Vec::new();
        let mut i: usize = 0;
        while i < n
            invariant
                n == self@.len() == parts.len(),
                i <= n,
                is_float_fmt(kind) ==> float_texts@.len() == n,
                floats == float_texts@.map_values(|t: Vec<u8>| t@),
                parts == self.texts(kind, floats),
                empty@.len() == 0,
                forall|q: int|
                    0 <= q < self@.len() ==> (#[trigger] self@[q]).len() >= fmt_read_width(
                        kind,
                        self.width(),
                    ),
                out@ == joined(parts.subrange(0, i as int), sep@),
            decreases n - i,
        {
            let ghost before = out@;
            if i > 0 {
                out.extend_from_slice(sep);
            }
            proof {
                assert(self@[i as int] == self.items@[i as int]@);
            }
            let ft: &[u8] = if is_float(kind) {
                float_texts[i].as_slice()
            } else {
                empty.as_slice()
            };
            proof {
                if is_float_fmt(kind) {
                    assert(ft@ == floats[i as int]);
                }
            }
            push_text(&mut out, kind, self.elem_size, self.items[i].as_slice(), ft);
            proof {
                let pre = parts.subrange(0, i + 1);
                assert(pre.drop_last() =~= parts.subrange(0, i as int));
                assert(parts[i as int] == elem_text(kind, self.width(), self@[i as int], ft@));
                if i == 0 {
                    assert(out@ =~= joined(pre, sep@));
                } else {
                    assert(out@ =~= joined(pre, sep@));
                }
            }
            i = i + 1;
        }
        proof {
            assert(parts.subrange(0, n as int) =~= parts);
        }
        out
    }
}

/// Whether `kind` formats floats.
fn is_float(kind: FmtKind) -> (r: bool)
    ensures
        r == is_float_fmt(kind),
{
    match kind {
        FmtKind::F32 | FmtKind::F64 | FmtKind::F16 => true,
        _ => false,
    }
}

/// A NaN needle equals no element, so the searches never find it.
pub proof fn lemma_nan_never_equal(a: Seq<u8>, x: Seq<u8>)
    ensures
        is_nan_bits64(le_bits(x, 8)) ==> !elem_equal(ElemKind::F64, a, x),
        is_nan_bits32(le_bits(x, 4) as u32) ==> !elem_equal(ElemKind::F32, a, x),
{
}

/// The two zeros are `===` to each other, whichever sign each carries.
pub proof fn lemma_zeros_equal(a: Seq<u8>, x: Seq<u8>)
    ensures
        (le_bits(a, 8) & 0x7fff_ffff_ffff_ffff == 0 && le_bits(x, 8) & 0x7fff_ffff_ffff_ffff == 0)
            ==> elem_equal(ElemKind::F64, a, x),
        (le_bits(a, 4) as u32 & 0x7fff_ffff == 0 && le_bits(x, 4) as u32 & 0x7fff_ffff == 0)
            ==> elem_equal(ElemKind::F32, a, x),
{
    let p = le_bits(a, 8);
    let q = le_bits(x, 8);
    assert((p & 0x7fff_ffff_ffff_ffff == 0 && q & 0x7fff_ffff_ffff_ffff == 0) ==> (!(p
        & 0x7ff0_0000_0000_0000 == 0x7ff0_0000_0000_0000 && p & 0x000f_ffff_ffff_ffff != 0) && !(q
        & 0x7ff0_0000_0000_0000 == 0x7ff0_0000_0000_0000 && q & 0x000f_ffff_ffff_ffff != 0)))
        by (bit_vector);
    let p32 = le_bits(a, 4) as u32;
    let q32 = le_bits(x, 4) as u32;
    assert((p32 & 0x7fff_ffff == 0 && q32 & 0x7fff_ffff == 0) ==> (!(p32 & 0x7f80_0000
        == 0x7f80_0000 && p32 & 0x007f_ffff != 0) && !(q32 & 0x7f80_0000 == 0x7f80_0000 && q32
        & 0x007f_ffff != 0))) by (bit_vector);
}

/// Strict equality of binary64 and binary32 elements is IEEE `==` on
/// their bits: two elements with different bits are equal only when both
/// are zeros (of either sign), and an element equals an element with the
/// same bits unless it is a NaN. So `-1.5` is not `1.5`.
pub proof fn lemma_float_equality(a: Seq<u8>, x: Seq<u8>)
    ensures
        ({
            let p = le_bits(a, 8);
            let q = le_bits(x, 8);
            &&& p != q && (p & 0x7fff_ffff_ffff_ffff != 0 || q & 0x7fff_ffff_ffff_ffff != 0)
                ==> !elem_equal(ElemKind::F64, a, x)
            &&& p == q && !(p & 0x7ff0_0000_0000_0000 == 0x7ff0_0000_0000_0000 && p
                & 0x000f_ffff_ffff_ffff != 0) ==> elem_equal(ElemKind::F64, a, x)
        }),
        ({
            let p = le_bits(a, 4) as u32;
            let q = le_bits(x, 4) as u32;
            &&& p != q && (p & 0x7fff_ffff != 0 || q & 0x7fff_ffff != 0) ==> !elem_equal(
                ElemKind::F32,
                a,
                x,
            )
            &&& p == q && !(p & 0x7f80_0000 == 0x7f80_0000 && p & 0x007f_ffff != 0) ==> elem_equal(
                ElemKind::F32,
                a,
                x,
            )
        }),
{
}

/// `indexOf` and `lastIndexOf` agree on whether a needle occurs, and the
/// first occurrence never comes after the last.
pub proof fn lemma_first_not_after_last(
    kind: ElemKind,
    items: Seq<Seq<u8>>,
    x: Seq<u8>,
    i: int,
    j: int,
)
    requires
        first_match(kind, items, x, i),
        last_match(kind, items, x, j),
    ensures
        (i == -1) <==> (j == -1),
        i <= j,
{
    if i >= 0 && j < 0 {
        assert(!elem_equal(kind, items[i], x));
    }
    if j >= 0 && i < 0 {
        assert(!elem_equal(kind, items[j], x));
    }
    if i >= 0 && j >= 0 && j < i {
        assert(!elem_equal(kind, items[j], x));
    }
}

/// Reversing twice gives back the original elements.
pub proof fn lemma_reverse_twice(items: Seq<Seq<u8>>)
    ensures
        items.reverse().reverse() == items,
{
    assert(items.reverse().reverse() =~= items);
}

impl ElemArray {
    /// Writes back a sorted order in place: position `i` takes the
    /// element that was at `order[i]`.
    pub fn permute(&mut self, order: &Vec<usize>)
        requires
            order@.len() == old(self)@.len(),
            forall|i: int| 0 <= i < order@.len() ==> #[trigger] order@[i] < old(self)@.len(),
        ensures
            final(self).width() == old(self).width(),
            final(self)@.len() == old(self)@.len(),
            forall|i: int|
                0 <= i < order@.len() ==> #[trigger] final(self)@[i] == old(self)@[order@[i] as int],
    {
        let n = self.items.len();
        let mut out: Vec<Vec<u8>> = Vec::new();
        let mut i: usize = 0;
        while i < n
            invariant
                n == self@.len() == order@.len(),
                *self == *old(self),
                forall|q: int| 0 <= q < order@.len() ==> #[trigger] order@[q] < n,
                i <= n,
                out@.len() == i,
                forall|q: int| 0 <= q < i ==> (#[trigger] out@[q])@ == self@[order@[q] as int],
            decreases n - i,
        {
            let src = order[i];
            proof {
                assert(order@[i as int] < n);
                assert(self@[src as int] == self.items@[src as int]@);
            }
            let v = vstd::slice::slice_to_vec(self.items[src].as_slice());
            out.push(v);
            i = i + 1;
        }
        self.items = out;
    }
}

} // verus!

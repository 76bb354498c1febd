//! Key kinds, entry layout and hashing of the `Map` / `Set` containers.
//!
//! A container's entries store concrete key/value bytes inline after a
//! 16-byte prefix (hash, active flag); every key/value slot begins on an
//! eight-byte boundary. Keys hash by kind: integer-like and reference
//! keys through MurmurHash3's 64-bit finalizer, strings through FNV-1a
//! over their UTF-8 content, floats under SameValueZero (every NaN
//! payload is one key, and `-0` is stored, hashed and compared as `+0`).
use vstd::prelude::*;

pub mod grouping;
pub mod sets;
pub mod table;

pub use grouping::group_by;

pub use sets::{
    set_difference, set_intersection, set_is_disjoint_from, set_is_subset_of, set_is_superset_of,
    set_symmetric_difference, set_union,
};
pub use table::{get_or, AssocTable};

verus! {

/// Bytes of the entry prefix (hash, active flag).
pub const ENTRY_PREFIX: usize = 16;

/// The runtime equality/hash kind of a monomorphized key (ABI contract
/// with the compiler).
#[derive(Debug, Clone, Copy, PartialEq, Eq, Structural)]
#[non_exhaustive]
pub enum KeyKind {
    /// Integer-like bits: sized integers, boolean, enum, and `Date`.
    Bits,
    /// IEEE binary32 under SameValueZero.
    F32,
    /// IEEE binary64 under SameValueZero.
    F64,
    /// A string handle, compared and hashed by UTF-8 content.
    Str,
    /// A reference-class handle, compared and hashed by identity.
    Ref,
}

/// The key kind with stable code `v`, if any.
pub open spec fn key_kind_of_code(v: u32) -> Option<KeyKind> {
    if v == 0 {
        Some(KeyKind::Bits)
    } else if v == 1 {
        Some(KeyKind::F32)
    } else if v == 2 {
        Some(KeyKind::F64)
    } else if v == 3 {
        Some(KeyKind::Str)
    } else if v == 4 {
        Some(KeyKind::Ref)
    } else {
        None
    }
}

impl KeyKind {
    /// Decodes the stable compiler/runtime ABI code.
    pub fn from_u32(value: u32) -> (r: Option<KeyKind>)
        ensures
            r == key_kind_of_code(value),
    {
        match value {
            0 => Some(KeyKind::Bits),
            1 => Some(KeyKind::F32),
            2 => Some(KeyKind::F64),
            3 => Some(KeyKind::Str),
            4 => Some(KeyKind::Ref),
            _ => None,
        }
    }
}

/// `value` rounded up to a multiple of eight.
pub open spec fn word_rounded(value: int) -> int {
    ((value + 7) / 8) * 8
}

/// `value` rounded up to a multiple of eight; `None` when that is not
/// representable.
pub fn round_word(value: usize) -> (r: Option<usize>)
    ensures
        r == if word_rounded(value as int) <= usize::MAX {
            Some(word_rounded(value as int) as usize)
        } else {
            None::<usize>
        },
{
    if value > usize::MAX - 7 {
        None
    } else {
        let v = value + 7;
        Some(v - v % 8)
    }
}

/// Bytes of one entry: the prefix, then the word-rounded key and value.
pub open spec fn stride_of(key_size: int, value_size: int) -> int {
    ENTRY_PREFIX + word_rounded(key_size) + word_rounded(value_size)
}

/// Bytes of one entry; `None` when that is not representable.
pub fn entry_stride(key_size: usize, value_size: usize) -> (r: Option<usize>)
    ensures
        r == if stride_of(key_size as int, value_size as int) <= usize::MAX {
            Some(stride_of(key_size as int, value_size as int) as usize)
        } else {
            None::<usize>
        },
{
    let k = match round_word(key_size) {
        Some(k) => k,
        None => return None,
    };
    let v = match round_word(value_size) {
        Some(v) => v,
        None => return None,
    };
    if k > usize::MAX - ENTRY_PREFIX {
        return None;
    }
    let kp = ENTRY_PREFIX + k;
    if v > usize::MAX - kp {
        None
    } else {
        Some(kp + v)
    }
}

/// True when `key_size` is a width generated code produces for `kind`.
pub open spec fn key_shape_ok(kind: KeyKind, key_size: usize) -> bool {
    match kind {
        KeyKind::Bits => key_size == 1 || key_size == 2 || key_size == 4 || key_size == 8,
        KeyKind::F32 => key_size == 4,
        _ => key_size == 8,
    }
}

/// True when `key_size` is a width generated code produces for `kind`.
pub fn shape_ok(kind: KeyKind, key_size: usize) -> (r: bool)
    ensures
        r == key_shape_ok(kind, key_size),
{
    match kind {
        KeyKind::Bits => key_size == 1 || key_size == 2 || key_size == 4 || key_size == 8,
        KeyKind::F32 => key_size == 4,
        KeyKind::F64 | KeyKind::Str | KeyKind::Ref => key_size == 8,
    }
}

/// Byte offset of the key inside an entry.
pub fn key_offset() -> (r: usize)
    ensures
        r == ENTRY_PREFIX,
{
    ENTRY_PREFIX
}

/// Byte offset of the value inside an entry whose key is `key_size`
/// bytes wide (the prefix alone when the rounded width is not
/// representable).
pub fn value_offset(key_size: usize) -> (r: usize)
    requires
        word_rounded(key_size as int) <= usize::MAX - ENTRY_PREFIX || key_size > usize::MAX - 7,
    ensures
        r == ENTRY_PREFIX + if key_size <= usize::MAX - 7 { word_rounded(key_size as int) } else { 0 },
{
    match round_word(key_size) {
        Some(k) => ENTRY_PREFIX + k,
        None => ENTRY_PREFIX,
    }
}

/// MurmurHash3's 64-bit finalizer over wrapping `u64` arithmetic.
pub open spec fn mix64_spec(value: u64) -> u64 {
    let a = value ^ (value >> 33);
    let b = vstd::wrapping::u64_specs::wrapping_mul(a, 0xff51_afd7_ed55_8ccd);
    let c = b ^ (b >> 33);
    let d = vstd::wrapping::u64_specs::wrapping_mul(c, 0xc4ce_b9fe_1a85_ec53);
    d ^ (d >> 33)
}

/// The finalizer's xor-shift by 33 bits undoes itself.
proof fn lemma_xorshift_undo(x: u64)
    ensures
        (x ^ (x >> 33)) ^ ((x ^ (x >> 33)) >> 33) == x,
{
    assert((x ^ (x >> 33)) ^ ((x ^ (x >> 33)) >> 33) == x) by (bit_vector);
}

/// The finalizer's two odd multipliers are undone by their inverses
/// modulo 2^64.
proof fn lemma_multipliers_undo(x: u64)
    ensures
        vstd::wrapping::u64_specs::wrapping_mul(
            vstd::wrapping::u64_specs::wrapping_mul(x, 0xff51_afd7_ed55_8ccd),
            0x4f74_430c_22a5_4005,
        ) == x,
        vstd::wrapping::u64_specs::wrapping_mul(
            vstd::wrapping::u64_specs::wrapping_mul(x, 0xc4ce_b9fe_1a85_ec53),
            0x9cb4_b2f8_1293_37db,
        ) == x,
{
    assert(vstd::wrapping::u64_specs::wrapping_mul(
        vstd::wrapping::u64_specs::wrapping_mul(x, 0xff51_afd7_ed55_8ccd),
        0x4f74_430c_22a5_4005,
    ) == x) by (bit_vector);
    assert(vstd::wrapping::u64_specs::wrapping_mul(
        vstd::wrapping::u64_specs::wrapping_mul(x, 0xc4ce_b9fe_1a85_ec53),
        0x9cb4_b2f8_1293_37db,
    ) == x) by (bit_vector);
}

/// The finalizer is injective: distinct keys never collide in their
/// mixed hash, which depends on the key alone.
pub proof fn lemma_mix64_injective(a: u64, b: u64)
    requires
        mix64_spec(a) == mix64_spec(b),
    ensures
        a == b,
{
    let a1 = a ^ (a >> 33);
    let b1 = b ^ (b >> 33);
    let a2 = vstd::wrapping::u64_specs::wrapping_mul(a1, 0xff51_afd7_ed55_8ccd);
    let b2 = vstd::wrapping::u64_specs::wrapping_mul(b1, 0xff51_afd7_ed55_8ccd);
    let a3 = a2 ^ (a2 >> 33);
    let b3 = b2 ^ (b2 >> 33);
    let a4 = vstd::wrapping::u64_specs::wrapping_mul(a3, 0xc4ce_b9fe_1a85_ec53);
    let b4 = vstd::wrapping::u64_specs::wrapping_mul(b3, 0xc4ce_b9fe_1a85_ec53);
    lemma_xorshift_undo(a4);
    lemma_xorshift_undo(b4);
    assert(a4 == b4);
    lemma_multipliers_undo(a3);
    lemma_multipliers_undo(b3);
    assert(a3 == b3);
    lemma_xorshift_undo(a2);
    lemma_xorshift_undo(b2);
    assert(a2 == b2);
    lemma_multipliers_undo(a1);
    lemma_multipliers_undo(b1);
    assert(a1 == b1);
    lemma_xorshift_undo(a);
    lemma_xorshift_undo(b);
}

/// MurmurHash3's 64-bit finalizer: deterministic, seed-free, and
/// avalanches narrow integer and pointer bit patterns well.
pub fn mix64(value: u64) -> (r: u64)
    ensures
        r == mix64_spec(value),
{
    let mut value = value;
    value = value ^ (value >> 33);
    value = value.wrapping_mul(0xff51_afd7_ed55_8ccd);
    value = value ^ (value >> 33);
    value = value.wrapping_mul(0xc4ce_b9fe_1a85_ec53);
    value ^ (value >> 33)
}

/// FNV-1a offset basis.
pub const FNV_OFFSET: u64 = 0xcbf2_9ce4_8422_2325;

/// FNV-1a prime.
pub const FNV_PRIME: u64 = 0x0000_0100_0000_01b3;

/// FNV-1a over `bytes`, one byte at a time from the front.
pub open spec fn fnv1a_spec(bytes: Seq<u8>) -> u64
    decreases bytes.len(),
{
    if bytes.len() == 0 {
        FNV_OFFSET
    } else {
        let h = fnv1a_spec(bytes.drop_last()) ^ (bytes.last() as u64);
        vstd::wrapping::u64_specs::wrapping_mul(h, FNV_PRIME)
    }
}

/// FNV-1a over `bytes`.
pub fn fnv1a(bytes: &[u8]) -> (r: u64)
    ensures
        r == fnv1a_spec(bytes@),
{
    let mut hash = FNV_OFFSET;
    let mut i: usize = 0;
    while i < bytes.len()
        invariant
            i <= bytes@.len(),
            hash == fnv1a_spec(bytes@.subrange(0, i as int)),
        decreases bytes@.len() - i,
    {
        proof {
            assert(bytes@.subrange(0, i + 1).drop_last() =~= bytes@.subrange(0, i as int));
        }
        hash = hash ^ (bytes[i] as u64);
        hash = hash.wrapping_mul(FNV_PRIME);
        i = i + 1;
    }
    proof {
        assert(bytes@.subrange(0, bytes@.len() as int) =~= bytes@);
    }
    hash
}

/// The stored bits of a binary32 key under SameValueZero: both zeros
/// become `+0` and every NaN the canonical quiet NaN.
pub open spec fn f32_key_bits_spec(bits: u32) -> u32 {
    if bits & 0x7fff_ffff == 0 {
        0
    } else if bits & 0x7f80_0000 == 0x7f80_0000 && bits & 0x007f_ffff != 0 {
        0x7fc0_0000
    } else {
        bits
    }
}

/// The stored bits of a binary32 key under SameValueZero.
pub fn f32_key_bits(bits: u32) -> (r: u32)
    ensures
        r == f32_key_bits_spec(bits),
{
    if bits & 0x7fff_ffff == 0 {
        0
    } else if bits & 0x7f80_0000 == 0x7f80_0000 && bits & 0x007f_ffff != 0 {
        0x7fc0_0000
    } else {
        bits
    }
}

/// The stored bits of a binary64 key under SameValueZero: both zeros
/// become `+0` and every NaN the canonical quiet NaN.
pub open spec fn f64_key_bits_spec(bits: u64) -> u64 {
    if bits & 0x7fff_ffff_ffff_ffff == 0 {
        0
    } else if bits & 0x7ff0_0000_0000_0000 == 0x7ff0_0000_0000_0000 && bits
        & 0x000f_ffff_ffff_ffff != 0 {
        0x7ff8_0000_0000_0000
    } else {
        bits
    }
}

/// The stored bits of a binary64 key under SameValueZero.
pub fn f64_key_bits(bits: u64) -> (r: u64)
    ensures
        r == f64_key_bits_spec(bits),
{
    if bits & 0x7fff_ffff_ffff_ffff == 0 {
        0
    } else if bits & 0x7ff0_0000_0000_0000 == 0x7ff0_0000_0000_0000 && bits
        & 0x000f_ffff_ffff_ffff != 0 {
        0x7ff8_0000_0000_0000
    } else {
        bits
    }
}

/// A binary64 NaN bit pattern: all exponent bits set, fraction non-zero.
pub open spec fn is_nan_bits64(bits: u64) -> bool {
    bits & 0x7ff0_0000_0000_0000 == 0x7ff0_0000_0000_0000 && bits & 0x000f_ffff_ffff_ffff != 0
}

/// A binary32 NaN bit pattern.
pub open spec fn is_nan_bits32(bits: u32) -> bool {
    bits & 0x7f80_0000 == 0x7f80_0000 && bits & 0x007f_ffff != 0
}

/// SameValueZero on binary64 keys: two keys are one exactly when both
/// are NaN (any payload), both are zero (either sign), or their bits
/// are equal.
pub proof fn lemma_f64_same_value_zero(a: u64, b: u64)
    ensures
        (f64_key_bits_spec(a) == f64_key_bits_spec(b)) <==> ((is_nan_bits64(a) && is_nan_bits64(b))
            || (a & 0x7fff_ffff_ffff_ffff == 0 && b & 0x7fff_ffff_ffff_ffff == 0) || a == b),
{
    assert((f64_key_bits_spec(a) == f64_key_bits_spec(b)) <==> ((is_nan_bits64(a) && is_nan_bits64(b))
        || (a & 0x7fff_ffff_ffff_ffff == 0 && b & 0x7fff_ffff_ffff_ffff == 0) || a == b))
        by (bit_vector);
}

/// SameValueZero on binary32 keys: two keys are one exactly when both
/// are NaN (any payload), both are zero (either sign), or their bits
/// are equal.
pub proof fn lemma_f32_same_value_zero(a: u32, b: u32)
    ensures
        (f32_key_bits_spec(a) == f32_key_bits_spec(b)) <==> ((is_nan_bits32(a) && is_nan_bits32(b))
            || (a & 0x7fff_ffff == 0 && b & 0x7fff_ffff == 0) || a == b),
{
    assert((f32_key_bits_spec(a) == f32_key_bits_spec(b)) <==> ((is_nan_bits32(a) && is_nan_bits32(b))
        || (a & 0x7fff_ffff == 0 && b & 0x7fff_ffff == 0) || a == b)) by (bit_vector);
}

} // verus!

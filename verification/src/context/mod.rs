//! Constants and value encodings of Context memory: the allocation
//! header, class ids, the tagged one-code-point string handles, and the
//! ship-tier arena's size classes.
//!
//! A BMP string produced by `for…of` contains exactly one Unicode scalar.
//! That scalar is encoded in an odd handle (Context allocations are
//! 16-byte-aligned) and its bytes are served from an immutable table of
//! UTF-8 words.
use vstd::prelude::*;
use vstd::utf8::{encode_scalar, is_scalar};

pub mod arena;
pub mod coroutines;
pub mod heap;
pub mod traps;

pub use heap::ExactHeap;

verus! {

/// Bytes between an allocation's base and its payload.
pub const HEADER_SIZE: usize = 16;
/// Recommended byte ceiling for freed-handle diagnostic retention.
pub const FREED_HANDLE_DIAGNOSTICS_DEFAULT_MAX_RETAINED_BYTES: usize = 1_073_741_824;
/// Advisory kind reported when `Context.free` releases registered
/// callback userdata.
pub const DIAGNOSTICS_ADVISORY_CALLBACK_USERDATA_FREE: u32 = 1;
/// Advisory kind reported when the callback-binding count reaches its
/// host-configured threshold.
pub const DIAGNOSTICS_ADVISORY_BINDING_COUNT: u32 = 2;
/// Header state word for a live allocation (offset -16 from payload).
pub const LIVE_STATE: u64 = 0x5355_4253_4C49_5645;
/// Header state word for a deleted/collected allocation.
pub const DEAD_STATE: u64 = 0x5355_4253_4445_4144;
/// Byte offset of the state word relative to the payload pointer.
pub const STATE_OFFSET: i32 = -16;
/// Byte offset of the class id relative to the payload pointer.
pub const CLASS_ID_OFFSET: i32 = -8;
/// Byte offset of the allocating position id relative to the payload pointer.
pub const POS_ID_OFFSET: i32 = -4;
/// Class id used for string allocations.
pub const CLASS_STRING: u32 = 0xFFFF_FF01;
/// Class id used for dynamic-array headers.
pub const CLASS_ARRAY: u32 = 0xFFFF_FF02;
/// Class id used for dynamic-array element storage.
pub const CLASS_ARRAY_DATA: u32 = 0xFFFF_FF03;
/// Class id used for coroutine frames.
pub const CLASS_GENERATOR: u32 = 0xFFFF_FF04;
/// Class id used for `Map` headers.
pub const CLASS_MAP: u32 = 0xFFFF_FF05;
/// Class id used for `Set` headers.
pub const CLASS_SET: u32 = 0xFFFF_FF06;
/// Class id used for insertion-ordered Map/Set entry storage.
pub const CLASS_MAP_DATA: u32 = 0xFFFF_FF07;
/// Class id used for Map/Set open-addressed bucket storage.
pub const CLASS_MAP_INDEX: u32 = 0xFFFF_FF08;
/// Class id used for RegExp handles.
pub const CLASS_REGEX: u32 = 0xFFFF_FF09;

/// Number of BMP code points (the tagged handle range).
pub const BMP_CODE_POINT_COUNT: usize = 0x1_0000;
/// Low bit marking a tagged one-code-point string handle.
pub const INLINE_STRING_TAG: usize = 1;

/// Total block size of the smallest ship-tier size class.
pub const SMALLEST_BLOCK: usize = 32;
/// Total block size of the largest ship-tier size class.
pub const LARGEST_BLOCK: usize = 4096;

// ----- UTF-8 words -----

/// Number of UTF-8 bytes of `scalar` (four for everything above the BMP).
pub open spec fn utf8_len_of(scalar: u32) -> int {
    if scalar <= 0x7f {
        1
    } else if scalar <= 0x7ff {
        2
    } else if scalar <= 0xffff {
        3
    } else {
        4
    }
}

/// Number of UTF-8 bytes of `scalar`.
pub fn scalar_utf8_len(scalar: u32) -> (r: usize)
    ensures
        r == utf8_len_of(scalar),
{
    if scalar <= 0x7f {
        1
    } else if scalar <= 0x7ff {
        2
    } else if scalar <= 0xffff {
        3
    } else {
        4
    }
}

/// The four bytes of the UTF-8 word of `scalar`: its encoding, padded
/// with zero bytes.
pub open spec fn utf8_word_bytes(scalar: u32) -> Seq<u8> {
    if scalar <= 0x7f {
        seq![scalar as u8, 0u8, 0u8, 0u8]
    } else if scalar <= 0x7ff {
        seq![(0xc0 | (scalar >> 6)) as u8, (0x80 | (scalar & 0x3f)) as u8, 0u8, 0u8]
    } else if scalar <= 0xffff {
        seq![
            (0xe0 | (scalar >> 12)) as u8,
            (0x80 | ((scalar >> 6) & 0x3f)) as u8,
            (0x80 | (scalar & 0x3f)) as u8,
            0u8,
        ]
    } else {
        seq![
            (0xf0 | (scalar >> 18)) as u8,
            (0x80 | ((scalar >> 12) & 0x3f)) as u8,
            (0x80 | ((scalar >> 6) & 0x3f)) as u8,
            (0x80 | (scalar & 0x3f)) as u8,
        ]
    }
}

/// A word's bytes read in little-endian order.
pub open spec fn le_word(b: Seq<u8>) -> u32 {
    (b[0] as u32) | ((b[1] as u32) << 8) | ((b[2] as u32) << 16) | ((b[3] as u32) << 24)
}

/// A word's bytes read in big-endian order.
pub open spec fn be_word(b: Seq<u8>) -> u32 {
    (b[3] as u32) | ((b[2] as u32) << 8) | ((b[1] as u32) << 16) | ((b[0] as u32) << 24)
}

/// std's `u32::from_ne_bytes`: the word whose in-memory bytes are
/// `bytes`. Taken on trust from its documentation, not proved: the bytes
/// are read in the machine's byte order, little- or big-endian.
#[verifier::external_body]
fn word_from_ne_bytes(bytes: [u8; 4]) -> (r: u32)
    ensures
        r == le_word(bytes@) || r == be_word(bytes@),
{
    u32::from_ne_bytes(bytes)
}

/// The UTF-8 word of `scalar`: a `u32` whose in-memory bytes are the
/// encoding of `scalar` followed by zero bytes.
pub fn encode_utf8_word(scalar: u32) -> (r: u32)
    requires
        scalar <= 0x10_ffff,
    ensures
        r == le_word(utf8_word_bytes(scalar)) || r == be_word(utf8_word_bytes(scalar)),
{
    let mut bytes = [0u8; 4];
    if scalar <= 0x7f {
        bytes[0] = scalar as u8;
    } else if scalar <= 0x7ff {
        bytes[0] = (0xc0 | (scalar >> 6)) as u8;
        bytes[1] = (0x80 | (scalar & 0x3f)) as u8;
    } else if scalar <= 0xffff {
        bytes[0] = (0xe0 | (scalar >> 12)) as u8;
        bytes[1] = (0x80 | ((scalar >> 6) & 0x3f)) as u8;
        bytes[2] = (0x80 | (scalar & 0x3f)) as u8;
    } else {
        bytes[0] = (0xf0 | (scalar >> 18)) as u8;
        bytes[1] = (0x80 | ((scalar >> 12) & 0x3f)) as u8;
        bytes[2] = (0x80 | ((scalar >> 6) & 0x3f)) as u8;
        bytes[3] = (0x80 | (scalar & 0x3f)) as u8;
    }
    proof {
        assert(bytes@ =~= utf8_word_bytes(scalar));
    }
    word_from_ne_bytes(bytes)
}

/// The leading `utf8_len_of(scalar)` bytes of a scalar's UTF-8 word are
/// its UTF-8 encoding.
pub proof fn lemma_utf8_word_is_encoding(scalar: u32)
    requires
        is_scalar(scalar),
    ensures
        utf8_word_bytes(scalar).subrange(0, utf8_len_of(scalar)) == encode_scalar(scalar),
{
    let s = scalar;
    if s <= 0x7f {
        assert((s as u8) == ((s & 0x7F) as u8)) by (bit_vector)
            requires
                s <= 0x7f,
        ;
    } else if s <= 0x7ff {
        assert(((0xc0 | (s >> 6)) as u8) == (0xC0 | ((s >> 6) & 0x1F) as u8)) by (bit_vector)
            requires
                s <= 0x7ff,
        ;
        assert(((0x80 | (s & 0x3f)) as u8) == (0x80 | (s & 0x3F) as u8)) by (bit_vector);
    } else if s <= 0xffff {
        assert(((0xe0 | (s >> 12)) as u8) == (0xE0 | ((s >> 12) & 0x0F) as u8)) by (bit_vector)
            requires
                s <= 0xffff,
        ;
        assert(((0x80 | ((s >> 6) & 0x3f)) as u8) == (0x80 | ((s >> 6) & 0x3F) as u8))
            by (bit_vector);
        assert(((0x80 | (s & 0x3f)) as u8) == (0x80 | (s & 0x3F) as u8)) by (bit_vector);
    } else {
        assert(((0xf0 | (s >> 18)) as u8) == (0xF0 | ((s >> 18) & 0x7) as u8)) by (bit_vector)
            requires
                s <= 0x10ffff,
        ;
        assert(((0x80 | ((s >> 12) & 0x3f)) as u8) == (0x80 | ((s >> 12) & 0x3F) as u8))
            by (bit_vector);
        assert(((0x80 | ((s >> 6) & 0x3f)) as u8) == (0x80 | ((s >> 6) & 0x3F) as u8))
            by (bit_vector);
        assert(((0x80 | (s & 0x3f)) as u8) == (0x80 | (s & 0x3F) as u8)) by (bit_vector);
    }
    assert(utf8_word_bytes(scalar).subrange(0, utf8_len_of(scalar)) =~= encode_scalar(scalar));
}

// ----- tagged one-code-point handles -----

/// The tagged handle value of BMP scalar `scalar`.
pub open spec fn inline_handle_of(scalar: int) -> int {
    (scalar + 1) * 2 + 1
}

/// The scalar a handle value encodes, when it is a tagged BMP handle.
pub open spec fn inline_scalar_of(raw: usize) -> Option<u32> {
    if raw % 2 == 0 {
        None
    } else if 0 < raw / 2 <= BMP_CODE_POINT_COUNT {
        Some((raw / 2 - 1) as u32)
    } else {
        None
    }
}

/// The scalar a string handle encodes, when it is a tagged BMP handle
/// (odd, with a code point below `0x1_0000`); `None` for an ordinary
/// (even) allocation address.
pub fn inline_string_scalar(raw: usize) -> (r: Option<u32>)
    ensures
        r == inline_scalar_of(raw),
{
    if raw % 2 == 0 {
        return None;
    }
    let encoded = raw / 2;
    if encoded > 0 && encoded <= BMP_CODE_POINT_COUNT {
        Some((encoded - 1) as u32)
    } else {
        None
    }
}

/// The tagged handle value for a BMP scalar.
pub fn inline_bmp_code_point(scalar: u32) -> (r: usize)
    requires
        scalar < BMP_CODE_POINT_COUNT,
    ensures
        r == inline_handle_of(scalar as int),
        inline_scalar_of(r) == Some(scalar),
{
    ((scalar as usize + 1) * 2) + INLINE_STRING_TAG
}

// ----- ship-tier size classes -----

/// `2^c`.
pub open spec fn pow2(c: nat) -> nat
    decreases c,
{
    if c == 0 { 1 } else { 2 * pow2((c - 1) as nat) }
}

/// Class `c` is the smallest power-of-two class whose block holds `need`
/// bytes.
pub open spec fn is_size_class(need: int, c: nat) -> bool {
    &&& need <= SMALLEST_BLOCK * pow2(c)
    &&& (c == 0 || SMALLEST_BLOCK * pow2((c - 1) as nat) < need)
}

/// Size-class index for a total block size `need` (`need <=
/// LARGEST_BLOCK`): the smallest power-of-two block that holds it,
/// `SMALLEST_BLOCK` at minimum.
pub fn size_class(need: usize) -> (r: usize)
    requires
        need <= LARGEST_BLOCK,
    ensures
        is_size_class(need as int, r as nat),
        r <= 7,
{
    let mut class: usize = 0;
    let mut block: usize = SMALLEST_BLOCK;
    while block < need
        invariant
            block == SMALLEST_BLOCK * pow2(class as nat),
            class <= 7,
            need <= LARGEST_BLOCK,
            class == 0 || SMALLEST_BLOCK * pow2((class - 1) as nat) < need,
        decreases LARGEST_BLOCK - block,
    {
        proof {
            reveal_with_fuel(pow2, 8);
        }
        block = block * 2;
        class = class + 1;
    }
    class
}

} // verus!

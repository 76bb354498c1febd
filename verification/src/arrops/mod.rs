//! ABI codes and element-shape rules of the `Array` method operations.
//!
//! The compiler passes each array element's marshaling kind and text
//! formatting kind as stable `u32` codes; the runtime derives the C-ABI
//! class a value crosses a callback boundary as from the kind and the
//! element's byte width, so a type whose width differs between tiers
//! (`boolean`: 1 byte under the dev JIT, 4 under the ship-C emitter)
//! stays correct on both.
use vstd::prelude::*;

pub mod elems;
pub mod sorting;
pub mod walks;

pub use elems::ElemArray;
pub use sorting::MergeSort;
pub use walks::SearchMode;

verus! {

/// Marshaling kind of an array element (ABI contract with the compiler;
/// the codes must agree).
#[derive(Debug, Clone, Copy, PartialEq, Eq)]
#[non_exhaustive]
pub enum ElemKind {
    /// Bitwise integer equality at the element width; zero-extending
    /// integer register.
    Int,
    /// Bitwise integer equality at the element width; sign-extending
    /// integer register.
    SignedInt,
    /// IEEE binary32 equality; float register.
    F32,
    /// IEEE binary64 equality; float register.
    F64,
    /// String handle: content equality; pointer-sized integer register.
    Str,
    /// IEEE binary16 equality after widening; raw bits use a 16-bit
    /// integer register.
    F16,
}

/// The element kind with stable code `v`, if any.
pub open spec fn elem_kind_of_code(v: u32) -> Option<ElemKind> {
    if v == 0 {
        Some(ElemKind::Int)
    } else if v == 1 {
        Some(ElemKind::F32)
    } else if v == 2 {
        Some(ElemKind::F64)
    } else if v == 3 {
        Some(ElemKind::Str)
    } else if v == 4 {
        Some(ElemKind::F16)
    } else if v == 5 {
        Some(ElemKind::SignedInt)
    } else {
        None
    }
}

impl ElemKind {
    /// Decodes the stable `u32` form; unknown values map to `None`.
    pub fn from_u32(v: u32) -> (r: Option<ElemKind>)
        ensures
            r == elem_kind_of_code(v),
    {
        match v {
            0 => Some(ElemKind::Int),
            1 => Some(ElemKind::F32),
            2 => Some(ElemKind::F64),
            3 => Some(ElemKind::Str),
            4 => Some(ElemKind::F16),
            5 => Some(ElemKind::SignedInt),
            _ => None,
        }
    }
}

/// Text formatting kind of a `join` element (ABI contract with the
/// compiler; the codes must agree).
#[derive(Debug, Clone, Copy, PartialEq, Eq)]
#[non_exhaustive]
pub enum FmtKind {
    /// `i32` decimal (also enums).
    I32,
    /// `u32` decimal.
    U32,
    /// `i64` decimal.
    I64,
    /// `u64` decimal.
    U64,
    /// binary32 shortest round-trip.
    F32,
    /// binary64 shortest round-trip.
    F64,
    /// `true` / `false`.
    Bool,
    /// String elements pass through unformatted.
    Str,
    /// `i8` decimal.
    I8,
    /// `u8` decimal.
    U8,
    /// `i16` decimal.
    I16,
    /// `u16` decimal.
    U16,
    /// Binary16 widened, then formatted as binary64.
    F16,
}

/// The formatting kind with stable code `v`, if any.
pub open spec fn fmt_kind_of_code(v: u32) -> Option<FmtKind> {
    if v == 0 {
        Some(FmtKind::I32)
    } else if v == 1 {
        Some(FmtKind::U32)
    } else if v == 2 {
        Some(FmtKind::I64)
    } else if v == 3 {
        Some(FmtKind::U64)
    } else if v == 4 {
        Some(FmtKind::F32)
    } else if v == 5 {
        Some(FmtKind::F64)
    } else if v == 6 {
        Some(FmtKind::Bool)
    } else if v == 7 {
        Some(FmtKind::Str)
    } else if v == 8 {
        Some(FmtKind::I8)
    } else if v == 9 {
        Some(FmtKind::U8)
    } else if v == 10 {
        Some(FmtKind::I16)
    } else if v == 11 {
        Some(FmtKind::U16)
    } else if v == 12 {
        Some(FmtKind::F16)
    } else {
        None
    }
}

impl FmtKind {
    /// Decodes the stable `u32` form; unknown values map to `None`.
    pub fn from_u32(v: u32) -> (r: Option<FmtKind>)
        ensures
            r == fmt_kind_of_code(v),
    {
        match v {
            0 => Some(FmtKind::I32),
            1 => Some(FmtKind::U32),
            2 => Some(FmtKind::I64),
            3 => Some(FmtKind::U64),
            4 => Some(FmtKind::F32),
            5 => Some(FmtKind::F64),
            6 => Some(FmtKind::Bool),
            7 => Some(FmtKind::Str),
            8 => Some(FmtKind::I8),
            9 => Some(FmtKind::U8),
            10 => Some(FmtKind::I16),
            11 => Some(FmtKind::U16),
            12 => Some(FmtKind::F16),
            _ => None,
        }
    }
}

/// The concrete C-ABI class a value crosses the callback boundary as.
#[derive(Debug, Clone, Copy, PartialEq, Eq)]
pub enum Abi {
    /// Zero-extended 8-bit integer.
    U8,
    /// Zero-extended 16-bit integer.
    U16,
    /// Zero-extended 32-bit integer.
    U32,
    /// 64-bit integer (unsigned view).
    U64,
    /// Sign-extended 8-bit integer.
    S8,
    /// Sign-extended 16-bit integer.
    S16,
    /// Signed 32-bit integer.
    I32,
    /// Signed 64-bit integer.
    I64,
    /// binary32 float register.
    F32,
    /// binary64 float register.
    F64,
}

/// The ABI class of an element of `kind` occupying `size` bytes, or
/// `None` when the pair is not a shape generated code produces.
pub open spec fn abi_class(kind: ElemKind, size: usize) -> Option<Abi> {
    match kind {
        ElemKind::F32 => if size == 4 { Some(Abi::F32) } else { None },
        ElemKind::F64 => if size == 8 { Some(Abi::F64) } else { None },
        ElemKind::F16 => if size == 2 { Some(Abi::U16) } else { None },
        ElemKind::Str => if size == 8 { Some(Abi::U64) } else { None },
        ElemKind::Int => if size == 1 {
            Some(Abi::U8)
        } else if size == 2 {
            Some(Abi::U16)
        } else if size == 4 {
            Some(Abi::U32)
        } else if size == 8 {
            Some(Abi::U64)
        } else {
            None
        },
        ElemKind::SignedInt => if size == 1 {
            Some(Abi::S8)
        } else if size == 2 {
            Some(Abi::S16)
        } else if size == 4 {
            Some(Abi::I32)
        } else if size == 8 {
            Some(Abi::I64)
        } else {
            None
        },
    }
}

/// The ABI class of an element of `kind` occupying `size` bytes, or
/// `None` when the pair is not a shape generated code produces.
pub fn abi_of(kind: ElemKind, size: usize) -> (r: Option<Abi>)
    ensures
        r == abi_class(kind, size),
{
    match kind {
        ElemKind::F32 => if size == 4 { Some(Abi::F32) } else { None },
        ElemKind::F64 => if size == 8 { Some(Abi::F64) } else { None },
        ElemKind::F16 => if size == 2 { Some(Abi::U16) } else { None },
        ElemKind::Str => if size == 8 { Some(Abi::U64) } else { None },
        ElemKind::Int => match size {
            1 => Some(Abi::U8),
            2 => Some(Abi::U16),
            4 => Some(Abi::U32),
            8 => Some(Abi::U64),
            _ => None,
        },
        ElemKind::SignedInt => match size {
            1 => Some(Abi::S8),
            2 => Some(Abi::S16),
            4 => Some(Abi::I32),
            8 => Some(Abi::I64),
            _ => None,
        },
    }
}

/// The capacity an array of `len` elements and capacity `cap` grows to on
/// a push: `None` while there is room; four elements for a first block,
/// then double. The new block is allocated (and may fail) before the old
/// one is retired.
pub fn array_growth(len: u64, cap: u64) -> (r: Option<u64>)
    requires
        cap <= u64::MAX / 2,
    ensures
        r == if len < cap {
            None::<u64>
        } else if cap == 0 {
            Some(4u64)
        } else {
            Some((2 * cap) as u64)
        },
{
    if len < cap {
        None
    } else if cap == 0 {
        Some(4)
    } else {
        Some(cap * 2)
    }
}

/// JS slice-range clamp of index `v` into `[0, len]`: a negative index
/// counts from the end.
pub open spec fn clamped_index(v: int, len: int) -> int {
    if v < 0 {
        if len + v > 0 { len + v } else { 0 }
    } else {
        if v < len { v } else { len }
    }
}

/// JS slice-range clamp: a negative index counts from the end; the
/// result is clamped to `[0, len]`.
pub fn clamp_index(v: i32, len: usize) -> (r: usize)
    ensures
        r == clamped_index(v as int, len as int),
{
    if v < 0 {
        let back = (-(v as i64)) as usize;
        if back < len { len - back } else { 0 }
    } else {
        let v = v as usize;
        if v < len { v } else { len }
    }
}

} // verus!

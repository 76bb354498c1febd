//! Shared JSON support for `JSON.stringify` and `JSON.parse`.
//!
//! The compiler emits traversal for one exact static type. This module
//! owns the representation-independent behavior: output assembly and
//! escaping, exact integer conversion of JSON decimal text, and a
//! transient syntax tree for parsing.
use vstd::prelude::*;

pub mod builders;
pub mod escape;
pub mod numbers;
pub mod parser;

pub use builders::{lemma_leave_undoes_visit, JsonBuilders, Visit};
pub use escape::append_quoted;
pub use numbers::{decimal_exponent, exact_integer, integer_value};
pub use parser::JsonParsers;

verus! {


/// Stable kind tag of a parsed `null`.
pub const KIND_NULL: u32 = 0;
/// Stable kind tag of a parsed boolean.
pub const KIND_BOOL: u32 = 1;
/// Stable kind tag of a parsed number.
pub const KIND_NUMBER: u32 = 2;
/// Stable kind tag of a parsed string.
pub const KIND_STRING: u32 = 3;
/// Stable kind tag of a parsed array.
pub const KIND_ARRAY: u32 = 4;
/// Stable kind tag of a parsed object.
pub const KIND_OBJECT: u32 = 5;

/// Numeric target tag: `i8`.
pub const NUMBER_I8: u32 = 0;
/// Numeric target tag: `u8`.
pub const NUMBER_U8: u32 = 1;
/// Numeric target tag: `i16`.
pub const NUMBER_I16: u32 = 2;
/// Numeric target tag: `u16`.
pub const NUMBER_U16: u32 = 3;
/// Numeric target tag: `i32`.
pub const NUMBER_I32: u32 = 4;
/// Numeric target tag: `u32`.
pub const NUMBER_U32: u32 = 5;
/// Numeric target tag: `i64`.
pub const NUMBER_I64: u32 = 6;
/// Numeric target tag: `u64`.
pub const NUMBER_U64: u32 = 7;
/// Numeric target tag: binary32.
pub const NUMBER_F32: u32 = 8;
/// Numeric target tag: binary64.
pub const NUMBER_F64: u32 = 9;

/// Maximum number of nested JSON arrays/objects accepted from input. A
/// scalar at the root has depth zero.
pub const MAX_JSON_DEPTH: usize = 128;

} // verus!

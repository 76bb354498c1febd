//! Subscript runtime support: calendar arithmetic, integer formatting,
//! binary16 storage conversion, JSON assembly and parsing, the `Map` /
//! `Set` container and its set algebra, and the ABI codes and layout
//! rules shared with the compiler.
use vstd::prelude::*;

pub mod arrops;
pub mod assocops;
pub mod context;
pub mod date;
pub mod fmt;
pub mod half;
pub mod json;
pub mod strings;
pub mod text;

verus! {

} // verus!

//! Parsing JSON text into a transient document of numbered nodes.
//!
//! A document is the list of its nodes in the order their values end:
//! every array element and object member comes before the array or
//! object holding it. Node handles are 1-based positions in that list;
//! zero is reserved for a missing object field.
use vstd::prelude::*;
use vstd::string::StringSliceAdditionalSpecFns;
use vstd::utf8::{decode_utf8, encode_scalar, valid_utf8};

use std::collections::HashMap;

use super::escape::{escape_byte, escaped, hex_digit, quoted};
use super::numbers::{
    dot_index, exact_integer_of, exponent_marker, fraction_len_of, integer_of, integer_value,
    mantissa_of, mantissa_ok, mantissa_start, without_dots,
};
use super::{
    KIND_ARRAY, KIND_BOOL, KIND_NULL, KIND_NUMBER, KIND_OBJECT, KIND_STRING, MAX_JSON_DEPTH,
    NUMBER_I64, NUMBER_U64,
};
use crate::context::{lemma_utf8_word_is_encoding, utf8_len_of, utf8_word_bytes};
use crate::text::{
    decimal_digits, digits_value, lemma_decimal_digits_value, pow10,
    bytes_equal, signed_decimal, string_from_utf8,
};

verus! {

broadcast use vstd::std_specs::hash::group_hash_axioms;

// ----- the grammar -----

/// What one parsed node holds: strings as characters, numbers as their
/// decimal text, arrays and objects as the handles of their parts.
pub enum NodeView {
    Null,
    Bool(bool),
    Number(Seq<u8>),
    Str(Seq<char>),
    Array(Seq<u64>),
    Object(Seq<(Seq<char>, u64)>),
}

/// JSON insignificant whitespace.
pub open spec fn is_ws(c: u8) -> bool {
    c == 0x20 || c == 0x09 || c == 0x0a || c == 0x0d
}

/// The first index at or after `i` that is not whitespace.
pub open spec fn ws_end(b: Seq<u8>, i: int) -> int
    decreases b.len() - i,
{
    if 0 <= i < b.len() && is_ws(b[i]) {
        ws_end(b, i + 1)
    } else {
        i
    }
}

/// Skipping whitespace moves forward and stays within the text.
pub proof fn lemma_ws_end(b: Seq<u8>, i: int)
    ensures
        i <= ws_end(b, i),
        i <= b.len() ==> ws_end(b, i) <= b.len(),
        forall|q: int| i <= q < ws_end(b, i) ==> is_ws(#[trigger] b[q]),
        0 <= ws_end(b, i) < b.len() ==> !is_ws(b[ws_end(b, i)]),
    decreases b.len() - i,
{
    if 0 <= i < b.len() && is_ws(b[i]) {
        lemma_ws_end(b, i + 1);
    }
}

/// An ASCII decimal digit.
pub open spec fn is_digit(c: u8) -> bool {
    48 <= c <= 57
}

/// The first index at or after `i` that is not a decimal digit.
pub open spec fn digits_end(b: Seq<u8>, i: int) -> int
    decreases b.len() - i,
{
    if 0 <= i < b.len() && is_digit(b[i]) {
        digits_end(b, i + 1)
    } else {
        i
    }
}

/// The end of the JSON number starting at `i`: an optional `-`, `0` or a
/// digit string without a leading zero, an optional fraction of at
/// least one digit, and an optional exponent of at least one digit.
pub open spec fn number_end(b: Seq<u8>, i: int) -> Option<int> {
    let a = if 0 <= i < b.len() && b[i] == 45 { i + 1 } else { i };
    if a < 0 || a >= b.len() {
        None
    } else {
        let after_int = if b[a] == 48 {
            if a + 1 < b.len() && is_digit(b[a + 1]) { None } else { Some(a + 1) }
        } else if 49 <= b[a] <= 57 {
            Some(digits_end(b, a + 1))
        } else {
            None
        };
        match after_int {
            None => None,
            Some(p) => {
                let after_fraction = if p < b.len() && b[p] == 46 {
                    if digits_end(b, p + 1) == p + 1 { None } else { Some(digits_end(b, p + 1)) }
                } else {
                    Some(p)
                };
                match after_fraction {
                    None => None,
                    Some(q) => if q < b.len() && (b[q] == 101 || b[q] == 69) {
                        let s = if q + 1 < b.len() && (b[q + 1] == 43 || b[q + 1] == 45) {
                            q + 2
                        } else {
                            q + 1
                        };
                        if digits_end(b, s) == s { None } else { Some(digits_end(b, s)) }
                    } else {
                        Some(q)
                    },
                }
            },
        }
    }
}

/// A run of digits moves forward, stays within the text and holds
/// digits only.
pub proof fn lemma_digits_end(b: Seq<u8>, i: int)
    ensures
        i <= digits_end(b, i),
        i <= b.len() ==> digits_end(b, i) <= b.len(),
        forall|q: int| i <= q < digits_end(b, i) ==> is_digit(#[trigger] b[q]),
    decreases b.len() - i,
{
    if 0 <= i < b.len() && is_digit(b[i]) {
        lemma_digits_end(b, i + 1);
    }
}

/// The exponent marker search stops at the first `e` or `E`.
proof fn lemma_marker_at(t: Seq<u8>, i: int, q: int)
    requires
        0 <= i <= q <= t.len(),
        forall|k: int| i <= k < q ==> !(#[trigger] t[k] == 101 || t[k] == 69),
        q == t.len() || t[q] == 101 || t[q] == 69,
    ensures
        exponent_marker(t, i) == q,
    decreases q - i,
{
    if i < q {
        lemma_marker_at(t, i + 1, q);
    }
}

/// The mantissa of a JSON number holds digits and `.` only.
pub proof fn lemma_number_mantissa(b: Seq<u8>, j: int)
    requires
        0 <= j <= b.len(),
        number_end(b, j) is Some,
    ensures
        mantissa_ok(b.subrange(j, number_end(b, j)->0)),
        j < number_end(b, j)->0 <= b.len(),
{
    let e = number_end(b, j)->0;
    let a = if j < b.len() && b[j] == 45 { j + 1 } else { j };
    lemma_digits_end(b, a + 1);
    let p = if b[a] == 48 { a + 1 } else { digits_end(b, a + 1) };
    lemma_digits_end(b, p + 1);
    let q = if p < b.len() && b[p] == 46 { digits_end(b, p + 1) } else { p };
    let s = if q + 1 < b.len() && (b[q + 1] == 43 || b[q + 1] == 45) { q + 2 } else { q + 1 };
    lemma_digits_end(b, s);
    let t = b.subrange(j, e);
    assert(mantissa_start(t) == a - j);
    assert forall|k: int| a <= k < q implies is_digit(#[trigger] b[k]) || b[k] == 46 by {
        if k == a {
        } else if k < p {
        } else if k == p {
        } else {
        }
    }
    lemma_marker_at(t, a - j, q - j);
    assert(mantissa_of(t) =~= b.subrange(a, q));
    assert forall|k: int| 0 <= k < mantissa_of(t).len() implies (48 <= #[trigger] mantissa_of(t)[k] <= 57
        || mantissa_of(t)[k] == 46) by {
        assert(mantissa_of(t)[k] == b[a + k]);
    }
}

/// The value of a hexadecimal digit, if `c` is one.
pub open spec fn hex_value(c: u8) -> Option<int> {
    if 48 <= c <= 57 {
        Some(c - 48)
    } else if 97 <= c <= 102 {
        Some(c - 87)
    } else if 65 <= c <= 70 {
        Some(c - 55)
    } else {
        None
    }
}

/// The code unit spelled by the four hexadecimal digits at `p`.
pub open spec fn hex4(b: Seq<u8>, p: int) -> Option<int> {
    if 0 <= p && p + 4 <= b.len() {
        match (hex_value(b[p]), hex_value(b[p + 1]), hex_value(b[p + 2]), hex_value(b[p + 3])) {
            (Some(a), Some(c), Some(d), Some(e)) => Some(((a * 16 + c) * 16 + d) * 16 + e),
            _ => None,
        }
    } else {
        None
    }
}

/// The scalar of the `\u` escape whose digits start at `p`, and the index
/// after it: a high surrogate must be followed by `\u` and a low
/// surrogate, and a lone low surrogate is refused.
pub open spec fn unicode_escape(b: Seq<u8>, p: int) -> Option<(u32, int)> {
    match hex4(b, p) {
        None => None,
        Some(first) => if 0xd800 <= first <= 0xdbff {
            if p + 6 <= b.len() && b[p + 4] == 92 && b[p + 5] == 117 {
                match hex4(b, p + 6) {
                    Some(second) => if 0xdc00 <= second <= 0xdfff {
                        Some(((0x1_0000 + (first - 0xd800) * 1024 + (second - 0xdc00)) as u32, p + 10))
                    } else {
                        None
                    },
                    None => None,
                }
            } else {
                None
            }
        } else if 0xdc00 <= first <= 0xdfff {
            None
        } else {
            Some((first as u32, p + 4))
        },
    }
}

/// The byte a one-character escape stands for, if `c` names one.
pub open spec fn simple_escape(c: u8) -> Option<u8> {
    if c == 34 {
        Some(34u8)
    } else if c == 92 {
        Some(92u8)
    } else if c == 47 {
        Some(47u8)
    } else if c == 98 {
        Some(8u8)
    } else if c == 102 {
        Some(12u8)
    } else if c == 110 {
        Some(10u8)
    } else if c == 114 {
        Some(13u8)
    } else if c == 116 {
        Some(9u8)
    } else {
        None
    }
}

/// The rest of a string body from `k`, after the UTF-8 bytes `acc`
/// already decoded: the index after the closing quote, and every decoded
/// byte. Escapes decode to the UTF-8 encoding of their scalar; raw C0
/// controls and an unterminated string are refused.
pub open spec fn string_body(b: Seq<u8>, k: int, acc: Seq<u8>) -> Option<(int, Seq<u8>)>
    decreases b.len() - k,
{
    if k < 0 || k >= b.len() {
        None
    } else if b[k] == 34 {
        Some((k + 1, acc))
    } else if b[k] == 92 {
        if k + 1 >= b.len() {
            None
        } else if b[k + 1] == 117 {
            match unicode_escape(b, k + 2) {
                Some((scalar, next)) => string_body(b, next, acc + encode_scalar(scalar)),
                None => None,
            }
        } else {
            match simple_escape(b[k + 1]) {
                Some(c) => string_body(b, k + 2, acc.push(c)),
                None => None,
            }
        }
    } else if b[k] < 0x20 {
        None
    } else {
        string_body(b, k + 1, acc.push(b[k]))
    }
}

/// The string whose opening quote is at `i`: the index after its closing
/// quote and its decoded UTF-8 bytes.
pub open spec fn string_at(b: Seq<u8>, i: int) -> Option<(int, Seq<u8>)> {
    if 0 <= i < b.len() && b[i] == 34 {
        string_body(b, i + 1, Seq::empty())
    } else {
        None
    }
}

/// A string body ends after its start, within the text.
pub proof fn lemma_string_body_end(b: Seq<u8>, k: int, acc: Seq<u8>)
    ensures
        string_body(b, k, acc) matches Some((e, _)) ==> k < e <= b.len(),
    decreases b.len() - k,
{
    if 0 <= k < b.len() && b[k] != 34 {
        if b[k] == 92 {
            if k + 1 < b.len() {
                if b[k + 1] == 117 {
                    if let Some((scalar, next)) = unicode_escape(b, k + 2) {
                        lemma_string_body_end(b, next, acc + encode_scalar(scalar));
                    }
                } else if let Some(c) = simple_escape(b[k + 1]) {
                    lemma_string_body_end(b, k + 2, acc.push(c));
                }
            }
        } else if b[k] >= 0x20 {
            lemma_string_body_end(b, k + 1, acc.push(b[k]));
        }
    }
}

/// `b` holds `word` at `i`.
pub open spec fn word_at(b: Seq<u8>, i: int, word: Seq<u8>) -> bool {
    0 <= i && i + word.len() <= b.len() && b.subrange(i, i + word.len()) == word
}

/// `nodes` with `v` appended, and the handle of `v`.
pub open spec fn pushed(nodes: Seq<NodeView>, v: NodeView) -> (Seq<NodeView>, u64) {
    (nodes.push(v), (nodes.len() + 1) as u64)
}

/// The result of parsing a value: the index after it, the nodes with its
/// nodes appended, and its handle.
pub open spec fn ended(end: int, pushed: (Seq<NodeView>, u64)) -> Option<(int, Seq<NodeView>, u64)> {
    Some((end, pushed.0, pushed.1))
}

/// The value starting at or after `i` (after whitespace) at nesting
/// `depth`, its nodes appended to `nodes`. Arrays and objects nest at
/// most `MAX_JSON_DEPTH` deep.
pub open spec fn value_at(b: Seq<u8>, i: int, depth: int, nodes: Seq<NodeView>) -> Option<
    (int, Seq<NodeView>, u64),
>
    decreases MAX_JSON_DEPTH - depth, b.len() - i, 1int,
{
    let j = ws_end(b, i);
    proof {
        lemma_ws_end(b, i);
    }
    if j < 0 || j >= b.len() {
        None
    } else if b[j] == 110 {
        if word_at(b, j, seq![110u8, 117u8, 108u8, 108u8]) {
            ended(j + 4, pushed(nodes, NodeView::Null))
        } else {
            None
        }
    } else if b[j] == 116 {
        if word_at(b, j, seq![116u8, 114u8, 117u8, 101u8]) {
            ended(j + 4, pushed(nodes, NodeView::Bool(true)))
        } else {
            None
        }
    } else if b[j] == 102 {
        if word_at(b, j, seq![102u8, 97u8, 108u8, 115u8, 101u8]) {
            ended(j + 5, pushed(nodes, NodeView::Bool(false)))
        } else {
            None
        }
    } else if b[j] == 34 {
        match string_at(b, j) {
            Some((e, bytes)) => if valid_utf8(bytes) {
                ended(e, pushed(nodes, NodeView::Str(decode_utf8(bytes))))
            } else {
                None
            },
            None => None,
        }
    } else if b[j] == 91 && depth < MAX_JSON_DEPTH {
        array_at(b, j, depth + 1, nodes)
    } else if b[j] == 123 && depth < MAX_JSON_DEPTH {
        object_at(b, j, depth + 1, nodes)
    } else if b[j] == 45 || is_digit(b[j]) {
        match number_end(b, j) {
            Some(e) => ended(e, pushed(nodes, NodeView::Number(b.subrange(j, e)))),
            None => None,
        }
    } else {
        None
    }
}

/// The array whose `[` is at `j`, its nesting being `depth`.
pub open spec fn array_at(b: Seq<u8>, j: int, depth: int, nodes: Seq<NodeView>) -> Option<
    (int, Seq<NodeView>, u64),
>
    decreases MAX_JSON_DEPTH - depth + 1, b.len() - j, 0int,
{
    let k = ws_end(b, j + 1);
    proof {
        lemma_ws_end(b, j + 1);
    }
    if j < 0 || j >= b.len() {
        None
    } else if k < b.len() && b[k] == 93 {
        ended(k + 1, pushed(nodes, NodeView::Array(Seq::empty())))
    } else {
        elements_at(b, k, depth, nodes, Seq::empty())
    }
}

/// The object whose `{` is at `j`, its nesting being `depth`.
pub open spec fn object_at(b: Seq<u8>, j: int, depth: int, nodes: Seq<NodeView>) -> Option<
    (int, Seq<NodeView>, u64),
>
    decreases MAX_JSON_DEPTH - depth + 1, b.len() - j, 0int,
{
    let k = ws_end(b, j + 1);
    proof {
        lemma_ws_end(b, j + 1);
    }
    if j < 0 || j >= b.len() {
        None
    } else if k < b.len() && b[k] == 125 {
        ended(k + 1, pushed(nodes, NodeView::Object(Seq::empty())))
    } else {
        members_at(b, k, depth, nodes, Seq::empty())
    }
}

/// The rest of an array from its element at `k`, after the elements
/// `parts`. (A value always ends after its start; the check on `e` only
/// makes the recursion evidently finite.)
pub open spec fn elements_at(
    b: Seq<u8>,
    k: int,
    depth: int,
    nodes: Seq<NodeView>,
    parts: Seq<u64>,
) -> Option<(int, Seq<NodeView>, u64)>
    decreases MAX_JSON_DEPTH - depth + 1, b.len() - k, 2int,
{
    if depth < 1 || depth > MAX_JSON_DEPTH {
        None
    } else {
        match value_at(b, k, depth, nodes) {
            None => None,
            Some((e, after, h)) => if e <= k {
                None
            } else {
                let m = ws_end(b, e);
                proof {
                    lemma_ws_end(b, e);
                }
                if m < b.len() && b[m] == 93 {
                    ended(m + 1, pushed(after, NodeView::Array(parts.push(h))))
                } else if m < b.len() && b[m] == 44 {
                    elements_at(b, m + 1, depth, after, parts.push(h))
                } else {
                    None
                }
            },
        }
    }
}

/// The rest of an object from its member at or after `p`, after the
/// members `fields`: a string key, `:`, a value, then `,` or `}`.
pub open spec fn members_at(
    b: Seq<u8>,
    p: int,
    depth: int,
    nodes: Seq<NodeView>,
    fields: Seq<(Seq<char>, u64)>,
) -> Option<(int, Seq<NodeView>, u64)>
    decreases MAX_JSON_DEPTH - depth + 1, b.len() - p, 2int,
{
    let q = ws_end(b, p);
    proof {
        lemma_ws_end(b, p);
        if 0 <= q < b.len() && b[q] == 34 {
            lemma_string_body_end(b, q + 1, Seq::empty());
        }
    }
    if depth < 1 || depth > MAX_JSON_DEPTH {
        None
    } else {
        match string_at(b, q) {
            None => None,
            Some((e1, key)) => {
                let r = ws_end(b, e1);
                proof {
                    lemma_ws_end(b, e1);
                }
                if !valid_utf8(key) || !(r < b.len() && b[r] == 58) {
                    None
                } else {
                    match value_at(b, r + 1, depth, nodes) {
                        None => None,
                        Some((e2, after, h)) => if e2 <= r + 1 {
                            None
                        } else {
                            let s = ws_end(b, e2);
                            proof {
                                lemma_ws_end(b, e2);
                            }
                            let more = fields.push((decode_utf8(key), h));
                            if s < b.len() && b[s] == 125 {
                                ended(s + 1, pushed(after, NodeView::Object(more)))
                            } else if s < b.len() && b[s] == 44 {
                                members_at(b, s + 1, depth, after, more)
                            } else {
                                None
                            }
                        },
                    }
                }
            },
        }
    }
}

/// The document of a complete JSON text: its root handle and nodes.
/// `None` when the text is not exactly one value between whitespace.
pub open spec fn document_of(b: Seq<u8>) -> Option<(u64, Seq<NodeView>)> {
    match value_at(b, ws_end(b, 0), 0, Seq::empty()) {
        Some((e, nodes, root)) => if ws_end(b, e) == b.len() {
            Some((root, nodes))
        } else {
            None
        },
        None => None,
    }
}

// ----- scanning -----

/// The first index at or after `at` that is not whitespace.
fn skip_ws(b: &[u8], at: usize) -> (r: usize)
    requires
        at <= b@.len(),
    ensures
        r == ws_end(b@, at as int),
        at <= r <= b@.len(),
{
    let mut i = at;
    while i < b.len() && (b[i] == 0x20 || b[i] == 0x09 || b[i] == 0x0a || b[i] == 0x0d)
        invariant
            at <= i <= b@.len(),
            ws_end(b@, at as int) == ws_end(b@, i as int),
        decreases b@.len() - i,
    {
        i = i + 1;
    }
    i
}

/// The first index at or after `at` that is not a decimal digit.
fn skip_digits(b: &[u8], at: usize) -> (r: usize)
    requires
        at <= b@.len(),
    ensures
        r == digits_end(b@, at as int),
        at <= r <= b@.len(),
{
    let mut i = at;
    while i < b.len() && 48 <= b[i] && b[i] <= 57
        invariant
            at <= i <= b@.len(),
            digits_end(b@, at as int) == digits_end(b@, i as int),
        decreases b@.len() - i,
    {
        i = i + 1;
    }
    i
}

/// The end of the JSON number starting at `at`.
fn scan_number(b: &[u8], at: usize) -> (r: Option<usize>)
    requires
        at <= b@.len(),
    ensures
        match r {
            Some(e) => number_end(b@, at as int) == Some(e as int) && at < e <= b@.len(),
            None => number_end(b@, at as int) is None,
        },
{
    let n = b.len();
    let a = if at < n && b[at] == 45 { at + 1 } else { at };
    if a >= n {
        return None;
    }
    let p = if b[a] == 48 {
        if a + 1 < n && 48 <= b[a + 1] && b[a + 1] <= 57 {
            return None;
        }
        a + 1
    } else if 49 <= b[a] && b[a] <= 57 {
        skip_digits(b, a + 1)
    } else {
        return None;
    };
    let q = if p < n && b[p] == 46 {
        let f = skip_digits(b, p + 1);
        if f == p + 1 {
            return None;
        }
        f
    } else {
        p
    };
    if q < n && (b[q] == 101 || b[q] == 69) {
        let s = if q + 1 < n && (b[q + 1] == 43 || b[q + 1] == 45) { q + 2 } else { q + 1 };
        let t = skip_digits(b, s);
        if t == s {
            None
        } else {
            Some(t)
        }
    } else {
        Some(q)
    }
}

/// The value of hexadecimal digit `c`.
fn hex_digit_value(c: u8) -> (r: Option<u32>)
    ensures
        match r {
            Some(v) => hex_value(c) == Some(v as int) && v < 16,
            None => hex_value(c) is None,
        },
{
    if 48 <= c && c <= 57 {
        Some((c - 48) as u32)
    } else if 97 <= c && c <= 102 {
        Some((c - 87) as u32)
    } else if 65 <= c && c <= 70 {
        Some((c - 55) as u32)
    } else {
        None
    }
}

/// The code unit spelled by the four hexadecimal digits at `p`.
fn read_hex4(b: &[u8], p: usize) -> (r: Option<u32>)
    ensures
        match r {
            Some(v) => hex4(b@, p as int) == Some(v as int) && v <= 0xffff && p + 4 <= b@.len(),
            None => hex4(b@, p as int) is None,
        },
{
    if p > b.len() || b.len() - p < 4 {
        return None;
    }
    let d0 = match hex_digit_value(b[p]) {
        Some(v) => v,
        None => return None,
    };
    let d1 = match hex_digit_value(b[p + 1]) {
        Some(v) => v,
        None => return None,
    };
    let d2 = match hex_digit_value(b[p + 2]) {
        Some(v) => v,
        None => return None,
    };
    let d3 = match hex_digit_value(b[p + 3]) {
        Some(v) => v,
        None => return None,
    };
    Some(((d0 * 16 + d1) * 16 + d2) * 16 + d3)
}

/// The scalar of the `\u` escape whose digits start at `p`, and the
/// index after it.
fn read_unicode_escape(b: &[u8], p: usize) -> (r: Option<(u32, usize)>)
    requires
        p <= b@.len(),
    ensures
        match r {
            Some((scalar, next)) => unicode_escape(b@, p as int) == Some((scalar, next as int))
                && p < next <= b@.len() && vstd::utf8::is_scalar(scalar),
            None => unicode_escape(b@, p as int) is None,
        },
{
    let read = read_hex4(b, p);
    let first = match read {
        Some(v) => v,
        None => return None,
    };
    let n = b.len();
    assert(p + 4 <= n);
    if 0xd800 <= first && first <= 0xdbff {
        if b.len() - p >= 6 && b[p + 4] == 92 && b[p + 5] == 117 {
            match read_hex4(b, p + 6) {
                Some(second) => if 0xdc00 <= second && second <= 0xdfff {
                    Some((0x1_0000 + (first - 0xd800) * 1024 + (second - 0xdc00), p + 10))
                } else {
                    None
                },
                None => None,
            }
        } else {
            None
        }
    } else if 0xdc00 <= first && first <= 0xdfff {
        None
    } else {
        Some((first, p + 4))
    }
}

/// Appends the UTF-8 encoding of `scalar`.
fn push_scalar(out: &mut Vec<u8>, scalar: u32)
    requires
        vstd::utf8::is_scalar(scalar),
    ensures
        final(out)@ == old(out)@ + encode_scalar(scalar),
{
    let ghost w = utf8_word_bytes(scalar);
    proof {
        lemma_utf8_word_is_encoding(scalar);
    }
    if scalar <= 0x7f {
        out.push(scalar as u8);
    } else if scalar <= 0x7ff {
        out.push((0xc0 | (scalar >> 6)) as u8);
        out.push((0x80 | (scalar & 0x3f)) as u8);
    } else if scalar <= 0xffff {
        out.push((0xe0 | (scalar >> 12)) as u8);
        out.push((0x80 | ((scalar >> 6) & 0x3f)) as u8);
        out.push((0x80 | (scalar & 0x3f)) as u8);
    } else {
        out.push((0xf0 | (scalar >> 18)) as u8);
        out.push((0x80 | ((scalar >> 12) & 0x3f)) as u8);
        out.push((0x80 | ((scalar >> 6) & 0x3f)) as u8);
        out.push((0x80 | (scalar & 0x3f)) as u8);
    }
    proof {
        assert(final(out)@ =~= old(out)@ + w.subrange(0, utf8_len_of(scalar)));
    }
}

/// The string whose opening quote is at `at`: the index after its
/// closing quote and its decoded UTF-8 bytes.
fn scan_string(b: &[u8], at: usize) -> (r: Option<(usize, Vec<u8>)>)
    requires
        at <= b@.len(),
    ensures
        match r {
            Some((e, bytes)) => string_at(b@, at as int) == Some((e as int, bytes@)) && at < e
                <= b@.len(),
            None => string_at(b@, at as int) is None,
        },
{
    if at >= b.len() || b[at] != 34 {
        return None;
    }
    let mut out: Vec<u8> = Vec::new();
    let mut k = at + 1;
    while k < b.len()
        invariant
            at < k <= b@.len(),
            string_at(b@, at as int) == string_body(b@, k as int, out@),
        decreases b@.len() - k,
    {
        let c = b[k];
        if c == 34 {
            return Some((k + 1, out));
        } else if c == 92 {
            if k + 1 >= b.len() {
                return None;
            }
            let e = b[k + 1];
            if e == 117 {
                match read_unicode_escape(b, k + 2) {
                    Some((scalar, next)) => {
                        push_scalar(&mut out, scalar);
                        k = next;
                    },
                    None => return None,
                }
            } else {
                let d: u8 = if e == 34 {
                    34
                } else if e == 92 {
                    92
                } else if e == 47 {
                    47
                } else if e == 98 {
                    8
                } else if e == 102 {
                    12
                } else if e == 110 {
                    10
                } else if e == 114 {
                    13
                } else if e == 116 {
                    9
                } else {
                    return None;
                };
                out.push(d);
                k = k + 2;
            }
        } else if c < 0x20 {
            return None;
        } else {
            out.push(c);
            k = k + 1;
        }
    }
    None
}

// ----- building the nodes -----

/// One node of a parsed document.
enum JsonValue {
    Null,
    Bool(bool),
    Number(Vec<u8>),
    Str(String),
    Array(Vec<u64>),
    Object(Vec<(String, u64)>),
}

/// The characters and handles of object fields.
spec fn fields_view(fields: Seq<(String, u64)>) -> Seq<(Seq<char>, u64)> {
    fields.map_values(|f: (String, u64)| (f.0@, f.1))
}

impl View for JsonValue {
    type V = NodeView;

    closed spec fn view(&self) -> NodeView {
        match self {
            JsonValue::Null => NodeView::Null,
            JsonValue::Bool(v) => NodeView::Bool(*v),
            JsonValue::Number(t) => NodeView::Number(t@),
            JsonValue::Str(s) => NodeView::Str(s@),
            JsonValue::Array(parts) => NodeView::Array(parts@),
            JsonValue::Object(fields) => NodeView::Object(fields_view(fields@)),
        }
    }
}

/// What the nodes hold.
spec fn node_views(values: Seq<JsonValue>) -> Seq<NodeView> {
    values.map_values(|v: JsonValue| v@)
}

/// A node the numeric conversions accept: a number's mantissa holds
/// digits and `.` only.
pub open spec fn node_ok(n: NodeView) -> bool {
    n matches NodeView::Number(t) ==> mantissa_ok(t)
}

/// Every node is accepted by the numeric conversions.
pub open spec fn nodes_ok(nodes: Seq<NodeView>) -> bool {
    forall|i: int| 0 <= i < nodes.len() ==> node_ok(#[trigger] nodes[i])
}

/// Appends a node and returns its handle.
fn push_node(values: &mut Vec<JsonValue>, v: JsonValue) -> (h: u64)
    requires
        nodes_ok(node_views(old(values)@)),
        node_ok(v@),
    ensures
        node_views(final(values)@) == pushed(node_views(old(values)@), v@).0,
        h == pushed(node_views(old(values)@), v@).1,
        nodes_ok(node_views(final(values)@)),
{
    values.push(v);
    proof {
        assert(node_views(final(values)@) =~= node_views(old(values)@).push(v@));
    }
    values.len() as u64
}

/// A copy of `b[from..to]`.
fn copy_range(b: &[u8], from: usize, to: usize) -> (r: Vec<u8>)
    requires
        from <= to <= b@.len(),
    ensures
        r@ == b@.subrange(from as int, to as int),
{
    let mut out: Vec<u8> = Vec::new();
    let mut k = from;
    while k < to
        invariant
            from <= k <= to <= b@.len(),
            out@ == b@.subrange(from as int, k as int),
        decreases to - k,
    {
        out.push(b[k]);
        k = k + 1;
        proof {
            assert(out@ =~= b@.subrange(from as int, k as int));
        }
    }
    out
}

/// `b` holds the bytes of `word` at `at`.
fn word_matches(b: &[u8], at: usize, word: &Vec<u8>) -> (r: bool)
    requires
        at <= b@.len(),
    ensures
        r == word_at(b@, at as int, word@),
{
    let n = b.len();
    if n - at < word.len() {
        return false;
    }
    let mut k: usize = 0;
    while k < word.len()
        invariant
            k <= word@.len(),
            at + word@.len() <= n,
            n == b@.len(),
            forall|q: int| 0 <= q < k ==> b@[at + q] == #[trigger] word@[q],
        decreases word@.len() - k,
    {
        if b[at + k] != word[k] {
            proof {
                assert(b@.subrange(at as int, at + word@.len())[k as int] != word@[k as int]);
            }
            return false;
        }
        k = k + 1;
    }
    proof {
        assert(b@.subrange(at as int, at + word@.len()) =~= word@);
    }
    true
}

/// Parses the value at or after `at` (after whitespace) at nesting
/// `depth`, appending its nodes; returns the index after it and its
/// handle.
fn parse_value(b: &[u8], at: usize, depth: usize, values: &mut Vec<JsonValue>) -> (r: Option<
    (usize, u64),
>)
    requires
        at <= b@.len(),
        depth <= MAX_JSON_DEPTH,
        nodes_ok(node_views(old(values)@)),
    ensures
        nodes_ok(node_views(final(values)@)),
        match r {
            Some((e, h)) => value_at(b@, at as int, depth as int, node_views(old(values)@)) == Some(
                (e as int, node_views(final(values)@), h),
            ) && at < e <= b@.len(),
            None => value_at(b@, at as int, depth as int, node_views(old(values)@)) is None,
        },
    decreases MAX_JSON_DEPTH - depth, 0nat,
{
    let ghost ns = node_views(values@);
    let j = skip_ws(b, at);
    proof {
        lemma_ws_end(b@, at as int);
    }
    if j >= b.len() {
        return None;
    }
    let c = b[j];
    if c == 110 {
        let word = vec![110u8, 117, 108, 108];
        if word_matches(b, j, &word) {
            assert(word@ == seq![110u8, 117u8, 108u8, 108u8]);
            let h = push_node(values, JsonValue::Null);
            Some((j + 4, h))
        } else {
            assert(word@ == seq![110u8, 117u8, 108u8, 108u8]);
            None
        }
    } else if c == 116 {
        let word = vec![116u8, 114, 117, 101];
        if word_matches(b, j, &word) {
            assert(word@ == seq![116u8, 114u8, 117u8, 101u8]);
            let h = push_node(values, JsonValue::Bool(true));
            Some((j + 4, h))
        } else {
            assert(word@ == seq![116u8, 114u8, 117u8, 101u8]);
            None
        }
    } else if c == 102 {
        let word = vec![102u8, 97, 108, 115, 101];
        if word_matches(b, j, &word) {
            assert(word@ == seq![102u8, 97u8, 108u8, 115u8, 101u8]);
            let h = push_node(values, JsonValue::Bool(false));
            Some((j + 5, h))
        } else {
            assert(word@ == seq![102u8, 97u8, 108u8, 115u8, 101u8]);
            None
        }
    } else if c == 34 {
        match scan_string(b, j) {
            Some((e, bytes)) => {
                let ghost raw = bytes@;
                match string_from_utf8(bytes) {
                    Some(text) => {
                        let h = push_node(values, JsonValue::Str(text));
                        Some((e, h))
                    },
                    None => None,
                }
            },
            None => None,
        }
    } else if c == 91 && depth < MAX_JSON_DEPTH {
        parse_array(b, j, depth + 1, values)
    } else if c == 123 && depth < MAX_JSON_DEPTH {
        parse_object(b, j, depth + 1, values)
    } else if c == 45 || (48 <= c && c <= 57) {
        match scan_number(b, j) {
            Some(e) => {
                let text = copy_range(b, j, e);
                proof {
                    lemma_number_mantissa(b@, j as int);
                }
                let h = push_node(values, JsonValue::Number(text));
                Some((e, h))
            },
            None => None,
        }
    } else {
        None
    }
}

/// Parses the array whose `[` is at `j`, at nesting `depth`.
fn parse_array(b: &[u8], j: usize, depth: usize, values: &mut Vec<JsonValue>) -> (r: Option<
    (usize, u64),
>)
    requires
        j < b@.len(),
        1 <= depth <= MAX_JSON_DEPTH,
        nodes_ok(node_views(old(values)@)),
    ensures
        nodes_ok(node_views(final(values)@)),
        match r {
            Some((e, h)) => array_at(b@, j as int, depth as int, node_views(old(values)@)) == Some(
                (e as int, node_views(final(values)@), h),
            ) && j < e <= b@.len(),
            None => array_at(b@, j as int, depth as int, node_views(old(values)@)) is None,
        },
    decreases MAX_JSON_DEPTH - depth, 1nat,
{
    let n = b.len();
    let first = skip_ws(b, j + 1);
    if first < n && b[first] == 93 {
        let h = push_node(values, JsonValue::Array(Vec::new()));
        return Some((first + 1, h));
    }
    let mut parts: Vec<u64> = Vec::new();
    let mut k = first;
    loop
        invariant
            j < k <= n,
            n == b@.len(),
            1 <= depth <= MAX_JSON_DEPTH,
            nodes_ok(node_views(values@)),
            array_at(b@, j as int, depth as int, node_views(old(values)@)) == elements_at(
                b@,
                k as int,
                depth as int,
                node_views(values@),
                parts@,
            ),
        decreases n - k,
    {
        match parse_value(b, k, depth, values) {
            None => return None,
            Some((e, h)) => {
                let m = skip_ws(b, e);
                parts.push(h);
                if m < n && b[m] == 93 {
                    let a = push_node(values, JsonValue::Array(parts));
                    return Some((m + 1, a));
                } else if m < n && b[m] == 44 {
                    k = m + 1;
                } else {
                    return None;
                }
            },
        }
    }
}

/// Parses the object whose `{` is at `j`, at nesting `depth`.
fn parse_object(b: &[u8], j: usize, depth: usize, values: &mut Vec<JsonValue>) -> (r: Option<
    (usize, u64),
>)
    requires
        j < b@.len(),
        1 <= depth <= MAX_JSON_DEPTH,
        nodes_ok(node_views(old(values)@)),
    ensures
        nodes_ok(node_views(final(values)@)),
        match r {
            Some((e, h)) => object_at(b@, j as int, depth as int, node_views(old(values)@)) == Some(
                (e as int, node_views(final(values)@), h),
            ) && j < e <= b@.len(),
            None => object_at(b@, j as int, depth as int, node_views(old(values)@)) is None,
        },
    decreases MAX_JSON_DEPTH - depth, 1nat,
{
    let n = b.len();
    let first = skip_ws(b, j + 1);
    if first < n && b[first] == 125 {
        let h = push_node(values, JsonValue::Object(Vec::new()));
        proof {
            assert(fields_view(Seq::<(String, u64)>::empty()) =~= Seq::empty());
        }
        return Some((first + 1, h));
    }
    let mut fields: Vec<(String, u64)> = Vec::new();
    let mut p = first;
    proof {
        assert(fields_view(fields@) =~= Seq::empty());
    }
    loop
        invariant
            j < p <= n,
            n == b@.len(),
            1 <= depth <= MAX_JSON_DEPTH,
            nodes_ok(node_views(values@)),
            object_at(b@, j as int, depth as int, node_views(old(values)@)) == members_at(
                b@,
                p as int,
                depth as int,
                node_views(values@),
                fields_view(fields@),
            ),
        decreases n - p,
    {
        let q = skip_ws(b, p);
        let (e1, key_bytes) = match scan_string(b, q) {
            Some(found) => found,
            None => return None,
        };
        let key = match string_from_utf8(key_bytes) {
            Some(key) => key,
            None => return None,
        };
        let r = skip_ws(b, e1);
        if !(r < n && b[r] == 58) {
            return None;
        }
        let (e2, h) = match parse_value(b, r + 1, depth, values) {
            Some(found) => found,
            None => return None,
        };
        let s = skip_ws(b, e2);
        let ghost before = fields_view(fields@);
        fields.push((key, h));
        proof {
            assert(fields_view(fields@) =~= before.push((key@, h)));
        }
        if s < n && b[s] == 125 {
            let o = push_node(values, JsonValue::Object(fields));
            return Some((s + 1, o));
        } else if s < n && b[s] == 44 {
            p = s + 1;
        } else {
            return None;
        }
    }
}

/// A parsed document: its root handle and its nodes.
struct JsonDocument {
    root: u64,
    values: Vec<JsonValue>,
}

/// Parses one complete JSON text.
fn parse_document(b: &[u8]) -> (r: Option<JsonDocument>)
    ensures
        match r {
            Some(d) => document_of(b@) == Some((d.root, node_views(d.values@))) && nodes_ok(
                node_views(d.values@),
            ),
            None => document_of(b@) is None,
        },
{
    let mut values: Vec<JsonValue> = Vec::new();
    proof {
        assert(node_views(values@) =~= Seq::empty());
    }
    let start = skip_ws(b, 0);
    match parse_value(b, start, 0, &mut values) {
        None => None,
        Some((e, root)) => {
            let end = skip_ws(b, e);
            if end == b.len() {
                Some(JsonDocument { root, values })
            } else {
                None
            }
        },
    }
}

/// The kind tag of a node.
pub open spec fn kind_of(n: NodeView) -> u32 {
    match n {
        NodeView::Null => KIND_NULL,
        NodeView::Bool(_) => KIND_BOOL,
        NodeView::Number(_) => KIND_NUMBER,
        NodeView::Str(_) => KIND_STRING,
        NodeView::Array(_) => KIND_ARRAY,
        NodeView::Object(_) => KIND_OBJECT,
    }
}

/// The handle of the last field named `key`, or zero when there is none:
/// a duplicate key takes its last occurrence.
pub open spec fn last_field(fields: Seq<(Seq<char>, u64)>, key: Seq<char>) -> u64
    decreases fields.len(),
{
    if fields.len() == 0 {
        0
    } else if fields.last().0 == key {
        fields.last().1
    } else {
        last_field(fields.drop_last(), key)
    }
}

/// Context-owned transient parsed documents. Malformed input creates
/// no document.
pub struct JsonParsers {
    next: u64,
    documents: HashMap<u64, JsonDocument>,
}

impl JsonParsers {
    /// The last parser id handed out (zero before the first).
    pub closed spec fn last_id(&self) -> u64 {
        self.next
    }

    /// Each live document by parser id: its root handle and its nodes.
    pub closed spec fn docs(&self) -> Map<u64, (u64, Seq<NodeView>)> {
        self.documents@.map_values(|d: JsonDocument| (d.root, node_views(d.values@)))
    }

    /// Every live document has an id already handed out, and its numbers
    /// are accepted by the numeric conversions.
    pub closed spec fn wf(&self) -> bool {
        forall|id: u64| #[trigger]
            self.documents@.contains_key(id) ==> 1 <= id <= self.next && nodes_ok(
                node_views(self.documents@[id].values@),
            )
    }

    /// The node with 1-based handle `node` of document `parser`.
    pub open spec fn node(&self, parser: u64, node: u64) -> Option<NodeView> {
        if self.docs().contains_key(parser) && 1 <= node <= self.docs()[parser].1.len() {
            Some(self.docs()[parser].1[node - 1])
        } else {
            None
        }
    }

    /// No document, no id handed out.
    pub fn new() -> (r: JsonParsers)
        ensures
            r.wf(),
            r.last_id() == 0,
            r.docs() == Map::<u64, (u64, Seq<NodeView>)>::empty(),
    {
        let r = JsonParsers { next: 0, documents: HashMap::new() };
        proof {
            assert(r.docs() =~= Map::<u64, (u64, Seq<NodeView>)>::empty());
        }
        r
    }

    /// Parses one complete JSON text into a new document and returns its
    /// id. Malformed input (or an exhausted id space) returns zero and
    /// creates no document.
    pub fn begin(&mut self, bytes: &[u8]) -> (r: u64)
        requires
            old(self).wf(),
        ensures
            final(self).wf(),
            match document_of(bytes@) {
                Some(doc) => if old(self).last_id() < u64::MAX {
                    &&& r == old(self).last_id() + 1
                    &&& final(self).last_id() == r
                    &&& final(self).docs() == old(self).docs().insert(r, doc)
                } else {
                    r == 0 && final(self).docs() == old(self).docs() && final(self).last_id()
                        == old(self).last_id()
                },
                None => r == 0 && final(self).docs() == old(self).docs() && final(self).last_id()
                    == old(self).last_id(),
            },
    {
        let document = match parse_document(bytes) {
            Some(d) => d,
            None => return 0,
        };
        if self.next == u64::MAX {
            return 0;
        }
        self.next = self.next + 1;
        let id = self.next;
        let ghost doc = (document.root, node_views(document.values@));
        self.documents.insert(id, document);
        proof {
            assert(self.docs() =~= old(self).docs().insert(id, doc));
        }
        id
    }

    /// Drops one document; false when `parser` names none.
    pub fn finish(&mut self, parser: u64) -> (r: bool)
        requires
            old(self).wf(),
        ensures
            final(self).wf(),
            r == old(self).docs().contains_key(parser),
            final(self).docs() == old(self).docs().remove(parser),
            final(self).last_id() == old(self).last_id(),
    {
        let removed = self.documents.remove(&parser);
        proof {
            assert(self.docs() =~= old(self).docs().remove(parser));
        }
        removed.is_some()
    }

    /// Drops every document; ids keep counting.
    pub fn clear(&mut self)
        requires
            old(self).wf(),
        ensures
            final(self).wf(),
            final(self).docs() == Map::<u64, (u64, Seq<NodeView>)>::empty(),
            final(self).last_id() == old(self).last_id(),
    {
        self.documents.clear();
        proof {
            assert(self.docs() =~= Map::<u64, (u64, Seq<NodeView>)>::empty());
        }
    }

    /// The root handle of document `parser`.
    pub fn root(&self, parser: u64) -> (r: Option<u64>)
        ensures
            r == if self.docs().contains_key(parser) {
                Some(self.docs()[parser].0)
            } else {
                None::<u64>
            },
    {
        match self.documents.get(&parser) {
            Some(d) => Some(d.root),
            None => None,
        }
    }

    /// The node with handle `node` of document `parser`.
    fn value(&self, parser: u64, node: u64) -> (r: Option<&JsonValue>)
        ensures
            match r {
                Some(v) => self.node(parser, node) == Some(v@) && self.documents@.contains_key(
                    parser,
                ),
                None => self.node(parser, node) is None,
            },
    {
        let d = match self.documents.get(&parser) {
            Some(d) => d,
            None => return None,
        };
        if node == 0 || node - 1 >= d.values.len() as u64 {
            return None;
        }
        let index = (node - 1) as usize;
        Some(&d.values[index])
    }

    /// Whether the node has kind tag `kind`; `None` for a missing node.
    pub fn is_kind(&self, parser: u64, node: u64, kind: u32) -> (r: Option<bool>)
        ensures
            r == match self.node(parser, node) {
                Some(n) => Some(kind_of(n) == kind),
                None => None::<bool>,
            },
    {
        match self.value(parser, node) {
            Some(v) => Some(
                match v {
                    JsonValue::Null => KIND_NULL,
                    JsonValue::Bool(_) => KIND_BOOL,
                    JsonValue::Number(_) => KIND_NUMBER,
                    JsonValue::Str(_) => KIND_STRING,
                    JsonValue::Array(_) => KIND_ARRAY,
                    JsonValue::Object(_) => KIND_OBJECT,
                } == kind,
            ),
            None => None,
        }
    }

    /// Whether a number node converts exactly to integer target
    /// `target`: `Some(false)` for any other node, `None` for a missing
    /// node.
    pub fn integer_fits(&self, parser: u64, node: u64, target: u32) -> (r: Option<bool>)
        requires
            self.wf(),
        ensures
            r == match self.node(parser, node) {
                Some(NodeView::Number(t)) => Some(integer_of(t, target) is Some),
                Some(_) => Some(false),
                None => None::<bool>,
            },
    {
        match self.value(parser, node) {
            Some(JsonValue::Number(text)) => {
                proof {
                    self.lemma_number_ok(parser, node);
                }
                Some(integer_value(text.as_slice(), target).is_some())
            },
            Some(_) => Some(false),
            None => None,
        }
    }

    /// The exact integer a number node denotes at integer target
    /// `target`, as two's-complement bits; `None` for any other node or
    /// when the number is not an integer of that target.
    pub fn integer(&self, parser: u64, node: u64, target: u32) -> (r: Option<u64>)
        requires
            self.wf(),
        ensures
            r == match self.node(parser, node) {
                Some(NodeView::Number(t)) => integer_of(t, target),
                _ => None::<u64>,
            },
    {
        match self.value(parser, node) {
            Some(JsonValue::Number(text)) => {
                proof {
                    self.lemma_number_ok(parser, node);
                }
                integer_value(text.as_slice(), target)
            },
            _ => None,
        }
    }

    /// A live number node's text is accepted by the conversions.
    proof fn lemma_number_ok(&self, parser: u64, node: u64)
        requires
            self.wf(),
            self.node(parser, node) is Some,
        ensures
            self.node(parser, node) matches Some(NodeView::Number(t)) ==> super::numbers::mantissa_ok(t),
    {
        assert(self.documents@.contains_key(parser));
        let ns = node_views(self.documents@[parser].values@);
        assert(node_ok(ns[node - 1]));
    }

    /// The decimal text of a number node.
    pub fn number_text(&self, parser: u64, node: u64) -> (r: Option<&[u8]>)
        ensures
            match r {
                Some(t) => self.node(parser, node) == Some(NodeView::Number(t@)),
                None => !(self.node(parser, node) matches Some(NodeView::Number(_))),
            },
    {
        match self.value(parser, node) {
            Some(JsonValue::Number(text)) => Some(text.as_slice()),
            _ => None,
        }
    }

    /// The value of a boolean node.
    pub fn boolean(&self, parser: u64, node: u64) -> (r: Option<bool>)
        ensures
            r == match self.node(parser, node) {
                Some(NodeView::Bool(v)) => Some(v),
                _ => None::<bool>,
            },
    {
        match self.value(parser, node) {
            Some(JsonValue::Bool(v)) => Some(*v),
            _ => None,
        }
    }

    /// The text of a string node.
    pub fn string(&self, parser: u64, node: u64) -> (r: Option<&str>)
        ensures
            match r {
                Some(s) => self.node(parser, node) == Some(NodeView::Str(s@)),
                None => !(self.node(parser, node) matches Some(NodeView::Str(_))),
            },
    {
        match self.value(parser, node) {
            Some(JsonValue::Str(s)) => Some(s.as_str()),
            _ => None,
        }
    }

    /// The number of elements of an array node.
    pub fn array_len(&self, parser: u64, node: u64) -> (r: Option<usize>)
        ensures
            r == match self.node(parser, node) {
                Some(NodeView::Array(parts)) => Some(parts.len() as usize),
                _ => None::<usize>,
            },
    {
        match self.value(parser, node) {
            Some(JsonValue::Array(parts)) => Some(parts.len()),
            _ => None,
        }
    }

    /// The handle of element `index` of an array node.
    pub fn array_get(&self, parser: u64, node: u64, index: usize) -> (r: Option<u64>)
        ensures
            r == match self.node(parser, node) {
                Some(NodeView::Array(parts)) => if index < parts.len() {
                    Some(parts[index as int])
                } else {
                    None::<u64>
                },
                _ => None::<u64>,
            },
    {
        match self.value(parser, node) {
            Some(JsonValue::Array(parts)) => if index < parts.len() {
                Some(parts[index])
            } else {
                None
            },
            _ => None,
        }
    }

    /// The handle of field `key` of an object node, searching from the end
    /// so a duplicate key takes its last occurrence; zero when the object
    /// has no such field, `None` for any other node.
    pub fn object_get(&self, parser: u64, node: u64, key: &str) -> (r: Option<u64>)
        ensures
            r == match self.node(parser, node) {
                Some(NodeView::Object(fields)) => Some(last_field(fields, key@)),
                _ => None::<u64>,
            },
    {
        match self.value(parser, node) {
            Some(JsonValue::Object(fields)) => Some(find_last(fields, key)),
            _ => None,
        }
    }
}

/// The handle of the last field named `key`, zero when none is.
fn find_last(fields: &Vec<(String, u64)>, key: &str) -> (r: u64)
    ensures
        r == last_field(fields_view(fields@), key@),
{
    let wanted = key.as_bytes();
    let mut i = fields.len();
    proof {
        assert(fields@.subrange(0, i as int) =~= fields@);
    }
    while i > 0
        invariant
            i <= fields@.len(),
            wanted@ == key.spec_bytes(),
            last_field(fields_view(fields@), key@) == last_field(fields_view(fields@.subrange(0, i as int)), key@),
        decreases i,
    {
        let ghost prefix = fields_view(fields@.subrange(0, i as int));
        let candidate = fields[i - 1].0.as_str();
        let same = bytes_equal(candidate.as_bytes(), wanted);
        proof {
            assert(prefix.last() == (fields@[i - 1].0@, fields@[i - 1].1));
            vstd::utf8::encode_utf8_decode_utf8(candidate@);
            vstd::utf8::encode_utf8_decode_utf8(key@);
            assert(same == (candidate@ == key@));
            assert(prefix.drop_last() =~= fields_view(fields@.subrange(0, i - 1)));
        }
        if same {
            return fields[i - 1].1;
        }
        i = i - 1;
    }
    proof {
        assert(fields_view(fields@.subrange(0, 0)) =~= Seq::empty());
    }
    0
}

impl Default for JsonParsers {
    fn default() -> (r: JsonParsers)
        ensures
            r.wf(),
            r.last_id() == 0,
            r.docs() == Map::<u64, (u64, Seq<NodeView>)>::empty(),
    {
        JsonParsers::new()
    }
}

// ----- reading back what the builders write -----

/// A lowercase hexadecimal digit reads back as its value.
proof fn lemma_hex_digit_value(d: int)
    requires
        0 <= d < 16,
    ensures
        hex_value(hex_digit(d)) == Some(d),
{
}

/// The string scanner reads the escape of one byte back as that byte.
proof fn lemma_unescape_byte(b: Seq<u8>, k: int, acc: Seq<u8>, x: u8)
    requires
        0 <= k,
        k + escape_byte(x).len() <= b.len(),
        b.subrange(k, k + escape_byte(x).len()) == escape_byte(x),
    ensures
        string_body(b, k, acc) == string_body(b, k + escape_byte(x).len(), acc.push(x)),
{
    let e = escape_byte(x);
    assert(forall|q: int| 0 <= q < e.len() ==> b[k + q] == #[trigger] e[q]) by {
        assert forall|q: int| 0 <= q < e.len() implies b[k + q] == #[trigger] e[q] by {
            assert(b.subrange(k, k + e.len())[q] == b[k + q]);
        }
    }
    if x == 0x22 || x == 0x5c || x == 0x08 || x == 0x09 || x == 0x0a || x == 0x0c || x == 0x0d {
        assert(b[k] == 92 && b[k + 1] == e[1]);
    } else if x < 0x20 {
        let hi = x as int / 16;
        let lo = x as int % 16;
        lemma_hex_digit_value(0);
        lemma_hex_digit_value(hi);
        lemma_hex_digit_value(lo);
        assert(b[k + 2] == hex_digit(0) && b[k + 3] == hex_digit(0));
        assert(b[k + 4] == hex_digit(hi) && b[k + 5] == hex_digit(lo));
        assert(hex4(b, k + 2) == Some(x as int));
        assert(unicode_escape(b, k + 2) == Some((x as u32, k + 6)));
        let scalar = x as u32;
        assert((scalar & 0x7f) as u8 == x) by (bit_vector)
            requires
                scalar == x as u32,
                x < 0x20,
        ;
        assert(encode_scalar(scalar) =~= seq![x]);
        assert(acc + encode_scalar(scalar) =~= acc.push(x));
    } else {
        assert(e[0] == x);
        assert(b[k + 0] == e[0]);
    }
}

/// The string scanner reads the escaped spelling of `s` back as `s`.
proof fn lemma_unescape(b: Seq<u8>, k: int, s: Seq<u8>, acc: Seq<u8>)
    requires
        0 <= k,
        k + escaped(s).len() <= b.len(),
        b.subrange(k, k + escaped(s).len()) == escaped(s),
    ensures
        string_body(b, k, acc) == string_body(b, k + escaped(s).len(), acc + s),
    decreases s.len(),
{
    if s.len() == 0 {
        assert(acc + s =~= acc);
    } else {
        let front = s.drop_last();
        let x = s.last();
        let m = k + escaped(front).len();
        let whole = escaped(s);
        assert(whole == escaped(front) + escape_byte(x));
        assert(whole.subrange(0, escaped(front).len() as int) =~= escaped(front));
        assert(whole.subrange(escaped(front).len() as int, whole.len() as int) =~= escape_byte(x));
        assert(b.subrange(k, m) =~= whole.subrange(0, escaped(front).len() as int));
        lemma_unescape(b, k, front, acc);
        assert(b.subrange(m, m + escape_byte(x).len()) =~= whole.subrange(
            escaped(front).len() as int,
            whole.len() as int,
        ));
        lemma_unescape_byte(b, m, acc + front, x);
        assert((acc + front).push(x) =~= acc + s);
    }
}

/// What the builders write for a string, the string scanner reads back:
/// a quoted string, whatever follows it, scans as exactly its bytes.
pub proof fn lemma_quoted_reads_back(s: Seq<u8>, rest: Seq<u8>)
    ensures
        string_at(quoted(s) + rest, 0) == Some((quoted(s).len() as int, s)),
{
    let b = quoted(s) + rest;
    let n = escaped(s).len() as int;
    assert(b.subrange(1, 1 + n) =~= escaped(s));
    lemma_unescape(b, 1, s, Seq::empty());
    assert(Seq::<u8>::empty() + s =~= s);
    assert(b[1 + n] == 34);
}

/// A quoted UTF-8 string parses as a document of that one string.
pub proof fn lemma_string_round_trip(s: Seq<u8>)
    requires
        valid_utf8(s),
    ensures
        document_of(quoted(s)) == Some((1u64, seq![NodeView::Str(decode_utf8(s))])),
{
    let b = quoted(s);
    lemma_quoted_reads_back(s, Seq::empty());
    assert(quoted(s) + Seq::<u8>::empty() =~= b);
    assert(ws_end(b, 0) == 0);
    assert(ws_end(b, b.len() as int) == b.len());
    assert(Seq::<NodeView>::empty().push(NodeView::Str(decode_utf8(s))) =~= seq![NodeView::Str(decode_utf8(s))]);
}

/// A run of digits that reaches the end of the text ends there.
proof fn lemma_digits_to_end(b: Seq<u8>, i: int)
    requires
        0 <= i <= b.len(),
        forall|q: int| i <= q < b.len() ==> is_digit(#[trigger] b[q]),
    ensures
        digits_end(b, i) == b.len(),
    decreases b.len() - i,
{
    if i < b.len() {
        lemma_digits_to_end(b, i + 1);
    }
}

/// Digits have no `.` to drop.
proof fn lemma_without_dots_of_digits(m: Seq<u8>)
    requires
        forall|q: int| 0 <= q < m.len() ==> is_digit(#[trigger] m[q]),
    ensures
        without_dots(m) == m,
    decreases m.len(),
{
    if m.len() > 0 {
        assert(is_digit(m[m.len() - 1]));
        lemma_without_dots_of_digits(m.drop_last());
        assert(m.drop_last().push(m.last()) =~= m);
    }
}

/// Digits hold no `.`.
proof fn lemma_no_dot_in_digits(m: Seq<u8>, i: int)
    requires
        0 <= i <= m.len(),
        forall|q: int| 0 <= q < m.len() ==> is_digit(#[trigger] m[q]),
    ensures
        dot_index(m, i) == m.len(),
    decreases m.len() - i,
{
    if i < m.len() {
        assert(is_digit(m[i]));
        lemma_no_dot_in_digits(m, i + 1);
    }
}

/// The decimal spelling of an integer below `2^64` in magnitude is one
/// JSON number, denoting exactly that integer.
pub proof fn lemma_decimal_reads_back(v: int)
    requires
        -0x1_0000_0000_0000_0000 < v < 0x1_0000_0000_0000_0000,
    ensures
        number_end(signed_decimal(v), 0) == Some(signed_decimal(v).len() as int),
        exact_integer_of(signed_decimal(v)) == Some((v < 0, if v < 0 { -v } else { v })),
        document_of(signed_decimal(v)) == Some(
            (1u64, seq![NodeView::Number(signed_decimal(v))]),
        ),
{
    let m: nat = if v < 0 { (-v) as nat } else { v as nat };
    let t = signed_decimal(v);
    let d = decimal_digits(m);
    let a: int = if v < 0 { 1 } else { 0 };
    lemma_decimal_digits_value(m);
    assert(t.subrange(a, t.len() as int) =~= d);
    assert forall|q: int| a <= q < t.len() implies is_digit(#[trigger] t[q]) by {
        assert(t[q] == d[q - a]);
    }
    assert(t[a] == d[0]);
    // The number grammar reaches the end of the text.
    lemma_digits_to_end(t, a + 1);
    if m == 0 {
        assert(t.len() == a + 1);
    }
    assert(number_end(t, 0) == Some(t.len() as int));
    // Its exact value.
    assert(mantissa_start(t) == a);
    lemma_marker_at(t, a, t.len() as int);
    assert(mantissa_of(t) =~= d);
    assert forall|q: int| 0 <= q < d.len() implies is_digit(#[trigger] d[q]) by {
        assert(d[q] == t[q + a]);
    }
    lemma_without_dots_of_digits(d);
    lemma_no_dot_in_digits(d, 0);
    assert(fraction_len_of(t) == 0);
    assert(pow10(0) == 1);
    assert(m < pow10(20)) by {
        reveal_with_fuel(pow10, 21);
    }
    assert((t.len() > 0 && t[0] == 45) == (v < 0));
    assert(digits_value(without_dots(mantissa_of(t))) == m);
    assert(exponent_marker(t, mantissa_start(t)) == t.len());
    assert(m * pow10(0) == m);
    assert(super::numbers::scaled_integer(m as int, 0) == Some(m as int));
    assert(exact_integer_of(t) == Some((v < 0, m as int)));
    // The document of the text.
    assert(ws_end(t, 0) == 0);
    assert(ws_end(t, t.len() as int) == t.len());
    assert(t.subrange(0, t.len() as int) =~= t);
    assert(Seq::<NodeView>::empty().push(NodeView::Number(t)) =~= seq![NodeView::Number(t)]);
}

/// An `i64` the builders write reads back exactly: its decimal text is a
/// one-number document whose value at the `i64` target is its bits.
pub proof fn lemma_i64_round_trip(v: i64)
    ensures
        document_of(signed_decimal(v as int)) == Some(
            (1u64, seq![NodeView::Number(signed_decimal(v as int))]),
        ),
        integer_of(signed_decimal(v as int), NUMBER_I64) == Some(v as u64),
{
    lemma_decimal_reads_back(v as int);
    if v < 0 {
        let m = -(v as int);
        assert(((0x1_0000_0000_0000_0000 + v as int) as u64) == v as u64) by (bit_vector);
        assert((0x1_0000_0000_0000_0000 - m) as u64 == v as u64);
    }
}

/// A `u64` the builders write reads back exactly at the `u64` target.
pub proof fn lemma_u64_round_trip(v: u64)
    ensures
        document_of(decimal_digits(v as nat)) == Some(
            (1u64, seq![NodeView::Number(decimal_digits(v as nat))]),
        ),
        integer_of(decimal_digits(v as nat), NUMBER_U64) == Some(v),
{
    lemma_decimal_reads_back(v as int);
    assert(signed_decimal(v as int) == decimal_digits(v as nat));
}

} // verus!

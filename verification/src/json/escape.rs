//! The JSON spelling of a string: quotes, backslashes and C0 controls
//! escaped, every other byte passed through.
use vstd::prelude::*;

verus! {


/// Lowercase hexadecimal digit of `d` (`0 <= d < 16`).
pub open spec fn hex_digit(d: int) -> u8 {
    if d < 10 { (48 + d) as u8 } else { (87 + d) as u8 }
}

/// The JSON spelling of one byte of a UTF-8 string: the quote, the
/// backslash and C0 controls are escaped (short forms where JSON has
/// them, `\u00XX` otherwise); every other byte passes through.
pub open spec fn escape_byte(b: u8) -> Seq<u8> {
    if b == 0x22 {
        seq![0x5cu8, 0x22u8]
    } else if b == 0x5c {
        seq![0x5cu8, 0x5cu8]
    } else if b == 0x08 {
        seq![0x5cu8, 0x62u8]
    } else if b == 0x09 {
        seq![0x5cu8, 0x74u8]
    } else if b == 0x0a {
        seq![0x5cu8, 0x6eu8]
    } else if b == 0x0c {
        seq![0x5cu8, 0x66u8]
    } else if b == 0x0d {
        seq![0x5cu8, 0x72u8]
    } else if b < 0x20 {
        seq![0x5cu8, 0x75u8, 0x30u8, 0x30u8, hex_digit(b as int / 16), hex_digit(b as int % 16)]
    } else {
        seq![b]
    }
}

/// The escaped spelling of `bytes`, byte by byte.
pub open spec fn escaped(bytes: Seq<u8>) -> Seq<u8>
    decreases bytes.len(),
{
    if bytes.len() == 0 {
        Seq::empty()
    } else {
        escaped(bytes.drop_last()) + escape_byte(bytes.last())
    }
}

/// The JSON string literal of `bytes`.
pub open spec fn quoted(bytes: Seq<u8>) -> Seq<u8> {
    seq![0x22u8] + escaped(bytes) + seq![0x22u8]
}

/// Appends the JSON spelling of one byte.
fn push_escaped_byte(output: &mut Vec<u8>, byte: u8)
    ensures
        final(output)@ == old(output)@ + escape_byte(byte),
{
    if byte == 0x22 {
        output.push(0x5c);
        output.push(0x22);
    } else if byte == 0x5c {
        output.push(0x5c);
        output.push(0x5c);
    } else if byte == 0x08 {
        output.push(0x5c);
        output.push(0x62);
    } else if byte == 0x09 {
        output.push(0x5c);
        output.push(0x74);
    } else if byte == 0x0a {
        output.push(0x5c);
        output.push(0x6e);
    } else if byte == 0x0c {
        output.push(0x5c);
        output.push(0x66);
    } else if byte == 0x0d {
        output.push(0x5c);
        output.push(0x72);
    } else if byte < 0x20 {
        output.push(0x5c);
        output.push(0x75);
        output.push(0x30);
        output.push(0x30);
        let hi = byte >> 4;
        let lo = byte & 0x0f;
        proof {
            assert(hi == byte / 16 && lo == byte % 16) by (bit_vector)
                requires
                    hi == byte >> 4,
                    lo == byte & 0x0f,
            ;
        }
        output.push(if hi < 10 { 48 + hi } else { 87 + hi });
        output.push(if lo < 10 { 48 + lo } else { 87 + lo });
    } else {
        output.push(byte);
    }
    proof {
        assert(final(output)@ =~= old(output)@ + escape_byte(byte));
    }
}

/// Appends the JSON string literal of `bytes`: a quote, the escaped
/// bytes, a quote.
pub fn append_quoted(output: &mut Vec<u8>, bytes: &[u8])
    ensures
        final(output)@ == old(output)@ + quoted(bytes@),
{
    let ghost start = output@;
    output.push(0x22);
    let mut i: usize = 0;
    while i < bytes.len()
        invariant
            i <= bytes@.len(),
            output@ == start + seq![0x22u8] + escaped(bytes@.subrange(0, i as int)),
        decreases bytes@.len() - i,
    {
        proof {
            assert(bytes@.subrange(0, i + 1).drop_last() =~= bytes@.subrange(0, i as int));
        }
        push_escaped_byte(output, bytes[i]);
        i = i + 1;
        proof {
            assert(output@ =~= start + seq![0x22u8] + escaped(bytes@.subrange(0, i as int)));
        }
    }
    output.push(0x22);
    proof {
        assert(bytes@.subrange(0, bytes@.len() as int) =~= bytes@);
        assert(final(output)@ =~= old(output)@ + quoted(bytes@));
    }
}

} // verus!

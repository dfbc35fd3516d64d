//! Little-endian primitives of the wire format: `u32` and length-prefixed
//! UTF-8 strings.

use vstd::prelude::*;
use vstd::slice::slice_subrange;
use vstd::string::StringSliceAdditionalSpecFns;
use vstd::utf8::*;

verus! {

/// Failure of an encode or decode step.
#[derive(Debug, Clone, Copy, PartialEq, Eq, Structural)]
pub enum Error {
    /// The input ended before the value was complete.
    EarlyEndOfStream,
    /// The bytes do not form a value of the expected shape.
    Formatting,
    /// Bytes were left over after a complete value.
    LeftOverBytes,
    /// The value has no representation (a length over `u32::MAX`).
    NotRepresentable,
}

/// Four bytes, least significant first.
pub open spec fn u32_le(v: u32) -> Seq<u8> {
    seq![v as u8, (v >> 8u32) as u8, (v >> 16u32) as u8, (v >> 24u32) as u8]
}

/// The `u32` that four little-endian bytes hold.
pub open spec fn u32_of_le(b0: u8, b1: u8, b2: u8, b3: u8) -> u32 {
    (b0 as u32) | ((b1 as u32) << 8u32) | ((b2 as u32) << 16u32) | ((b3 as u32) << 24u32)
}

pub proof fn lemma_u32_le_round_trip(v: u32)
    ensures
        u32_of_le(u32_le(v)[0], u32_le(v)[1], u32_le(v)[2], u32_le(v)[3]) == v,
{
    assert(u32_of_le(v as u8, (v >> 8u32) as u8, (v >> 16u32) as u8, (v >> 24u32) as u8) == v)
        by (bit_vector);
}

/// Reading a `u32` at `pos`, with the position just after it.
pub open spec fn read_u32_spec(b: Seq<u8>, pos: int) -> Result<(u32, int), Error> {
    if pos + 4 > b.len() {
        Err(Error::EarlyEndOfStream)
    } else {
        Ok((u32_of_le(b[pos], b[pos + 1], b[pos + 2], b[pos + 3]), pos + 4))
    }
}

/// The encoding of a string: its UTF-8 byte length as a `u32`, then the bytes.
pub open spec fn string_bytes(s: Seq<char>) -> Seq<u8> {
    u32_le(encode_utf8(s).len() as u32) + encode_utf8(s)
}

/// A string's UTF-8 bytes have a length that a `u32` prefix can carry.
pub open spec fn string_fits(s: Seq<char>) -> bool {
    encode_utf8(s).len() <= u32::MAX
}

/// Reading a length-prefixed string at `pos`, with the position just after it.
pub open spec fn read_string_spec(b: Seq<u8>, pos: int) -> Result<(Seq<char>, int), Error> {
    match read_u32_spec(b, pos) {
        Err(e) => Err(e),
        Ok((n, p)) => if p + n > b.len() {
            Err(Error::EarlyEndOfStream)
        } else if !valid_utf8(b.subrange(p, p + n)) {
            Err(Error::Formatting)
        } else {
            Ok((decode_utf8(b.subrange(p, p + n)), p + n))
        },
    }
}

/// Relies on std::str::from_utf8: it accepts exactly the well-formed UTF-8
/// sequences and views the same bytes as a string.
#[verifier::external_body]
pub(crate) fn str_from_utf8(b: &[u8]) -> (r: Option<&str>)
    ensures
        match r {
            Some(s) => s.spec_bytes() == b@,
            None => !valid_utf8(b@),
        },
{
    std::str::from_utf8(b).ok()
}

/// Appends the four little-endian bytes of `v`.
pub fn write_u32(v: u32, out: &mut Vec<u8>)
    ensures
        final(out)@ == old(out)@ + u32_le(v),
{
    out.push(v as u8);
    out.push((v >> 8u32) as u8);
    out.push((v >> 16u32) as u8);
    out.push((v >> 24u32) as u8);
    assert(final(out)@ =~= old(out)@ + u32_le(v));
}

/// Reads a little-endian `u32` at `pos`.
pub fn read_u32(b: &[u8], pos: usize) -> (r: Result<(u32, usize), Error>)
    ensures
        match read_u32_spec(b@, pos as int) {
            Ok((v, p)) => r matches Ok((u, q)) && u == v && q == p,
            Err(e) => r == Err::<(u32, usize), Error>(e),
        },
{
    if pos > b.len() || b.len() - pos < 4 {
        return Err(Error::EarlyEndOfStream);
    }
    let v = (b[pos] as u32) | ((b[pos + 1] as u32) << 8u32) | ((b[pos + 2] as u32) << 16u32) | ((
    b[pos + 3] as u32) << 24u32);
    Ok((v, pos + 4))
}

/// Appends the length-prefixed UTF-8 encoding of `s`.
pub fn write_string(s: &str, out: &mut Vec<u8>) -> (r: Result<(), Error>)
    ensures
        r is Ok <==> string_fits(s@),
        r is Ok ==> final(out)@ == old(out)@ + string_bytes(s@),
        r is Err ==> final(out)@ == old(out)@,
{
    let bytes = s.as_bytes();
    if bytes.len() > u32::MAX as usize {
        return Err(Error::NotRepresentable);
    }
    write_u32(bytes.len() as u32, out);
    let ghost mid = out@;
    let mut i: usize = 0;
    while i < bytes.len()
        invariant
            0 <= i <= bytes@.len(),
            bytes@ == encode_utf8(s@),
            out@ == mid + bytes@.subrange(0, i as int),
        decreases bytes.len() - i,
    {
        out.push(bytes[i]);
        i += 1;
        assert(out@ =~= mid + bytes@.subrange(0, i as int));
    }
    assert(bytes@.subrange(0, i as int) =~= bytes@);
    assert(final(out)@ =~= old(out)@ + string_bytes(s@));
    Ok(())
}

/// Reads a length-prefixed UTF-8 string at `pos`.
pub fn read_string(b: &[u8], pos: usize) -> (r: Result<(String, usize), Error>)
    ensures
        match read_string_spec(b@, pos as int) {
            Ok((s, p)) => r matches Ok((t, q)) && t@ == s && q == p,
            Err(e) => r == Err::<(String, usize), Error>(e),
        },
{
    let (n, p) = match read_u32(b, pos) {
        Ok(v) => v,
        Err(e) => return Err(e),
    };
    if b.len() - p < n as usize {
        return Err(Error::EarlyEndOfStream);
    }
    let end = p + n as usize;
    let sub = slice_subrange(b, p, end);
    assert(sub@ == b@.subrange(p as int, end as int));
    match str_from_utf8(sub) {
        None => Err(Error::Formatting),
        Some(s) => {
            proof {
                encode_utf8_decode_utf8(s@);
                encode_utf8_valid_utf8(s@);
            }
            let t = s.to_owned();
            assert(t@ == decode_utf8(sub@));
            Ok((t, end))
        },
    }
}

/// Decoding the encoding of a string gives the string back and ends right
/// after it.
pub proof fn lemma_string_round_trip(s: Seq<char>, b: Seq<u8>, pos: int)
    requires
        string_fits(s),
        0 <= pos,
        pos + string_bytes(s).len() <= b.len(),
        b.subrange(pos, pos + string_bytes(s).len()) == string_bytes(s),
    ensures
        read_string_spec(b, pos) == Ok::<(Seq<char>, int), Error>((s, pos + string_bytes(s).len())),
{
    let n = encode_utf8(s).len() as u32;
    let sb = string_bytes(s);
    assert(b[pos] == sb[0] && b[pos + 1] == sb[1] && b[pos + 2] == sb[2] && b[pos + 3] == sb[3]);
    lemma_u32_le_round_trip(n);
    assert(b.subrange(pos + 4, pos + 4 + n) =~= encode_utf8(s)) by {
        assert(sb.subrange(4, 4 + n as int) =~= encode_utf8(s));
        assert(b.subrange(pos + 4, pos + 4 + n) =~= sb.subrange(4, 4 + n as int));
    }
    encode_utf8_valid_utf8(s);
    encode_utf8_decode_utf8(s);
}

} // verus!

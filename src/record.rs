//! Framing of an encoded event: the event's full name as a string, then its
//! fields in declaration order.

use vstd::prelude::*;
use vstd::slice::slice_subrange;
use vstd::utf8::*;
use crate::bytesrepr::{Error, string_bytes, string_fits, read_string_spec, write_string, read_string, str_from_utf8, lemma_string_round_trip};
use crate::order::bytes_eq;

verus! {

/// The prefix that the name of every event carries in its encoding.
pub const EVENT_PREFIX: &'static str = "event_";

/// The characters of the prefix.
pub open spec fn event_prefix() -> Seq<char> {
    seq!['e', 'v', 'e', 'n', 't', '_']
}

/// The full name of an event type: the prefix, then the type's name.
pub open spec fn full_name_spec(name: Seq<char>) -> Seq<char> {
    event_prefix() + name
}

/// The field encodings one after the other.
pub open spec fn concat_fields(fields: Seq<Seq<u8>>) -> Seq<u8>
    decreases fields.len(),
{
    if fields.len() == 0 {
        Seq::empty()
    } else {
        concat_fields(fields.drop_last()) + fields.last()
    }
}

/// The encoding of an event: its full name as a string, then its fields.
pub open spec fn event_bytes_spec(name: Seq<char>, fields: Seq<Seq<u8>>) -> Seq<u8> {
    string_bytes(full_name_spec(name)) + concat_fields(fields)
}

pub proof fn lemma_encode_utf8_concat(a: Seq<char>, b: Seq<char>)
    ensures
        encode_utf8(a + b) == encode_utf8(a) + encode_utf8(b),
    decreases a.len(),
{
    if a.len() == 0 {
        assert(a + b =~= b);
        assert(encode_utf8(a) + encode_utf8(b) =~= encode_utf8(b));
    } else {
        assert((a + b)[0] == a[0]);
        assert((a + b).drop_first() =~= a.drop_first() + b);
        lemma_encode_utf8_concat(a.drop_first(), b);
        assert(encode_utf8(a + b) =~= encode_utf8(a) + encode_utf8(b));
    }
}

/// The full name of the event type `name`: `"event_"` followed by `name`.
pub fn full_name(name: &str) -> (r: String)
    ensures
        r@ == full_name_spec(name@),
{
    proof {
        reveal_strlit("event_");
    }
    let prefix = "event_".as_bytes();
    let tail = name.as_bytes();
    let mut bytes: Vec<u8> = Vec::new();
    let mut i: usize = 0;
    while i < prefix.len()
        invariant
            0 <= i <= prefix@.len(),
            bytes@ == prefix@.subrange(0, i as int),
        decreases prefix.len() - i,
    {
        bytes.push(prefix[i]);
        i += 1;
        assert(bytes@ =~= prefix@.subrange(0, i as int));
    }
    let mut j: usize = 0;
    while j < tail.len()
        invariant
            0 <= j <= tail@.len(),
            prefix@.len() == i,
            bytes@ == prefix@.subrange(0, i as int) + tail@.subrange(0, j as int),
        decreases tail.len() - j,
    {
        bytes.push(tail[j]);
        j += 1;
        assert(bytes@ =~= prefix@.subrange(0, i as int) + tail@.subrange(0, j as int));
    }
    proof {
        assert(prefix@.subrange(0, i as int) =~= prefix@);
        assert(tail@.subrange(0, j as int) =~= tail@);
        lemma_encode_utf8_concat(event_prefix(), name@);
        encode_utf8_valid_utf8(full_name_spec(name@));
        assert("event_"@ == event_prefix());
    }
    match str_from_utf8(bytes.as_slice()) {
        Some(s) => {
            proof {
                encode_utf8_decode_utf8(s@);
                encode_utf8_decode_utf8(full_name_spec(name@));
            }
            s.to_owned()
        },
        None => {
            proof {
                assert(false);
            }
            String::new()
        },
    }
}

/// Encodes an event of type `name` whose fields encode to `fields`, in
/// declaration order.
pub fn event_bytes(name: &str, fields: &Vec<Vec<u8>>) -> (r: Result<Vec<u8>, Error>)
    ensures
        r is Ok <==> string_fits(full_name_spec(name@)),
        r matches Ok(v) ==> v@ == event_bytes_spec(name@, fields@.map_values(|f: Vec<u8>| f@)),
        r is Err ==> r == Err::<Vec<u8>, Error>(Error::NotRepresentable),
{
    let full = full_name(name);
    let mut out: Vec<u8> = Vec::new();
    if write_string(full.as_str(), &mut out).is_err() {
        return Err(Error::NotRepresentable);
    }
    let ghost start = out@;
    let ghost fv = fields@.map_values(|f: Vec<u8>| f@);
    let mut i: usize = 0;
    while i < fields.len()
        invariant
            0 <= i <= fields@.len(),
            fv.len() == fields@.len(),
            fv == fields@.map_values(|f: Vec<u8>| f@),
            out@ == start + concat_fields(fv.subrange(0, i as int)),
        decreases fields.len() - i,
    {
        let f = &fields[i];
        let mut k: usize = 0;
        let ghost before = out@;
        while k < f.len()
            invariant
                0 <= k <= f@.len(),
                out@ == before + f@.subrange(0, k as int),
            decreases f.len() - k,
        {
            out.push(f[k]);
            k += 1;
            assert(out@ =~= before + f@.subrange(0, k as int));
        }
        proof {
            assert(f@.subrange(0, k as int) =~= f@);
            let s = fv.subrange(0, i as int + 1);
            assert(s.drop_last() =~= fv.subrange(0, i as int));
            assert(s.last() == f@);
        }
        assert(out@ =~= start + concat_fields(fv.subrange(0, i as int + 1)));
        i += 1;
    }
    assert(fv.subrange(0, i as int) =~= fv);
    Ok(out)
}

proof fn lemma_concat_prefix_len(v: Seq<Seq<u8>>, k: int)
    requires
        0 <= k <= v.len(),
    ensures
        concat_fields(v.subrange(0, k)).len() <= concat_fields(v).len(),
    decreases v.len() - k,
{
    if k < v.len() {
        lemma_concat_prefix_len(v, k + 1);
        let s = v.subrange(0, k + 1);
        assert(s.drop_last() =~= v.subrange(0, k));
    } else {
        assert(v.subrange(0, k) =~= v);
    }
}

/// The number of bytes that `event_bytes` gives: the encoded full name, plus
/// the length of each field.
pub fn event_serialized_length(name: &str, fields: &Vec<Vec<u8>>) -> (r: usize)
    requires
        event_bytes_spec(name@, fields@.map_values(|f: Vec<u8>| f@)).len() <= usize::MAX,
    ensures
        r == event_bytes_spec(name@, fields@.map_values(|f: Vec<u8>| f@)).len(),
{
    let full = full_name(name);
    let ghost fv = fields@.map_values(|f: Vec<u8>| f@);
    let mut total: usize = 4 + full.as_str().len();
    let mut i: usize = 0;
    while i < fields.len()
        invariant
            0 <= i <= fields@.len(),
            fv.len() == fields@.len(),
            fv == fields@.map_values(|f: Vec<u8>| f@),
            event_bytes_spec(name@, fv).len() <= usize::MAX,
            total == string_bytes(full_name_spec(name@)).len() + concat_fields(fv.subrange(0, i as int)).len(),
        decreases fields.len() - i,
    {
        proof {
            lemma_concat_prefix_len(fv, i as int + 1);
            let s = fv.subrange(0, i as int + 1);
            assert(s.drop_last() =~= fv.subrange(0, i as int));
            assert(s.last() == fields@[i as int]@);
        }
        total = total + fields[i].len();
        i += 1;
    }
    assert(fv.subrange(0, i as int) =~= fv);
    total
}

/// Reads the full name at the front of an encoded event.
pub fn try_full_name_from_bytes(bytes: &[u8]) -> (r: Result<String, Error>)
    ensures
        match read_string_spec(bytes@, 0) {
            Ok((s, _)) => r matches Ok(t) && t@ == s,
            Err(e) => r == Err::<String, Error>(e),
        },
{
    match read_string(bytes, 0) {
        Ok((s, _)) => Ok(s),
        Err(e) => Err(e),
    }
}

/// Reads the name at the front of an encoded event of type `name` and gives
/// the bytes of its fields. A name other than `name`'s full name is a
/// formatting error.
pub fn event_fields<'a>(bytes: &'a [u8], name: &str) -> (r: Result<&'a [u8], Error>)
    ensures
        match read_string_spec(bytes@, 0) {
            Ok((s, p)) => if s == full_name_spec(name@) {
                r matches Ok(rest) && rest@ == bytes@.subrange(p, bytes@.len() as int)
            } else {
                r == Err::<&[u8], Error>(Error::Formatting)
            },
            Err(e) => r == Err::<&[u8], Error>(e),
        },
{
    match read_string(bytes, 0) {
        Ok((s, p)) => {
            let expected = full_name(name);
            let same = bytes_eq(s.as_str().as_bytes(), expected.as_str().as_bytes());
            proof {
                if s@ == expected@ {
                    assert(same);
                } else {
                    encode_utf8_decode_utf8(s@);
                    encode_utf8_decode_utf8(expected@);
                }
            }
            if same {
                Ok(slice_subrange(bytes, p, bytes.len()))
            } else {
                Err(Error::Formatting)
            }
        },
        Err(e) => Err(e),
    }
}

/// Decoding an encoded event: its leading string is the full name
/// `"event_" + name`, and what follows it is exactly the field encodings.
pub proof fn lemma_event_round_trip(name: Seq<char>, fields: Seq<Seq<u8>>)
    requires
        string_fits(full_name_spec(name)),
    ensures
        read_string_spec(event_bytes_spec(name, fields), 0) == Ok::<(Seq<char>, int), Error>(
            (full_name_spec(name), string_bytes(full_name_spec(name)).len() as int),
        ),
        event_bytes_spec(name, fields).subrange(
            string_bytes(full_name_spec(name)).len() as int,
            event_bytes_spec(name, fields).len() as int,
        ) == concat_fields(fields),
{
    let n = full_name_spec(name);
    let b = event_bytes_spec(name, fields);
    assert(b.subrange(0, string_bytes(n).len() as int) =~= string_bytes(n));
    lemma_string_round_trip(n, b, 0);
    assert(b.subrange(string_bytes(n).len() as int, b.len() as int) =~= concat_fields(fields));
}

} // verus!

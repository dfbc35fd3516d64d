//! The recursive type descriptor and its tagged binary codec.

use vstd::prelude::*;
use vstd::slice::slice_subrange;
use crate::bytesrepr::{Error, u32_le, read_u32_spec, lemma_u32_le_round_trip, write_u32, read_u32};

verus! {

/// The shape of a serializable value. The variant set is closed.
#[derive(Debug)]
pub enum CLType {
    Bool,
    I32,
    I64,
    U8,
    U32,
    U64,
    U128,
    U256,
    U512,
    Unit,
    /// A UTF-8 string.
    String,
    Key,
    URef,
    PublicKey,
    /// An optional value of the inner type.
    Option(Box<CLType>),
    /// A list of values of the inner type.
    List(Box<CLType>),
    /// A byte array of fixed length.
    ByteArray(u32),
    /// A result with an ok type and an error type.
    Result { ok: Box<CLType>, err: Box<CLType> },
    /// A map with a key type and a value type.
    Mapping { key: Box<CLType>, value: Box<CLType> },
    Tuple1(Box<CLType>),
    Tuple2(Box<CLType>, Box<CLType>),
    Tuple3(Box<CLType>, Box<CLType>, Box<CLType>),
    /// The catch-all type.
    Any,
}

pub const TAG_BOOL: u8 = 0;
pub const TAG_I32: u8 = 1;
pub const TAG_I64: u8 = 2;
pub const TAG_U8: u8 = 3;
pub const TAG_U32: u8 = 4;
pub const TAG_U64: u8 = 5;
pub const TAG_U128: u8 = 6;
pub const TAG_U256: u8 = 7;
pub const TAG_U512: u8 = 8;
pub const TAG_UNIT: u8 = 9;
pub const TAG_STRING: u8 = 10;
pub const TAG_KEY: u8 = 11;
pub const TAG_UREF: u8 = 12;
pub const TAG_OPTION: u8 = 13;
pub const TAG_LIST: u8 = 14;
pub const TAG_BYTE_ARRAY: u8 = 15;
pub const TAG_RESULT: u8 = 16;
pub const TAG_MAP: u8 = 17;
pub const TAG_TUPLE1: u8 = 18;
pub const TAG_TUPLE2: u8 = 19;
pub const TAG_TUPLE3: u8 = 20;
pub const TAG_ANY: u8 = 21;
pub const TAG_PUBLIC_KEY: u8 = 22;

/// The variant that a one-byte encoding stands for, if the tag is one of a
/// variant without content.
pub open spec fn simple_of_tag(tag: u8) -> Option<CLType> {
    if tag == TAG_BOOL { Some(CLType::Bool) }
    else if tag == TAG_I32 { Some(CLType::I32) }
    else if tag == TAG_I64 { Some(CLType::I64) }
    else if tag == TAG_U8 { Some(CLType::U8) }
    else if tag == TAG_U32 { Some(CLType::U32) }
    else if tag == TAG_U64 { Some(CLType::U64) }
    else if tag == TAG_U128 { Some(CLType::U128) }
    else if tag == TAG_U256 { Some(CLType::U256) }
    else if tag == TAG_U512 { Some(CLType::U512) }
    else if tag == TAG_UNIT { Some(CLType::Unit) }
    else if tag == TAG_STRING { Some(CLType::String) }
    else if tag == TAG_KEY { Some(CLType::Key) }
    else if tag == TAG_UREF { Some(CLType::URef) }
    else if tag == TAG_ANY { Some(CLType::Any) }
    else if tag == TAG_PUBLIC_KEY { Some(CLType::PublicKey) }
    else { None }
}

/// The tagged encoding of a type descriptor.
pub open spec fn encode_spec(t: CLType) -> Seq<u8>
    decreases t,
{
    match t {
        CLType::Bool => seq![TAG_BOOL],
        CLType::I32 => seq![TAG_I32],
        CLType::I64 => seq![TAG_I64],
        CLType::U8 => seq![TAG_U8],
        CLType::U32 => seq![TAG_U32],
        CLType::U64 => seq![TAG_U64],
        CLType::U128 => seq![TAG_U128],
        CLType::U256 => seq![TAG_U256],
        CLType::U512 => seq![TAG_U512],
        CLType::Unit => seq![TAG_UNIT],
        CLType::String => seq![TAG_STRING],
        CLType::Key => seq![TAG_KEY],
        CLType::URef => seq![TAG_UREF],
        CLType::PublicKey => seq![TAG_PUBLIC_KEY],
        CLType::Any => seq![TAG_ANY],
        CLType::Option(i) => seq![TAG_OPTION] + encode_spec(*i),
        CLType::List(i) => seq![TAG_LIST] + encode_spec(*i),
        CLType::ByteArray(n) => seq![TAG_BYTE_ARRAY] + u32_le(n),
        CLType::Result { ok, err } => seq![TAG_RESULT] + encode_spec(*ok) + encode_spec(*err),
        CLType::Mapping { key, value } => seq![TAG_MAP] + encode_spec(*key) + encode_spec(*value),
        CLType::Tuple1(a) => seq![TAG_TUPLE1] + encode_spec(*a),
        CLType::Tuple2(a, b) => seq![TAG_TUPLE2] + encode_spec(*a) + encode_spec(*b),
        CLType::Tuple3(a, b, c) => seq![TAG_TUPLE3] + encode_spec(*a) + encode_spec(*b)
            + encode_spec(*c),
    }
}

/// Decoding a type descriptor at `pos`, with the position just after it.
/// A nested decode always ends past where it began and within the input; the
/// checks on that are there to make the recursion evidently finite.
pub open spec fn decode_spec(b: Seq<u8>, pos: int) -> Result<(CLType, int), Error>
    decreases b.len() - pos,
{
    if pos < 0 || pos >= b.len() {
        Err(Error::EarlyEndOfStream)
    } else {
        let tag = b[pos];
        let p = pos + 1;
        if simple_of_tag(tag) is Some {
            Ok((simple_of_tag(tag).unwrap(), p))
        } else if tag == TAG_BYTE_ARRAY {
            match read_u32_spec(b, p) {
                Ok((n, q)) => Ok((CLType::ByteArray(n), q)),
                Err(e) => Err(e),
            }
        } else if tag == TAG_OPTION || tag == TAG_LIST || tag == TAG_TUPLE1 {
            match decode_spec(b, p) {
                Err(e) => Err(e),
                Ok((a, q)) => Ok((
                    if tag == TAG_OPTION {
                        CLType::Option(Box::new(a))
                    } else if tag == TAG_LIST {
                        CLType::List(Box::new(a))
                    } else {
                        CLType::Tuple1(Box::new(a))
                    },
                    q,
                )),
            }
        } else if tag == TAG_RESULT || tag == TAG_MAP || tag == TAG_TUPLE2 {
            match decode_spec(b, p) {
                Err(e) => Err(e),
                Ok((a, q)) => if q <= pos || q > b.len() {
                    Err(Error::Formatting)
                } else {
                    match decode_spec(b, q) {
                        Err(e) => Err(e),
                        Ok((c, r)) => Ok((
                            if tag == TAG_RESULT {
                                CLType::Result { ok: Box::new(a), err: Box::new(c) }
                            } else if tag == TAG_MAP {
                                CLType::Mapping { key: Box::new(a), value: Box::new(c) }
                            } else {
                                CLType::Tuple2(Box::new(a), Box::new(c))
                            },
                            r,
                        )),
                    }
                },
            }
        } else if tag == TAG_TUPLE3 {
            match decode_spec(b, p) {
                Err(e) => Err(e),
                Ok((a, q)) => if q <= pos || q > b.len() {
                    Err(Error::Formatting)
                } else {
                    match decode_spec(b, q) {
                        Err(e) => Err(e),
                        Ok((c, r)) => if r <= pos || r > b.len() {
                            Err(Error::Formatting)
                        } else {
                            match decode_spec(b, r) {
                                Err(e) => Err(e),
                                Ok((d, s)) => Ok((
                                    CLType::Tuple3(Box::new(a), Box::new(c), Box::new(d)),
                                    s,
                                )),
                            }
                        },
                    }
                },
            }
        } else {
            Err(Error::Formatting)
        }
    }
}

/// A successful decode ends past its start and within the input.
pub proof fn lemma_decode_bounds(b: Seq<u8>, pos: int)
    ensures
        decode_spec(b, pos) matches Ok((_, q)) ==> pos < q <= b.len(),
    decreases b.len() - pos,
{
    if 0 <= pos < b.len() {
        let p = pos + 1;
        lemma_decode_bounds(b, p);
        if let Ok((_, q)) = decode_spec(b, p) {
            if pos < q <= b.len() {
                lemma_decode_bounds(b, q);
                if let Ok((_, r)) = decode_spec(b, q) {
                    if pos < r <= b.len() {
                        lemma_decode_bounds(b, r);
                    }
                }
            }
        }
    }
}

impl CLType {
    /// A copy of this descriptor.
    pub fn copy(&self) -> (r: CLType)
        ensures
            r == *self,
        decreases self,
    {
        match self {
            CLType::Bool => CLType::Bool,
            CLType::I32 => CLType::I32,
            CLType::I64 => CLType::I64,
            CLType::U8 => CLType::U8,
            CLType::U32 => CLType::U32,
            CLType::U64 => CLType::U64,
            CLType::U128 => CLType::U128,
            CLType::U256 => CLType::U256,
            CLType::U512 => CLType::U512,
            CLType::Unit => CLType::Unit,
            CLType::String => CLType::String,
            CLType::Key => CLType::Key,
            CLType::URef => CLType::URef,
            CLType::PublicKey => CLType::PublicKey,
            CLType::Any => CLType::Any,
            CLType::Option(i) => CLType::Option(Box::new(i.copy())),
            CLType::List(i) => CLType::List(Box::new(i.copy())),
            CLType::ByteArray(n) => CLType::ByteArray(*n),
            CLType::Result { ok, err } => CLType::Result {
                ok: Box::new(ok.copy()),
                err: Box::new(err.copy()),
            },
            CLType::Mapping { key, value } => CLType::Mapping {
                key: Box::new(key.copy()),
                value: Box::new(value.copy()),
            },
            CLType::Tuple1(a) => CLType::Tuple1(Box::new(a.copy())),
            CLType::Tuple2(a, b) => CLType::Tuple2(Box::new(a.copy()), Box::new(b.copy())),
            CLType::Tuple3(a, b, c) => CLType::Tuple3(
                Box::new(a.copy()),
                Box::new(b.copy()),
                Box::new(c.copy()),
            ),
        }
    }

    /// Structural equality of two descriptors.
    pub fn same(&self, o: &CLType) -> (r: bool)
        ensures
            r == (*self == *o),
        decreases self,
    {
        match (self, o) {
            (CLType::Option(a), CLType::Option(b)) => a.same(b),
            (CLType::List(a), CLType::List(b)) => a.same(b),
            (CLType::ByteArray(a), CLType::ByteArray(b)) => *a == *b,
            (CLType::Result { ok: a1, err: a2 }, CLType::Result { ok: b1, err: b2 }) => a1.same(
                b1,
            ) && a2.same(b2),
            (CLType::Mapping { key: a1, value: a2 }, CLType::Mapping { key: b1, value: b2 }) => a1.same(
                b1,
            ) && a2.same(b2),
            (CLType::Tuple1(a), CLType::Tuple1(b)) => a.same(b),
            (CLType::Tuple2(a1, a2), CLType::Tuple2(b1, b2)) => a1.same(b1) && a2.same(b2),
            (CLType::Tuple3(a1, a2, a3), CLType::Tuple3(b1, b2, b3)) => a1.same(b1) && a2.same(b2)
                && a3.same(b3),
            (CLType::Bool, CLType::Bool) => true,
            (CLType::I32, CLType::I32) => true,
            (CLType::I64, CLType::I64) => true,
            (CLType::U8, CLType::U8) => true,
            (CLType::U32, CLType::U32) => true,
            (CLType::U64, CLType::U64) => true,
            (CLType::U128, CLType::U128) => true,
            (CLType::U256, CLType::U256) => true,
            (CLType::U512, CLType::U512) => true,
            (CLType::Unit, CLType::Unit) => true,
            (CLType::String, CLType::String) => true,
            (CLType::Key, CLType::Key) => true,
            (CLType::URef, CLType::URef) => true,
            (CLType::PublicKey, CLType::PublicKey) => true,
            (CLType::Any, CLType::Any) => true,
            _ => false,
        }
    }
}

impl Clone for CLType {
    fn clone(&self) -> (r: CLType)
        ensures
            r == *self,
    {
        self.copy()
    }
}

impl PartialEq for CLType {
    fn eq(&self, o: &CLType) -> (r: bool) {
        self.same(o)
    }
}

impl vstd::std_specs::cmp::PartialEqSpecImpl for CLType {
    open spec fn obeys_eq_spec() -> bool {
        true
    }

    open spec fn eq_spec(&self, o: &CLType) -> bool {
        *self == *o
    }
}

/// True when the catch-all variant occurs anywhere in the tree.
pub open spec fn has_any_spec(t: CLType) -> bool
    decreases t,
{
    match t {
        CLType::Any => true,
        CLType::Option(i) => has_any_spec(*i),
        CLType::List(i) => has_any_spec(*i),
        CLType::Result { ok, err } => has_any_spec(*ok) || has_any_spec(*err),
        CLType::Mapping { key, value } => has_any_spec(*key) || has_any_spec(*value),
        CLType::Tuple1(a) => has_any_spec(*a),
        CLType::Tuple2(a, b) => has_any_spec(*a) || has_any_spec(*b),
        CLType::Tuple3(a, b, c) => has_any_spec(*a) || has_any_spec(*b) || has_any_spec(*c),
        _ => false,
    }
}

/// Appends the tagged encoding of `t`.
pub fn append_bytes(t: &CLType, stream: &mut Vec<u8>)
    ensures
        final(stream)@ == old(stream)@ + encode_spec(*t),
    decreases t,
{
    let ghost start = stream@;
    match t {
        CLType::Bool => stream.push(TAG_BOOL),
        CLType::I32 => stream.push(TAG_I32),
        CLType::I64 => stream.push(TAG_I64),
        CLType::U8 => stream.push(TAG_U8),
        CLType::U32 => stream.push(TAG_U32),
        CLType::U64 => stream.push(TAG_U64),
        CLType::U128 => stream.push(TAG_U128),
        CLType::U256 => stream.push(TAG_U256),
        CLType::U512 => stream.push(TAG_U512),
        CLType::Unit => stream.push(TAG_UNIT),
        CLType::String => stream.push(TAG_STRING),
        CLType::Key => stream.push(TAG_KEY),
        CLType::URef => stream.push(TAG_UREF),
        CLType::PublicKey => stream.push(TAG_PUBLIC_KEY),
        CLType::Any => stream.push(TAG_ANY),
        CLType::Option(i) => {
            stream.push(TAG_OPTION);
            append_bytes(i, stream);
        },
        CLType::List(i) => {
            stream.push(TAG_LIST);
            append_bytes(i, stream);
        },
        CLType::ByteArray(n) => {
            stream.push(TAG_BYTE_ARRAY);
            write_u32(*n, stream);
        },
        CLType::Result { ok, err } => {
            stream.push(TAG_RESULT);
            append_bytes(ok, stream);
            append_bytes(err, stream);
        },
        CLType::Mapping { key, value } => {
            stream.push(TAG_MAP);
            append_bytes(key, stream);
            append_bytes(value, stream);
        },
        CLType::Tuple1(a) => {
            stream.push(TAG_TUPLE1);
            append_bytes(a, stream);
        },
        CLType::Tuple2(a, b) => {
            stream.push(TAG_TUPLE2);
            append_bytes(a, stream);
            append_bytes(b, stream);
        },
        CLType::Tuple3(a, b, c) => {
            stream.push(TAG_TUPLE3);
            append_bytes(a, stream);
            append_bytes(b, stream);
            append_bytes(c, stream);
        },
    }
    assert(stream@ =~= start + encode_spec(*t));
}

/// The number of bytes in the encoding of `t`.
pub fn encoded_length(t: &CLType) -> (r: usize)
    requires
        encode_spec(*t).len() <= usize::MAX,
    ensures
        r == encode_spec(*t).len(),
    decreases t,
{
    match t {
        CLType::Option(i) => 1 + encoded_length(i),
        CLType::List(i) => 1 + encoded_length(i),
        CLType::Tuple1(a) => 1 + encoded_length(a),
        CLType::ByteArray(_) => 5,
        CLType::Result { ok, err } => 1 + encoded_length(ok) + encoded_length(err),
        CLType::Mapping { key, value } => 1 + encoded_length(key) + encoded_length(value),
        CLType::Tuple2(a, b) => 1 + encoded_length(a) + encoded_length(b),
        CLType::Tuple3(a, b, c) => 1 + encoded_length(a) + encoded_length(b) + encoded_length(c),
        _ => 1,
    }
}

/// Decodes a type descriptor at `pos`, giving the position just after it.
pub fn decode(b: &[u8], pos: usize) -> (r: Result<(CLType, usize), Error>)
    ensures
        match decode_spec(b@, pos as int) {
            Ok((t, p)) => r matches Ok((u, q)) && u == t && q == p,
            Err(e) => r == Err::<(CLType, usize), Error>(e),
        },
    decreases b.len() - pos,
{
    if pos >= b.len() {
        return Err(Error::EarlyEndOfStream);
    }
    let tag = b[pos];
    let p = pos + 1;
    proof {
        lemma_decode_bounds(b@, p as int);
    }
    if tag == TAG_BOOL { Ok((CLType::Bool, p)) }
    else if tag == TAG_I32 { Ok((CLType::I32, p)) }
    else if tag == TAG_I64 { Ok((CLType::I64, p)) }
    else if tag == TAG_U8 { Ok((CLType::U8, p)) }
    else if tag == TAG_U32 { Ok((CLType::U32, p)) }
    else if tag == TAG_U64 { Ok((CLType::U64, p)) }
    else if tag == TAG_U128 { Ok((CLType::U128, p)) }
    else if tag == TAG_U256 { Ok((CLType::U256, p)) }
    else if tag == TAG_U512 { Ok((CLType::U512, p)) }
    else if tag == TAG_UNIT { Ok((CLType::Unit, p)) }
    else if tag == TAG_STRING { Ok((CLType::String, p)) }
    else if tag == TAG_KEY { Ok((CLType::Key, p)) }
    else if tag == TAG_UREF { Ok((CLType::URef, p)) }
    else if tag == TAG_ANY { Ok((CLType::Any, p)) }
    else if tag == TAG_PUBLIC_KEY { Ok((CLType::PublicKey, p)) }
    else if tag == TAG_BYTE_ARRAY {
        match read_u32(b, p) {
            Ok((n, q)) => Ok((CLType::ByteArray(n), q)),
            Err(e) => Err(e),
        }
    } else if tag == TAG_OPTION || tag == TAG_LIST || tag == TAG_TUPLE1 {
        match decode(b, p) {
            Err(e) => Err(e),
            Ok((a, q)) => {
                let t = if tag == TAG_OPTION {
                    CLType::Option(Box::new(a))
                } else if tag == TAG_LIST {
                    CLType::List(Box::new(a))
                } else {
                    CLType::Tuple1(Box::new(a))
                };
                Ok((t, q))
            },
        }
    } else if tag == TAG_RESULT || tag == TAG_MAP || tag == TAG_TUPLE2 {
        match decode(b, p) {
            Err(e) => Err(e),
            Ok((a, q)) => {
                proof {
                    lemma_decode_bounds(b@, q as int);
                }
                match decode(b, q) {
                    Err(e) => Err(e),
                    Ok((c, r)) => {
                        let t = if tag == TAG_RESULT {
                            CLType::Result { ok: Box::new(a), err: Box::new(c) }
                        } else if tag == TAG_MAP {
                            CLType::Mapping { key: Box::new(a), value: Box::new(c) }
                        } else {
                            CLType::Tuple2(Box::new(a), Box::new(c))
                        };
                        Ok((t, r))
                    },
                }
            },
        }
    } else if tag == TAG_TUPLE3 {
        match decode(b, p) {
            Err(e) => Err(e),
            Ok((a, q)) => {
                proof {
                    lemma_decode_bounds(b@, q as int);
                }
                match decode(b, q) {
                    Err(e) => Err(e),
                    Ok((c, r)) => {
                        proof {
                            lemma_decode_bounds(b@, r as int);
                        }
                        match decode(b, r) {
                            Err(e) => Err(e),
                            Ok((d, s)) => Ok(
                                (CLType::Tuple3(Box::new(a), Box::new(c), Box::new(d)), s),
                            ),
                        }
                    },
                }
            },
        }
    } else {
        Err(Error::Formatting)
    }
}

/// Decoding the encoding of a descriptor, wherever it stands in a buffer,
/// gives the descriptor back and ends right after its encoding.
#[verifier::spinoff_prover]
#[verifier::rlimit(100)]
pub proof fn lemma_decode_encode(t: CLType, b: Seq<u8>, pos: int)
    requires
        0 <= pos,
        pos + encode_spec(t).len() <= b.len(),
        b.subrange(pos, pos + encode_spec(t).len()) == encode_spec(t),
    ensures
        decode_spec(b, pos) == Ok::<(CLType, int), Error>((t, pos + encode_spec(t).len())),
    decreases t,
{
    let e = encode_spec(t);
    assert(b[pos] == e[0]);
    let p = pos + 1;
    match t {
        CLType::ByteArray(n) => {
            assert(b[p] == e[1] && b[p + 1] == e[2] && b[p + 2] == e[3] && b[p + 3] == e[4]);
            lemma_u32_le_round_trip(n);
        },
        CLType::Option(a) => {
            assert(e.subrange((1) as int, (1) as int + encode_spec(*a).len() as int) =~= encode_spec(*a));
            lemma_sub_part(b, pos, e, 1, encode_spec(*a));
            lemma_decode_encode(*a, b, p);
        },
        CLType::List(a) => {
            assert(e.subrange((1) as int, (1) as int + encode_spec(*a).len() as int) =~= encode_spec(*a));
            lemma_sub_part(b, pos, e, 1, encode_spec(*a));
            lemma_decode_encode(*a, b, p);
        },
        CLType::Tuple1(a) => {
            assert(e.subrange((1) as int, (1) as int + encode_spec(*a).len() as int) =~= encode_spec(*a));
            lemma_sub_part(b, pos, e, 1, encode_spec(*a));
            lemma_decode_encode(*a, b, p);
        },
        CLType::Result { ok: a, err: c } => {
            let la = encode_spec(*a).len() as int;
            assert(e.subrange((1) as int, (1) as int + encode_spec(*a).len() as int) =~= encode_spec(*a));
            lemma_sub_part(b, pos, e, 1, encode_spec(*a));
            assert(e.subrange((1 + la) as int, (1 + la) as int + encode_spec(*c).len() as int) =~= encode_spec(*c));
            lemma_sub_part(b, pos, e, 1 + la, encode_spec(*c));
            lemma_decode_encode(*a, b, p);
            lemma_decode_encode(*c, b, p + la);
        },
        CLType::Mapping { key: a, value: c } => {
            let la = encode_spec(*a).len() as int;
            assert(e.subrange((1) as int, (1) as int + encode_spec(*a).len() as int) =~= encode_spec(*a));
            lemma_sub_part(b, pos, e, 1, encode_spec(*a));
            assert(e.subrange((1 + la) as int, (1 + la) as int + encode_spec(*c).len() as int) =~= encode_spec(*c));
            lemma_sub_part(b, pos, e, 1 + la, encode_spec(*c));
            lemma_decode_encode(*a, b, p);
            lemma_decode_encode(*c, b, p + la);
        },
        CLType::Tuple2(a, c) => {
            let la = encode_spec(*a).len() as int;
            assert(e.subrange((1) as int, (1) as int + encode_spec(*a).len() as int) =~= encode_spec(*a));
            lemma_sub_part(b, pos, e, 1, encode_spec(*a));
            assert(e.subrange((1 + la) as int, (1 + la) as int + encode_spec(*c).len() as int) =~= encode_spec(*c));
            lemma_sub_part(b, pos, e, 1 + la, encode_spec(*c));
            lemma_decode_encode(*a, b, p);
            lemma_decode_encode(*c, b, p + la);
        },
        CLType::Tuple3(a, c, d) => {
            let la = encode_spec(*a).len() as int;
            let lc = encode_spec(*c).len() as int;
            assert(e.subrange((1) as int, (1) as int + encode_spec(*a).len() as int) =~= encode_spec(*a));
            lemma_sub_part(b, pos, e, 1, encode_spec(*a));
            assert(e.subrange((1 + la) as int, (1 + la) as int + encode_spec(*c).len() as int) =~= encode_spec(*c));
            lemma_sub_part(b, pos, e, 1 + la, encode_spec(*c));
            assert(e.subrange((1 + la + lc) as int, (1 + la + lc) as int + encode_spec(*d).len() as int) =~= encode_spec(*d));
            lemma_sub_part(b, pos, e, 1 + la + lc, encode_spec(*d));
            lemma_decode_encode(*a, b, p);
            lemma_decode_encode(*c, b, p + la);
            lemma_decode_encode(*d, b, p + la + lc);
        },
        _ => {},
    }
}

/// A part of a sequence that stands inside a window of a buffer stands in
/// the buffer at the shifted position.
pub proof fn lemma_sub_part(b: Seq<u8>, pos: int, e: Seq<u8>, off: int, part: Seq<u8>)
    requires
        0 <= pos,
        pos + e.len() <= b.len(),
        b.subrange(pos, pos + e.len()) == e,
        0 <= off,
        off + part.len() <= e.len(),
        e.subrange(off, off + part.len()) == part,
    ensures
        b.subrange(pos + off, pos + off + part.len()) == part,
{
    assert(b.subrange(pos + off, pos + off + part.len()) =~= e.subrange(off, off + part.len()));
}

/// Reports whether the catch-all variant occurs anywhere in `t`.
pub fn has_any(t: &CLType) -> (r: bool)
    ensures
        r == has_any_spec(*t),
    decreases t,
{
    match t {
        CLType::Any => true,
        CLType::Bool | CLType::I32 | CLType::I64 | CLType::U8 | CLType::U32 | CLType::U64
        | CLType::U128 | CLType::U256 | CLType::U512 | CLType::Unit | CLType::String | CLType::Key
        | CLType::URef | CLType::PublicKey | CLType::ByteArray(_) => false,
        CLType::Option(i) => has_any(i),
        CLType::List(i) => has_any(i),
        CLType::Result { ok, err } => has_any(ok) || has_any(err),
        CLType::Mapping { key, value } => has_any(key) || has_any(value),
        CLType::Tuple1(a) => has_any(a),
        CLType::Tuple2(a, b) => has_any(a) || has_any(b),
        CLType::Tuple3(a, b, c) => has_any(a) || has_any(b) || has_any(c),
    }
}

/// Accepts a concretely typed descriptor: one in which the catch-all
/// variant occurs nowhere.
pub fn validate_type(t: &CLType) -> (r: Result<(), Error>)
    ensures
        r is Ok <==> !has_any_spec(*t),
        r is Err ==> r == Err::<(), Error>(Error::Formatting),
{
    if has_any(t) {
        Err(Error::Formatting)
    } else {
        Ok(())
    }
}

/// A type descriptor as a serializable value of its own.
#[derive(Debug)]
pub struct CLType2(pub CLType);

impl CLType2 {
    /// The descriptor of a descriptor: the catch-all variant.
    pub fn cl_type() -> (r: CLType)
        ensures
            r == CLType::Any,
    {
        CLType::Any
    }

    /// The tagged encoding of the wrapped descriptor.
    pub fn to_bytes(&self) -> (r: Result<Vec<u8>, Error>)
        ensures
            r matches Ok(v) && v@ == encode_spec(self.0),
    {
        let mut out: Vec<u8> = Vec::new();
        append_bytes(&self.0, &mut out);
        assert(out@ =~= encode_spec(self.0));
        Ok(out)
    }

    /// The number of bytes that `to_bytes` gives.
    pub fn serialized_length(&self) -> (r: usize)
        requires
            encode_spec(self.0).len() <= usize::MAX,
        ensures
            r == encode_spec(self.0).len(),
    {
        encoded_length(&self.0)
    }

    /// Decodes a descriptor from the front of `bytes`, giving the bytes that
    /// follow it.
    pub fn from_bytes(bytes: &[u8]) -> (r: Result<(CLType2, &[u8]), Error>)
        ensures
            match decode_spec(bytes@, 0) {
                Ok((t, p)) => r matches Ok((u, rest)) && u.0 == t && rest@ == bytes@.subrange(
                    p,
                    bytes@.len() as int,
                ),
                Err(e) => r matches Err(f) && f == e,
            },
    {
        match decode(bytes, 0) {
            Ok((t, p)) => {
                proof {
                    lemma_decode_bounds(bytes@, 0);
                }
                Ok((CLType2(t), slice_subrange(bytes, p, bytes.len())))
            },
            Err(e) => Err(e),
        }
    }
}

impl PartialEq for CLType2 {
    fn eq(&self, o: &CLType2) -> (r: bool) {
        self.0.same(&o.0)
    }
}

impl vstd::std_specs::cmp::PartialEqSpecImpl for CLType2 {
    open spec fn obeys_eq_spec() -> bool {
        true
    }

    open spec fn eq_spec(&self, o: &CLType2) -> bool {
        self.0 == o.0
    }
}

/// For every descriptor `d` and every suffix: decoding the encoding of `d`
/// followed by the suffix gives `d` back, having read exactly the encoding.
pub proof fn lemma_cl_type_round_trip(d: CLType, rest: Seq<u8>)
    ensures
        decode_spec(encode_spec(d) + rest, 0) == Ok::<(CLType, int), Error>(
            (d, encode_spec(d).len() as int),
        ),
        (encode_spec(d) + rest).subrange(encode_spec(d).len() as int, (encode_spec(d)
            + rest).len() as int) == rest,
{
    let b = encode_spec(d) + rest;
    assert(b.subrange(0, encode_spec(d).len() as int) =~= encode_spec(d));
    lemma_decode_encode(d, b, 0);
    assert(b.subrange(encode_spec(d).len() as int, b.len() as int) =~= rest);
}

} // verus!

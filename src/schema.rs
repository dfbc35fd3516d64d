//! Schemas: the ordered fields of one event type, and the registry of all
//! event types of a program, kept sorted by name.

use vstd::prelude::*;
use vstd::utf8::*;
use vstd::slice::slice_subrange;
use crate::bytesrepr::{Error, u32_le, string_bytes, string_fits, write_u32, write_string, read_u32_spec, read_string_spec, read_u32, read_string, lemma_string_round_trip, lemma_u32_le_round_trip};
use crate::cl_type::{CLType, CLType2, encode_spec, append_bytes, decode_spec, decode, lemma_decode_encode, lemma_decode_bounds};
use crate::order::{lex_lt, bytes_lt, bytes_eq, lemma_lex_irreflexive, lemma_lex_transitive, lemma_lex_total};

verus! {

/// A field as the contracts see it: its name and its type.
pub type FieldView = (Seq<char>, CLType);

/// The encoding of one field: its name as a string, then its type.
pub open spec fn field_bytes(e: FieldView) -> Seq<u8> {
    string_bytes(e.0) + encode_spec(e.1)
}

/// The encodings of the fields one after the other.
pub open spec fn fields_bytes(v: Seq<FieldView>) -> Seq<u8>
    decreases v.len(),
{
    if v.len() == 0 {
        Seq::empty()
    } else {
        fields_bytes(v.drop_last()) + field_bytes(v.last())
    }
}

/// The encoding of a schema: the number of fields as a `u32`, then the fields.
pub open spec fn schema_bytes(v: Seq<FieldView>) -> Seq<u8> {
    u32_le(v.len() as u32) + fields_bytes(v)
}

/// A schema can be encoded: its field count and each name fit a `u32` prefix.
pub open spec fn schema_fits(v: Seq<FieldView>) -> bool {
    &&& v.len() <= u32::MAX
    &&& forall|i: int| 0 <= i < v.len() ==> string_fits(#[trigger] v[i].0)
}

/// The descriptor of a schema: a list of (string, any) pairs.
pub open spec fn schema_type() -> CLType {
    CLType::List(Box::new(CLType::Tuple2(Box::new(CLType::String), Box::new(CLType::Any))))
}

/// Reading `n` fields one after the other from `pos`, with the position
/// just after the last.
pub open spec fn read_fields_spec(b: Seq<u8>, pos: int, n: nat) -> Result<(Seq<FieldView>, int), Error>
    decreases n,
{
    if n == 0 {
        Ok((Seq::empty(), pos))
    } else {
        match read_fields_spec(b, pos, (n - 1) as nat) {
            Err(e) => Err(e),
            Ok((v, p)) => match read_string_spec(b, p) {
                Err(e) => Err(e),
                Ok((name, q)) => match decode_spec(b, q) {
                    Err(e) => Err(e),
                    Ok((t, r)) => Ok((v.push((name, t)), r)),
                },
            },
        }
    }
}

/// Reading a schema at `pos`: its field count, then that many fields.
pub open spec fn read_schema_spec(b: Seq<u8>, pos: int) -> Result<(Seq<FieldView>, int), Error> {
    match read_u32_spec(b, pos) {
        Err(e) => Err(e),
        Ok((n, p)) => read_fields_spec(b, p, n as nat),
    }
}

/// Once reading fails, reading more fails the same way.
proof fn lemma_read_fields_err(b: Seq<u8>, pos: int, k: nat, n: nat)
    requires
        k <= n,
        read_fields_spec(b, pos, k) is Err,
    ensures
        read_fields_spec(b, pos, n) == read_fields_spec(b, pos, k),
    decreases n,
{
    if n > k {
        lemma_read_fields_err(b, pos, k, (n - 1) as nat);
    }
}

/// Reading the encodings of `v` back, wherever they stand, gives `v`.
proof fn lemma_read_fields_round_trip(v: Seq<FieldView>, b: Seq<u8>, pos: int)
    requires
        0 <= pos,
        forall|i: int| 0 <= i < v.len() ==> string_fits(#[trigger] v[i].0),
        pos + fields_bytes(v).len() <= b.len(),
        b.subrange(pos, pos + fields_bytes(v).len()) == fields_bytes(v),
    ensures
        read_fields_spec(b, pos, v.len()) == Ok::<(Seq<FieldView>, int), Error>(
            (v, pos + fields_bytes(v).len()),
        ),
    decreases v.len(),
{
    if v.len() > 0 {
        let init = v.drop_last();
        let e = v.last();
        let fb = fields_bytes(v);
        let li = fields_bytes(init).len() as int;
        let ls = string_bytes(e.0).len() as int;
        assert(fb == fields_bytes(init) + string_bytes(e.0) + encode_spec(e.1));
        assert(b.subrange(pos, pos + li) =~= fb.subrange(0, li));
        assert(fb.subrange(0, li) =~= fields_bytes(init));
        assert forall|i: int| 0 <= i < init.len() implies string_fits(#[trigger] init[i].0) by {
            assert(init[i] == v[i]);
        }
        lemma_read_fields_round_trip(init, b, pos);
        assert(b.subrange(pos + li, pos + li + ls) =~= fb.subrange(li, li + ls));
        assert(fb.subrange(li, li + ls) =~= string_bytes(e.0));
        assert(string_fits(v[v.len() - 1].0));
        lemma_string_round_trip(e.0, b, pos + li);
        let lt = encode_spec(e.1).len() as int;
        assert(b.subrange(pos + li + ls, pos + li + ls + lt) =~= fb.subrange(li + ls, li + ls + lt));
        assert(fb.subrange(li + ls, li + ls + lt) =~= encode_spec(e.1));
        lemma_decode_encode(e.1, b, pos + li + ls);
        assert(init.push(e) =~= v);
        assert(init.len() == (v.len() - 1) as nat);
    } else {
        assert(v =~= Seq::<FieldView>::empty());
    }
}

/// For every schema that can be encoded: reading its encoding back, at the
/// front of any buffer, gives the schema and ends right after the encoding.
pub proof fn lemma_schema_round_trip(v: Seq<FieldView>, rest: Seq<u8>)
    requires
        schema_fits(v),
    ensures
        read_schema_spec(schema_bytes(v) + rest, 0) == Ok::<(Seq<FieldView>, int), Error>(
            (v, schema_bytes(v).len() as int),
        ),
{
    let b = schema_bytes(v) + rest;
    assert(b[0] == u32_le(v.len() as u32)[0] && b[1] == u32_le(v.len() as u32)[1]
        && b[2] == u32_le(v.len() as u32)[2] && b[3] == u32_le(v.len() as u32)[3]);
    lemma_u32_le_round_trip(v.len() as u32);
    assert(b.subrange(4, 4 + fields_bytes(v).len() as int) =~= fields_bytes(v));
    lemma_read_fields_round_trip(v, b, 4);
}

/// A successful read of fields ends at or past its start and within the
/// input.
proof fn lemma_read_fields_bounds(b: Seq<u8>, pos: int, n: nat)
    ensures
        read_fields_spec(b, pos, n) matches Ok((_, q)) ==> pos <= q && (n > 0 ==> q <= b.len()),
    decreases n,
{
    if n > 0 {
        lemma_read_fields_bounds(b, pos, (n - 1) as nat);
        if let Ok((_, p)) = read_fields_spec(b, pos, (n - 1) as nat) {
            if let Ok((_, q)) = read_string_spec(b, p) {
                lemma_decode_bounds(b, q);
            }
        }
    }
}

/// A successful read of a schema ends within the input.
pub proof fn lemma_read_schema_bounds(b: Seq<u8>, pos: int)
    ensures
        read_schema_spec(b, pos) matches Ok((_, q)) ==> pos <= q <= b.len(),
{
    if let Ok((n, p)) = read_u32_spec(b, pos) {
        lemma_read_fields_bounds(b, p, n as nat);
    }
}

proof fn lemma_fields_prefix_len(v: Seq<FieldView>, k: int)
    requires
        0 <= k <= v.len(),
    ensures
        fields_bytes(v.subrange(0, k)).len() <= fields_bytes(v).len(),
    decreases v.len() - k,
{
    if k < v.len() {
        lemma_fields_prefix_len(v, k + 1);
        let s = v.subrange(0, k + 1);
        assert(s.drop_last() =~= v.subrange(0, k));
    } else {
        assert(v.subrange(0, k) =~= v);
    }
}

proof fn lemma_entries_prefix_len(v: Seq<EntryView>, k: int)
    requires
        0 <= k <= v.len(),
    ensures
        entries_bytes(v.subrange(0, k)).len() <= entries_bytes(v).len(),
    decreases v.len() - k,
{
    if k < v.len() {
        lemma_entries_prefix_len(v, k + 1);
        let s = v.subrange(0, k + 1);
        assert(s.drop_last() =~= v.subrange(0, k));
    } else {
        assert(v.subrange(0, k) =~= v);
    }
}

/// The fields of one event type, in declaration order.
#[derive(Debug)]
pub struct Schema(Vec<(String, CLType2)>);

impl View for Schema {
    type V = Seq<FieldView>;

    closed spec fn view(&self) -> Seq<FieldView> {
        self.0@.map_values(|e: (String, CLType2)| (e.0@, e.1.0))
    }
}

impl Schema {
    /// A schema without fields.
    pub fn new() -> (r: Schema)
        ensures
            r@ == Seq::<FieldView>::empty(),
    {
        let r = Schema(Vec::new());
        assert(r@ =~= Seq::<FieldView>::empty());
        r
    }

    /// Appends a named field after the existing ones.
    pub fn with_elem(&mut self, name: &str, ty: CLType)
        ensures
            final(self)@ == old(self)@.push((name@, ty)),
    {
        self.0.push((name.to_owned(), CLType2(ty)));
        assert(final(self)@ =~= old(self)@.push((name@, ty)));
    }

    /// The descriptor of a schema: a list of (string, any) pairs.
    pub fn cl_type() -> (r: CLType)
        ensures
            r == schema_type(),
    {
        CLType::List(Box::new(CLType::Tuple2(Box::new(CLType::String), Box::new(CLType::Any))))
    }

    /// Appends the encoding of this schema to `out`.
    pub fn write_bytes(&self, out: &mut Vec<u8>) -> (r: Result<(), Error>)
        ensures
            r is Ok <==> schema_fits(self@),
            r is Ok ==> final(out)@ == old(out)@ + schema_bytes(self@),
            r is Err ==> r == Err::<(), Error>(Error::NotRepresentable),
    {
        if self.0.len() > u32::MAX as usize {
            return Err(Error::NotRepresentable);
        }
        write_u32(self.0.len() as u32, out);
        let ghost start = old(out)@ + u32_le(self.0.len() as u32);
        let mut i: usize = 0;
        while i < self.0.len()
            invariant
                0 <= i <= self.0@.len(),
                self@.len() == self.0@.len(),
                out@ == start + fields_bytes(self@.subrange(0, i as int)),
                forall|j: int| 0 <= j < i ==> string_fits(#[trigger] self@[j].0),
            decreases self.0.len() - i,
        {
            assert(self@[i as int].0 == self.0@[i as int].0@);
            assert(self@[i as int].1 == self.0@[i as int].1.0);
            match write_string(self.0[i].0.as_str(), out) {
                Err(_) => {
                    return Err(Error::NotRepresentable);
                },
                Ok(()) => {},
            }
            append_bytes(&self.0[i].1.0, out);
            proof {
                let s = self@.subrange(0, i as int + 1);
                assert(s.drop_last() =~= self@.subrange(0, i as int));
                assert(s.last() == self@[i as int]);
            }
            assert(out@ =~= start + fields_bytes(self@.subrange(0, i as int + 1)));
            i += 1;
        }
        assert(self@.subrange(0, i as int) =~= self@);
        Ok(())
    }

    /// Reads a schema at `pos`, giving the position just after it.
    pub fn read(b: &[u8], pos: usize) -> (r: Result<(Schema, usize), Error>)
        ensures
            match read_schema_spec(b@, pos as int) {
                Ok((v, p)) => r matches Ok((s, q)) && s@ == v && q == p,
                Err(e) => r matches Err(f) && f == e,
            },
    {
        let (n, p0) = match read_u32(b, pos) {
            Ok(x) => x,
            Err(e) => return Err(e),
        };
        assert(read_u32_spec(b@, pos as int) == Ok::<(u32, int), Error>((n, p0 as int)));
        let mut v: Vec<(String, CLType2)> = Vec::new();
        assert(Schema(v)@ =~= Seq::<FieldView>::empty());
        let mut p = p0;
        let mut i: u32 = 0;
        while i < n
            invariant
                0 <= i <= n,
                read_schema_spec(b@, pos as int) == read_fields_spec(b@, p0 as int, n as nat),
                read_fields_spec(b@, p0 as int, i as nat) == Ok::<(Seq<FieldView>, int), Error>(
                    (Schema(v)@, p as int),
                ),
            decreases n - i,
        {
            let ghost acc = Schema(v)@;
            let (name, q) = match read_string(b, p) {
                Ok(x) => x,
                Err(e) => {
                    proof {
                        lemma_read_fields_err(b@, p0 as int, (i + 1) as nat, n as nat);
                    }
                    return Err(e);
                },
            };
            let (t, r) = match decode(b, q) {
                Ok(x) => x,
                Err(e) => {
                    proof {
                        lemma_read_fields_err(b@, p0 as int, (i + 1) as nat, n as nat);
                    }
                    return Err(e);
                },
            };
            v.push((name, CLType2(t)));
            assert(Schema(v)@ =~= acc.push((name@, t)));
            p = r;
            i += 1;
        }
        Ok((Schema(v), p))
    }

    /// Decodes a schema from the front of `bytes`, giving the bytes that
    /// follow it.
    pub fn from_bytes(bytes: &[u8]) -> (r: Result<(Schema, &[u8]), Error>)
        ensures
            match read_schema_spec(bytes@, 0) {
                Ok((v, p)) => r matches Ok((s, rest)) && s@ == v && rest@ == bytes@.subrange(
                    p,
                    bytes@.len() as int,
                ),
                Err(e) => r matches Err(f) && f == e,
            },
    {
        match Schema::read(bytes, 0) {
            Ok((s, p)) => {
                proof {
                    lemma_read_schema_bounds(bytes@, 0);
                }
                Ok((s, slice_subrange(bytes, p, bytes.len())))
            },
            Err(e) => Err(e),
        }
    }

    /// The number of bytes that `to_bytes` gives.
    pub fn serialized_length(&self) -> (r: usize)
        requires
            schema_fits(self@),
            schema_bytes(self@).len() <= usize::MAX,
        ensures
            r == schema_bytes(self@).len(),
    {
        let mut total: usize = 4;
        let mut i: usize = 0;
        while i < self.0.len()
            invariant
                0 <= i <= self.0@.len(),
                self@.len() == self.0@.len(),
                schema_bytes(self@).len() <= usize::MAX,
                schema_fits(self@),
                total == 4 + fields_bytes(self@.subrange(0, i as int)).len(),
            decreases self.0.len() - i,
        {
            proof {
                lemma_fields_prefix_len(self@, i as int + 1);
                let s = self@.subrange(0, i as int + 1);
                assert(s.drop_last() =~= self@.subrange(0, i as int));
                assert(s.last() == self@[i as int]);
                assert(self@[i as int].0 == self.0@[i as int].0@);
                assert(self@[i as int].1 == self.0@[i as int].1.0);
            }
            total = total + 4 + self.0[i].0.as_str().len() + self.0[i].1.serialized_length();
            i += 1;
        }
        assert(self@.subrange(0, i as int) =~= self@);
        total
    }

    /// The encoding of this schema.
    pub fn to_bytes(&self) -> (r: Result<Vec<u8>, Error>)
        ensures
            r is Ok <==> schema_fits(self@),
            r matches Ok(v) ==> v@ == schema_bytes(self@),
            r is Err ==> r == Err::<Vec<u8>, Error>(Error::NotRepresentable),
    {
        let mut out: Vec<u8> = Vec::new();
        match self.write_bytes(&mut out) {
            Ok(()) => {
                assert(out@ =~= schema_bytes(self@));
                Ok(out)
            },
            Err(e) => Err(e),
        }
    }
}

/// A registered event type as the contracts see it: its name and its schema.
pub type EntryView = (Seq<char>, Seq<FieldView>);

/// Names sort by their UTF-8 bytes, as `str` does.
pub open spec fn name_lt(a: Seq<char>, b: Seq<char>) -> bool {
    lex_lt(encode_utf8(a), encode_utf8(b))
}

/// Entries in strictly ascending order of name; so no name twice.
pub open spec fn sorted_names(v: Seq<EntryView>) -> bool {
    forall|i: int, j: int| 0 <= i < j < v.len() ==> name_lt(#[trigger] v[i].0, #[trigger] v[j].0)
}

/// The encoding of one entry: its name as a string, then its schema.
pub open spec fn entry_bytes(e: EntryView) -> Seq<u8> {
    string_bytes(e.0) + schema_bytes(e.1)
}

/// The encodings of the entries one after the other.
pub open spec fn entries_bytes(v: Seq<EntryView>) -> Seq<u8>
    decreases v.len(),
{
    if v.len() == 0 {
        Seq::empty()
    } else {
        entries_bytes(v.drop_last()) + entry_bytes(v.last())
    }
}

/// The encoding of a registry: the number of entries as a `u32`, then the
/// entries in ascending order of name.
pub open spec fn registry_bytes(v: Seq<EntryView>) -> Seq<u8> {
    u32_le(v.len() as u32) + entries_bytes(v)
}

/// An entry can be encoded: its name and its schema fit.
pub open spec fn entry_fits(e: EntryView) -> bool {
    string_fits(e.0) && schema_fits(e.1)
}

/// A registry can be encoded: its entry count and each entry fit.
pub open spec fn registry_fits(v: Seq<EntryView>) -> bool {
    &&& v.len() <= u32::MAX
    &&& forall|i: int| 0 <= i < v.len() ==> entry_fits(#[trigger] v[i])
}

/// Equal encodings of names are equal names.
pub proof fn lemma_name_bytes_injective(a: Seq<char>, b: Seq<char>)
    requires
        encode_utf8(a) == encode_utf8(b),
    ensures
        a == b,
{
    encode_utf8_decode_utf8(a);
    encode_utf8_decode_utf8(b);
}

/// Any two distinct names are ordered one way or the other.
pub proof fn lemma_name_total(a: Seq<char>, b: Seq<char>)
    ensures
        a == b || name_lt(a, b) || name_lt(b, a),
{
    lemma_lex_total(encode_utf8(a), encode_utf8(b));
    if encode_utf8(a) == encode_utf8(b) {
        lemma_name_bytes_injective(a, b);
    }
}

/// `after` holds what `before` holds under other names, and `s` under `n`.
pub open spec fn registered(after: Seq<EntryView>, before: Seq<EntryView>, n: Seq<char>, s: Seq<
    FieldView,
>) -> bool {
    forall|e: EntryView| #[trigger] after.contains(e) <==> (e == (n, s) || (before.contains(e) && e.0
        != n))
}

impl Schema {
    /// Field by field equality of names and types.
    pub fn same(&self, o: &Schema) -> (r: bool)
        ensures
            r == (self@ == o@),
    {
        if self.0.len() != o.0.len() {
            assert(self@.len() != o@.len());
            return false;
        }
        let mut i: usize = 0;
        while i < self.0.len()
            invariant
                0 <= i <= self.0@.len(),
                self.0@.len() == o.0@.len(),
                self@.len() == self.0@.len(),
                o@.len() == o.0@.len(),
                self@.subrange(0, i as int) == o@.subrange(0, i as int),
            decreases self.0.len() - i,
        {
            assert(self@[i as int] == (self.0@[i as int].0@, self.0@[i as int].1.0));
            assert(o@[i as int] == (o.0@[i as int].0@, o.0@[i as int].1.0));
            if !(self.0[i].0 == o.0[i].0) || !self.0[i].1.0.same(&o.0[i].1.0) {
                assert(self@[i as int] != o@[i as int]);
                return false;
            }
            assert(self@.subrange(0, i as int + 1) =~= self@.subrange(0, i as int).push(self@[i as int]));
            assert(o@.subrange(0, i as int + 1) =~= o@.subrange(0, i as int).push(o@[i as int]));
            i += 1;
        }
        assert(self@ =~= self@.subrange(0, i as int));
        assert(o@ =~= o@.subrange(0, i as int));
        true
    }
}

impl PartialEq for Schema {
    fn eq(&self, o: &Schema) -> (r: bool) {
        self.same(o)
    }
}

impl vstd::std_specs::cmp::PartialEqSpecImpl for Schema {
    open spec fn obeys_eq_spec() -> bool {
        true
    }

    open spec fn eq_spec(&self, o: &Schema) -> bool {
        self@ == o@
    }
}

/// Reading `n` entries one after the other from `pos`, with the position
/// just after the last.
pub open spec fn read_entries_spec(b: Seq<u8>, pos: int, n: nat) -> Result<(Seq<EntryView>, int), Error>
    decreases n,
{
    if n == 0 {
        Ok((Seq::empty(), pos))
    } else {
        match read_entries_spec(b, pos, (n - 1) as nat) {
            Err(e) => Err(e),
            Ok((v, p)) => match read_string_spec(b, p) {
                Err(e) => Err(e),
                Ok((name, q)) => match read_schema_spec(b, q) {
                    Err(e) => Err(e),
                    Ok((sc, r)) => Ok((v.push((name, sc)), r)),
                },
            },
        }
    }
}

/// Reading a registry at `pos`: its entry count, then that many entries, in
/// the order they stand.
pub open spec fn read_registry_spec(b: Seq<u8>, pos: int) -> Result<(Seq<EntryView>, int), Error> {
    match read_u32_spec(b, pos) {
        Err(e) => Err(e),
        Ok((n, p)) => read_entries_spec(b, p, n as nat),
    }
}

/// `r` holds, for each name in `es`, the last entry of `es` with that name,
/// and nothing else.
pub open spec fn holds_last(r: Seq<EntryView>, es: Seq<EntryView>) -> bool {
    forall|e: EntryView| #[trigger] r.contains(e) <==> exists|i: int|
        0 <= i < es.len() && es[i] == e && forall|j: int| i < j < es.len() ==> (#[trigger] es[j]).0
            != e.0
}

proof fn lemma_read_entries_err(b: Seq<u8>, pos: int, k: nat, n: nat)
    requires
        k <= n,
        read_entries_spec(b, pos, k) is Err,
    ensures
        read_entries_spec(b, pos, n) == read_entries_spec(b, pos, k),
    decreases n,
{
    if n > k {
        lemma_read_entries_err(b, pos, k, (n - 1) as nat);
    }
}

proof fn lemma_read_entries_bounds(b: Seq<u8>, pos: int, n: nat)
    ensures
        read_entries_spec(b, pos, n) matches Ok((_, q)) ==> pos <= q && (n > 0 ==> q <= b.len()),
    decreases n,
{
    if n > 0 {
        lemma_read_entries_bounds(b, pos, (n - 1) as nat);
        if let Ok((_, p)) = read_entries_spec(b, pos, (n - 1) as nat) {
            if let Ok((_, q)) = read_string_spec(b, p) {
                lemma_read_schema_bounds(b, q);
            }
        }
    }
}

/// A successful read of a registry ends within the input.
pub proof fn lemma_read_registry_bounds(b: Seq<u8>, pos: int)
    ensures
        read_registry_spec(b, pos) matches Ok((_, q)) ==> pos <= q <= b.len(),
{
    if let Ok((n, p)) = read_u32_spec(b, pos) {
        lemma_read_entries_bounds(b, p, n as nat);
    }
}

/// Registering one more entry keeps `holds_last`.
proof fn lemma_holds_last_push(r0: Seq<EntryView>, r1: Seq<EntryView>, es: Seq<EntryView>, x: EntryView)
    requires
        holds_last(r0, es),
        registered(r1, r0, x.0, x.1),
    ensures
        holds_last(r1, es.push(x)),
{
    let es1 = es.push(x);
    assert forall|e: EntryView| #[trigger] r1.contains(e) <==> exists|i: int|
        0 <= i < es1.len() && es1[i] == e && forall|j: int| i < j < es1.len() ==> (#[trigger] es1[j]).0
            != e.0 by {
        if e == x {
            assert(es1[es.len() as int] == e);
        } else if r0.contains(e) && e.0 != x.0 {
            let i = choose|i: int|
                0 <= i < es.len() && es[i] == e && forall|j: int| i < j < es.len() ==> (#[trigger] es[j]).0
                    != e.0;
            assert(es1[i] == e);
            assert forall|j: int| i < j < es1.len() implies (#[trigger] es1[j]).0 != e.0 by {
                if j < es.len() {
                    assert(es1[j] == es[j]);
                }
            }
        }
        if exists|i: int|
            0 <= i < es1.len() && es1[i] == e && forall|j: int| i < j < es1.len() ==> (#[trigger] es1[j]).0
                != e.0 {
            let i = choose|i: int|
                0 <= i < es1.len() && es1[i] == e && forall|j: int| i < j < es1.len() ==> (#[trigger] es1[j]).0
                    != e.0;
            if i < es.len() {
                assert(es1[es.len() as int].0 != e.0);
                assert(es[i] == e);
                assert forall|j: int| i < j < es.len() implies (#[trigger] es[j]).0 != e.0 by {
                    assert(es1[j] == es[j]);
                }
                assert(r0.contains(e));
            }
        }
    }
}

/// A sorted sequence of entries with distinct names is the registry that
/// keeps the last entry of each of its names.
proof fn lemma_holds_last_sorted(r: Seq<EntryView>, v: Seq<EntryView>)
    requires
        sorted_names(r),
        sorted_names(v),
        holds_last(r, v),
    ensures
        r == v,
{
    assert forall|e: EntryView| r.contains(e) <==> v.contains(e) by {
        if v.contains(e) {
            let i = choose|i: int| 0 <= i < v.len() && v[i] == e;
            assert forall|j: int| i < j < v.len() implies (#[trigger] v[j]).0 != e.0 by {
                assert(name_lt(v[i].0, v[j].0));
                lemma_lex_irreflexive(encode_utf8(e.0));
            }
        }
        if r.contains(e) {
            assert(r.contains(e));
        }
    }
    lemma_sorted_same_entries(r, v);
}

proof fn lemma_read_entries_round_trip(v: Seq<EntryView>, b: Seq<u8>, pos: int)
    requires
        0 <= pos,
        forall|i: int| 0 <= i < v.len() ==> entry_fits(#[trigger] v[i]),
        pos + entries_bytes(v).len() <= b.len(),
        b.subrange(pos, pos + entries_bytes(v).len()) == entries_bytes(v),
    ensures
        read_entries_spec(b, pos, v.len()) == Ok::<(Seq<EntryView>, int), Error>(
            (v, pos + entries_bytes(v).len()),
        ),
    decreases v.len(),
{
    if v.len() > 0 {
        let init = v.drop_last();
        let e = v.last();
        let eb = entries_bytes(v);
        let li = entries_bytes(init).len() as int;
        let ls = string_bytes(e.0).len() as int;
        let lt = schema_bytes(e.1).len() as int;
        assert(eb == entries_bytes(init) + string_bytes(e.0) + schema_bytes(e.1));
        assert(b.subrange(pos, pos + li) =~= eb.subrange(0, li));
        assert(eb.subrange(0, li) =~= entries_bytes(init));
        assert forall|i: int| 0 <= i < init.len() implies entry_fits(#[trigger] init[i]) by {
            assert(init[i] == v[i]);
        }
        lemma_read_entries_round_trip(init, b, pos);
        assert(entry_fits(v[v.len() - 1]));
        assert(b.subrange(pos + li, pos + li + ls) =~= eb.subrange(li, li + ls));
        assert(eb.subrange(li, li + ls) =~= string_bytes(e.0));
        lemma_string_round_trip(e.0, b, pos + li);
        let q = pos + li + ls;
        assert(b.subrange(q, b.len() as int) == b.subrange(q, q + lt) + b.subrange(q + lt, b.len() as int)) by {
            assert(b.subrange(q, b.len() as int) =~= b.subrange(q, q + lt) + b.subrange(q + lt, b.len() as int));
        }
        assert(b.subrange(q, q + lt) =~= eb.subrange(li + ls, li + ls + lt));
        assert(eb.subrange(li + ls, li + ls + lt) =~= schema_bytes(e.1));
        lemma_schema_at(e.1, b, q);
        assert(init.push(e) =~= v);
        assert(init.len() == (v.len() - 1) as nat);
    } else {
        assert(v =~= Seq::<EntryView>::empty());
    }
}

/// A schema's encoding read back where it stands in a buffer.
proof fn lemma_schema_at(v: Seq<FieldView>, b: Seq<u8>, pos: int)
    requires
        schema_fits(v),
        0 <= pos,
        pos + schema_bytes(v).len() <= b.len(),
        b.subrange(pos, pos + schema_bytes(v).len()) == schema_bytes(v),
    ensures
        read_schema_spec(b, pos) == Ok::<(Seq<FieldView>, int), Error>(
            (v, pos + schema_bytes(v).len()),
        ),
{
    let sb = schema_bytes(v);
    assert(b[pos] == sb[0] && b[pos + 1] == sb[1] && b[pos + 2] == sb[2] && b[pos + 3] == sb[3]);
    lemma_u32_le_round_trip(v.len() as u32);
    let lf = fields_bytes(v).len() as int;
    assert(b.subrange(pos + 4, pos + 4 + lf) =~= sb.subrange(4, 4 + lf));
    assert(sb.subrange(4, 4 + lf) =~= fields_bytes(v));
    lemma_read_fields_round_trip(v, b, pos + 4);
}

/// For every well-formed registry that can be encoded: reading its encoding
/// back, at the front of any buffer, gives its entries in order and ends
/// right after the encoding; and a well-formed registry that keeps the last
/// entry of each name among them is that same registry.
pub proof fn lemma_registry_round_trip(v: Seq<EntryView>, rest: Seq<u8>, decoded: Seq<EntryView>)
    requires
        sorted_names(v),
        registry_fits(v),
        sorted_names(decoded),
        holds_last(decoded, v),
    ensures
        read_registry_spec(registry_bytes(v) + rest, 0) == Ok::<(Seq<EntryView>, int), Error>(
            (v, registry_bytes(v).len() as int),
        ),
        decoded == v,
{
    let b = registry_bytes(v) + rest;
    assert(b[0] == u32_le(v.len() as u32)[0] && b[1] == u32_le(v.len() as u32)[1]
        && b[2] == u32_le(v.len() as u32)[2] && b[3] == u32_le(v.len() as u32)[3]);
    lemma_u32_le_round_trip(v.len() as u32);
    assert(b.subrange(4, 4 + entries_bytes(v).len() as int) =~= entries_bytes(v));
    lemma_read_entries_round_trip(v, b, 4);
    lemma_holds_last_sorted(decoded, v);
}

/// The schemas of all event types of a program, by name.
#[derive(Debug)]
pub struct Schemas(Vec<(String, Schema)>);

impl View for Schemas {
    type V = Seq<EntryView>;

    closed spec fn view(&self) -> Seq<EntryView> {
        self.0@.map_values(|e: (String, Schema)| (e.0@, e.1@))
    }
}

/// The source of a schema for an event type, as generated for each such type.
pub trait EventInstance {
    /// The event type's name, without prefix.
    fn name() -> String;

    /// The event type's fields, in declaration order.
    fn schema() -> Schema;
}

impl PartialEq for Schemas {
    fn eq(&self, o: &Schemas) -> (r: bool) {
        self.same(o)
    }
}

impl vstd::std_specs::cmp::PartialEqSpecImpl for Schemas {
    open spec fn obeys_eq_spec() -> bool {
        true
    }

    open spec fn eq_spec(&self, o: &Schemas) -> bool {
        self@ == o@
    }
}

impl Schemas {
    /// Entry by entry equality of names and schemas.
    pub fn same(&self, o: &Schemas) -> (r: bool)
        ensures
            r == (self@ == o@),
    {
        if self.0.len() != o.0.len() {
            assert(self@.len() != o@.len());
            return false;
        }
        let mut i: usize = 0;
        while i < self.0.len()
            invariant
                0 <= i <= self.0@.len(),
                self.0@.len() == o.0@.len(),
                self@.len() == self.0@.len(),
                o@.len() == o.0@.len(),
                self@.subrange(0, i as int) == o@.subrange(0, i as int),
            decreases self.0.len() - i,
        {
            assert(self@[i as int] == (self.0@[i as int].0@, self.0@[i as int].1@));
            assert(o@[i as int] == (o.0@[i as int].0@, o.0@[i as int].1@));
            if !(self.0[i].0 == o.0[i].0) || !self.0[i].1.same(&o.0[i].1) {
                assert(self@[i as int] != o@[i as int]);
                return false;
            }
            assert(self@.subrange(0, i as int + 1) =~= self@.subrange(0, i as int).push(self@[i as int]));
            assert(o@.subrange(0, i as int + 1) =~= o@.subrange(0, i as int).push(o@[i as int]));
            i += 1;
        }
        assert(self@ =~= self@.subrange(0, i as int));
        assert(o@ =~= o@.subrange(0, i as int));
        true
    }

    /// Entries sorted by name, each name once.
    pub open spec fn wf(&self) -> bool {
        sorted_names(self@)
    }

    /// A registry without entries.
    pub fn new() -> (r: Schemas)
        ensures
            r.wf(),
            r@ == Seq::<EntryView>::empty(),
    {
        let r = Schemas(Vec::new());
        assert(r@ =~= Seq::<EntryView>::empty());
        r
    }

    /// Registers `schema` under `name`, in place of any schema that the name
    /// had.
    pub fn add_schema(&mut self, name: String, schema: Schema)
        requires
            old(self).wf(),
        ensures
            final(self).wf(),
            registered(final(self)@, old(self)@, name@, schema@),
    {
        let ghost old_v = self@;
        let ghost x = (name@, schema@);
        let len = self.0.len();
        let mut i: usize = 0;
        while i < len
            invariant
                len == self.0@.len(),
                self@ == old_v,
                0 <= i <= len,
                forall|j: int| 0 <= j < i ==> name_lt(#[trigger] old_v[j].0, name@),
            ensures
                0 <= i <= len,
                forall|j: int| 0 <= j < i ==> name_lt(#[trigger] old_v[j].0, name@),
                i < len ==> !name_lt(old_v[i as int].0, name@),
            decreases len - i,
        {
            assert(old_v[i as int].0 == self.0@[i as int].0@);
            if !bytes_lt(self.0[i].0.as_str().as_bytes(), name.as_str().as_bytes()) {
                break;
            }
            i += 1;
        }
        let mut replaced = false;
        if i < len {
            assert(old_v[i as int].0 == self.0@[i as int].0@);
            if bytes_eq(self.0[i].0.as_str().as_bytes(), name.as_str().as_bytes()) {
                proof {
                    lemma_name_bytes_injective(old_v[i as int].0, name@);
                }
                self.0.remove(i);
                replaced = true;
            }
        }
        let ghost mid = self@;
        proof {
            if replaced {
                assert(mid =~= old_v.remove(i as int));
            } else {
                assert(mid =~= old_v);
            }
        }
        self.0.insert(i, (name, schema));
        proof {
            let nv = final(self)@;
            assert(nv =~= mid.insert(i as int, x));
            // Every entry from position i on in `mid` sorts after the new name.
            assert forall|j: int| i <= j < mid.len() implies name_lt(x.0, #[trigger] mid[j].0) by {
                let oj = if replaced { j + 1 } else { j };
                assert(mid[j] == old_v[oj]);
                lemma_name_total(old_v[i as int].0, x.0);
                if oj > i {
                    assert(name_lt(old_v[i as int].0, old_v[oj].0));
                    if old_v[i as int].0 != x.0 {
                        lemma_lex_transitive(
                            encode_utf8(x.0),
                            encode_utf8(old_v[i as int].0),
                            encode_utf8(old_v[oj].0),
                        );
                    }
                }
            }
            assert forall|a: int, b: int| 0 <= a < b < nv.len() implies name_lt(
                #[trigger] nv[a].0,
                #[trigger] nv[b].0,
            ) by {
                if b < i {
                } else if a < i && b == i {
                } else if a < i {
                    assert(nv[b] == mid[b - 1]);
                    let ob = if replaced { b } else { b - 1 };
                    assert(mid[b - 1] == old_v[ob]);
                } else if a == i {
                    assert(nv[b] == mid[b - 1]);
                } else {
                    let oa = if replaced { a } else { a - 1 };
                    let ob = if replaced { b } else { b - 1 };
                    assert(nv[a] == old_v[oa]);
                    assert(nv[b] == old_v[ob]);
                }
            }
            assert forall|e: EntryView| #[trigger] nv.contains(e) <==> (e == x || (old_v.contains(e)
                && e.0 != x.0)) by {
                if nv.contains(e) {
                    let k = choose|k: int| 0 <= k < nv.len() && nv[k] == e;
                    if k != i {
                        let m = if k < i { k } else { k - 1 };
                        assert(nv[k] == mid[m]);
                        let o = if replaced && m >= i { m + 1 } else { m };
                        assert(mid[m] == old_v[o]);
                        if k < i {
                            lemma_lex_irreflexive(encode_utf8(x.0));
                        } else {
                            assert(name_lt(x.0, mid[m].0));
                            lemma_lex_irreflexive(encode_utf8(x.0));
                        }
                    }
                }
                if e == x {
                    assert(nv[i as int] == x);
                } else if old_v.contains(e) && e.0 != x.0 {
                    let k = choose|k: int| 0 <= k < old_v.len() && old_v[k] == e;
                    if k < i {
                        assert(nv[k] == e);
                    } else if replaced && k == i {
                        assert(false);
                    } else {
                        let m = if replaced { k - 1 } else { k };
                        assert(mid[m] == e);
                        assert(nv[m + 1] == e);
                    }
                }
            }
        }
    }

    /// Registers the schema of the event type `T` under its name.
    pub fn add<T: EventInstance>(&mut self)
        requires
            old(self).wf(),
        ensures
            final(self).wf(),
            exists|n: Seq<char>, s: Seq<FieldView>| #[trigger] registered(final(self)@, old(self)@, n, s),
    {
        let name = T::name();
        let schema = T::schema();
        let ghost n = name@;
        let ghost s = schema@;
        self.add_schema(name, schema);
        assert(registered(final(self)@, old(self)@, n, s));
    }

    /// The registry with the schema of the event type `T` added.
    pub fn with<T: EventInstance>(self) -> (r: Schemas)
        requires
            self.wf(),
        ensures
            r.wf(),
            exists|n: Seq<char>, s: Seq<FieldView>| #[trigger] registered(r@, self@, n, s),
    {
        let mut r = self;
        r.add::<T>();
        r
    }

    /// Reads a registry at `pos`, giving the position just after it. Where a
    /// name stands twice, its last schema is kept.
    pub fn read(b: &[u8], pos: usize) -> (r: Result<(Schemas, usize), Error>)
        ensures
            match read_registry_spec(b@, pos as int) {
                Ok((es, p)) => r matches Ok((reg, q)) && reg.wf() && holds_last(reg@, es) && q == p,
                Err(e) => r matches Err(f) && f == e,
            },
    {
        let (n, p0) = match read_u32(b, pos) {
            Ok(x) => x,
            Err(e) => return Err(e),
        };
        assert(read_u32_spec(b@, pos as int) == Ok::<(u32, int), Error>((n, p0 as int)));
        let mut reg = Schemas::new();
        let ghost es: Seq<EntryView> = Seq::empty();
        let mut p = p0;
        let mut i: u32 = 0;
        while i < n
            invariant
                0 <= i <= n,
                read_registry_spec(b@, pos as int) == read_entries_spec(b@, p0 as int, n as nat),
                read_entries_spec(b@, p0 as int, i as nat) == Ok::<(Seq<EntryView>, int), Error>(
                    (es, p as int),
                ),
                reg.wf(),
                holds_last(reg@, es),
            decreases n - i,
        {
            let (name, q) = match read_string(b, p) {
                Ok(x) => x,
                Err(e) => {
                    proof {
                        lemma_read_entries_err(b@, p0 as int, (i + 1) as nat, n as nat);
                    }
                    return Err(e);
                },
            };
            let (sc, r) = match Schema::read(b, q) {
                Ok(x) => x,
                Err(e) => {
                    proof {
                        lemma_read_entries_err(b@, p0 as int, (i + 1) as nat, n as nat);
                    }
                    return Err(e);
                },
            };
            let ghost x = (name@, sc@);
            let ghost before = reg@;
            reg.add_schema(name, sc);
            proof {
                lemma_holds_last_push(before, reg@, es, x);
                es = es.push(x);
            }
            p = r;
            i += 1;
        }
        Ok((reg, p))
    }

    /// Decodes a registry from the front of `bytes`, giving the bytes that
    /// follow it.
    pub fn from_bytes(bytes: &[u8]) -> (r: Result<(Schemas, &[u8]), Error>)
        ensures
            match read_registry_spec(bytes@, 0) {
                Ok((es, p)) => r matches Ok((reg, rest)) && reg.wf() && holds_last(reg@, es)
                    && rest@ == bytes@.subrange(p, bytes@.len() as int),
                Err(e) => r matches Err(f) && f == e,
            },
    {
        match Schemas::read(bytes, 0) {
            Ok((reg, p)) => {
                proof {
                    lemma_read_registry_bounds(bytes@, 0);
                }
                Ok((reg, slice_subrange(bytes, p, bytes.len())))
            },
            Err(e) => Err(e),
        }
    }

    /// The number of bytes that `to_bytes` gives.
    pub fn serialized_length(&self) -> (r: usize)
        requires
            registry_fits(self@),
            registry_bytes(self@).len() <= usize::MAX,
        ensures
            r == registry_bytes(self@).len(),
    {
        let mut total: usize = 4;
        let mut i: usize = 0;
        while i < self.0.len()
            invariant
                0 <= i <= self.0@.len(),
                self@.len() == self.0@.len(),
                registry_bytes(self@).len() <= usize::MAX,
                registry_fits(self@),
                total == 4 + entries_bytes(self@.subrange(0, i as int)).len(),
            decreases self.0.len() - i,
        {
            proof {
                lemma_entries_prefix_len(self@, i as int + 1);
                let s = self@.subrange(0, i as int + 1);
                assert(s.drop_last() =~= self@.subrange(0, i as int));
                assert(s.last() == self@[i as int]);
                assert(self@[i as int].0 == self.0@[i as int].0@);
                assert(self@[i as int].1 == self.0@[i as int].1@);
                assert(entry_fits(self@[i as int]));
            }
            total = total + 4 + self.0[i].0.as_str().len() + self.0[i].1.serialized_length();
            i += 1;
        }
        assert(self@.subrange(0, i as int) =~= self@);
        total
    }

    /// The encoding of this registry: entries in ascending order of name.
    pub fn to_bytes(&self) -> (r: Result<Vec<u8>, Error>)
        ensures
            r is Ok <==> registry_fits(self@),
            r matches Ok(v) ==> v@ == registry_bytes(self@),
            r is Err ==> r == Err::<Vec<u8>, Error>(Error::NotRepresentable),
    {
        let mut out: Vec<u8> = Vec::new();
        if self.0.len() > u32::MAX as usize {
            return Err(Error::NotRepresentable);
        }
        write_u32(self.0.len() as u32, &mut out);
        let ghost start = u32_le(self.0.len() as u32);
        let mut i: usize = 0;
        while i < self.0.len()
            invariant
                0 <= i <= self.0@.len(),
                self@.len() == self.0@.len(),
                out@ == start + entries_bytes(self@.subrange(0, i as int)),
                forall|j: int| 0 <= j < i ==> entry_fits(#[trigger] self@[j]),
            decreases self.0.len() - i,
        {
            assert(self@[i as int].0 == self.0@[i as int].0@);
            assert(self@[i as int].1 == self.0@[i as int].1@);
            match write_string(self.0[i].0.as_str(), &mut out) {
                Err(_) => {
                    return Err(Error::NotRepresentable);
                },
                Ok(()) => {},
            }
            match self.0[i].1.write_bytes(&mut out) {
                Err(_) => {
                    return Err(Error::NotRepresentable);
                },
                Ok(()) => {},
            }
            assert(entry_fits(self@[i as int]));
            proof {
                let s = self@.subrange(0, i as int + 1);
                assert(s.drop_last() =~= self@.subrange(0, i as int));
                assert(s.last() == self@[i as int]);
            }
            assert(out@ =~= start + entries_bytes(self@.subrange(0, i as int + 1)));
            i += 1;
        }
        assert(self@.subrange(0, i as int) =~= self@);
        Ok(out)
    }

    /// The descriptor of a registry: a map from string to list of
    /// (string, any) pairs.
    pub fn cl_type() -> (r: CLType)
        ensures
            r == (CLType::Mapping { key: Box::new(CLType::String), value: Box::new(schema_type()) }),
    {
        CLType::Mapping { key: Box::new(CLType::String), value: Box::new(Schema::cl_type()) }
    }
}

/// Two sorted entry sequences that hold the same entries are the same.
proof fn lemma_sorted_same_entries(a: Seq<EntryView>, b: Seq<EntryView>)
    requires
        sorted_names(a),
        sorted_names(b),
        forall|e: EntryView| a.contains(e) <==> b.contains(e),
    ensures
        a == b,
    decreases a.len(),
{
    if a.len() == 0 {
        if b.len() > 0 {
            assert(b.contains(b[0]));
        }
        assert(a =~= b);
    } else if b.len() == 0 {
        assert(a.contains(a[0]));
    } else {
        assert(a.contains(a[0]));
        assert(b.contains(b[0]));
        let i = choose|i: int| 0 <= i < a.len() && a[i] == b[0];
        let j = choose|j: int| 0 <= j < b.len() && b[j] == a[0];
        lemma_lex_irreflexive(encode_utf8(a[0].0));
        if j > 0 {
            assert(name_lt(b[0].0, b[j].0));
            if i > 0 {
                assert(name_lt(a[0].0, a[i].0));
                lemma_lex_transitive(encode_utf8(a[0].0), encode_utf8(b[0].0), encode_utf8(a[0].0));
            }
        }
        assert(a[0] == b[0]);
        let ta = a.drop_first();
        let tb = b.drop_first();
        assert forall|e: EntryView| ta.contains(e) <==> tb.contains(e) by {
            if ta.contains(e) {
                let k = choose|k: int| 0 <= k < ta.len() && ta[k] == e;
                assert(a[k + 1] == e);
                assert(a.contains(e));
                let m = choose|m: int| 0 <= m < b.len() && b[m] == e;
                assert(name_lt(a[0].0, e.0));
                if m == 0 {
                    lemma_lex_irreflexive(encode_utf8(e.0));
                }
                assert(tb[m - 1] == e);
            }
            if tb.contains(e) {
                let k = choose|k: int| 0 <= k < tb.len() && tb[k] == e;
                assert(b[k + 1] == e);
                assert(b.contains(e));
                let m = choose|m: int| 0 <= m < a.len() && a[m] == e;
                assert(name_lt(b[0].0, e.0));
                if m == 0 {
                    lemma_lex_irreflexive(encode_utf8(e.0));
                }
                assert(ta[m - 1] == e);
            }
        }
        assert(sorted_names(ta));
        assert(sorted_names(tb));
        lemma_sorted_same_entries(ta, tb);
        assert(a =~= seq![a[0]] + ta);
        assert(b =~= seq![b[0]] + tb);
    }
}

/// Two well-formed registries that hold the same (name, schema) entries,
/// whatever order they were registered in, are equal and encode to the same
/// bytes.
pub proof fn lemma_registry_order_independent(a: Schemas, b: Schemas)
    requires
        a.wf(),
        b.wf(),
        forall|e: EntryView| a@.contains(e) <==> b@.contains(e),
    ensures
        a@ == b@,
        registry_bytes(a@) == registry_bytes(b@),
{
    lemma_sorted_same_entries(a@, b@);
}

/// Registering two event types under different names gives the same
/// registry, and the same bytes, in either order.
pub proof fn lemma_registration_commutes(
    r0: Seq<EntryView>,
    n1: Seq<char>,
    s1: Seq<FieldView>,
    n2: Seq<char>,
    s2: Seq<FieldView>,
    r1: Seq<EntryView>,
    r12: Seq<EntryView>,
    r2: Seq<EntryView>,
    r21: Seq<EntryView>,
)
    requires
        n1 != n2,
        sorted_names(r12),
        sorted_names(r21),
        registered(r1, r0, n1, s1),
        registered(r12, r1, n2, s2),
        registered(r2, r0, n2, s2),
        registered(r21, r2, n1, s1),
    ensures
        r12 == r21,
        registry_bytes(r12) == registry_bytes(r21),
{
    assert forall|e: EntryView| r12.contains(e) <==> r21.contains(e) by {
        assert(r12.contains(e) == (e == (n2, s2) || (r1.contains(e) && e.0 != n2)));
        assert(r21.contains(e) == (e == (n1, s1) || (r2.contains(e) && e.0 != n1)));
        assert(r1.contains(e) == (e == (n1, s1) || (r0.contains(e) && e.0 != n1)));
        assert(r2.contains(e) == (e == (n2, s2) || (r0.contains(e) && e.0 != n2)));
    }
    lemma_sorted_same_entries(r12, r21);
}

} // verus!

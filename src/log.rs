//! The append-only event log over a store of named keys: a length counter,
//! a dictionary of encoded events by index, the schema registry and the
//! version, all written once by initialization.

use vstd::prelude::*;
use crate::bytesrepr::{Error, read_string_spec};
use crate::record::{event_bytes, event_bytes_spec, event_fields, full_name_spec};
use crate::schema::{Schemas, registry_bytes, registry_fits};
use crate::bytesrepr::string_fits;

verus! {

/// The key under which the events are stored.
pub const EVENTS_DICT: &'static str = "__events";
/// The key under which the events length is stored.
pub const EVENTS_LENGTH: &'static str = "__events_length";
/// The key under which the event schemas are stored.
pub const EVENTS_SCHEMA: &'static str = "__events_schema";
/// The key under which the version of the standard is stored.
pub const CES_VERSION_KEY: &'static str = "__events_ces_version";
/// The version of the standard that this library implements.
pub const CES_VERSION: &'static str = "1.1";

/// The version text as characters.
pub open spec fn version_spec() -> Seq<char> {
    seq!['1', '.', '1']
}

/// Failure of a log operation.
#[derive(Debug, Clone, Copy, PartialEq, Eq, Structural)]
pub enum LogError {
    /// Initialization found one of its keys already present.
    AlreadyInitialized,
    /// The log has not been initialized.
    NotInitialized,
    /// No event is stored at the index.
    KeyAbsent,
    /// The length counter is at its maximum.
    LengthOverflow,
    /// Encoding or decoding failed.
    Format(Error),
}

/// The store's keys as the contracts see them; `None` for an absent key.
pub struct LogView {
    pub length: Option<u32>,
    pub schema: Option<Seq<u8>>,
    pub dict: Option<Seq<Seq<u8>>>,
    pub version: Option<Seq<char>>,
}

/// Some key of initialization is present.
pub open spec fn any_key(v: LogView) -> bool {
    v.length is Some || v.schema is Some || v.dict is Some
}

/// What initialization with the encoded registry `schema` makes of `v`:
/// `None` where it is refused.
pub open spec fn init_spec(v: LogView, schema: Seq<u8>) -> Option<LogView> {
    if any_key(v) {
        None
    } else {
        Some(
            LogView {
                length: Some(0u32),
                schema: Some(schema),
                dict: Some(Seq::empty()),
                version: Some(version_spec()),
            },
        )
    }
}

/// The log is initialized and its counter is the number of stored events.
pub open spec fn ready(v: LogView) -> bool {
    &&& v.length is Some
    &&& v.dict is Some
    &&& v.dict.unwrap().len() == v.length.unwrap()
}

/// What appending `e` makes of `v`: `None` where it is refused.
pub open spec fn append_spec(v: LogView, e: Seq<u8>) -> Option<LogView> {
    if !ready(v) || v.length.unwrap() == u32::MAX {
        None
    } else {
        Some(LogView { length: Some((v.length.unwrap() + 1) as u32), dict: Some(v.dict.unwrap().push(e)), ..v })
    }
}

/// The result of appending each of `es` in turn; `None` once one is refused.
pub open spec fn append_all(v: LogView, es: Seq<Seq<u8>>) -> Option<LogView>
    decreases es.len(),
{
    if es.len() == 0 {
        Some(v)
    } else {
        match append_all(v, es.drop_last()) {
            None => None,
            Some(w) => append_spec(w, es.last()),
        }
    }
}

/// The event stored at `index`, if any.
pub open spec fn read_spec(v: LogView, index: u32) -> Option<Seq<u8>> {
    if v.dict is Some && index < v.dict.unwrap().len() {
        Some(v.dict.unwrap()[index as int])
    } else {
        None
    }
}

/// A store of events: the state behind the well-known keys. Nothing is ever
/// removed from it or overwritten.
pub struct EventLog {
    length: Option<u32>,
    schema: Option<Vec<u8>>,
    dict: Option<Vec<Vec<u8>>>,
    version: Option<String>,
}

impl View for EventLog {
    type V = LogView;

    closed spec fn view(&self) -> LogView {
        LogView {
            length: self.length,
            schema: match self.schema {
                Some(s) => Some(s@),
                None => None,
            },
            dict: match self.dict {
                Some(d) => Some(d@.map_values(|e: Vec<u8>| e@)),
                None => None,
            },
            version: match self.version {
                Some(s) => Some(s@),
                None => None,
            },
        }
    }
}

impl EventLog {
    /// Once the counter is there, the dictionary is there and holds as many
    /// events as it counts.
    pub open spec fn wf(&self) -> bool {
        self@.length is Some ==> ready(self@)
    }

    /// A store in which no key is present yet.
    pub fn new() -> (r: EventLog)
        ensures
            r@.length is None,
            r@.schema is None,
            r@.dict is None,
            r@.version is None,
            r.wf(),
    {
        EventLog { length: None, schema: None, dict: None, version: None }
    }

    /// The length counter, if present.
    pub fn length(&self) -> (r: Option<u32>)
        ensures
            r == self@.length,
    {
        self.length
    }

    /// The stored registry encoding, if present.
    pub fn schema_bytes(&self) -> (r: Option<&Vec<u8>>)
        ensures
            match self@.schema {
                Some(s) => r matches Some(b) && b@ == s,
                None => r is None,
            },
    {
        match &self.schema {
            Some(s) => Some(s),
            None => None,
        }
    }

    /// The stored version, if present.
    pub fn version(&self) -> (r: Option<&String>)
        ensures
            match self@.version {
                Some(s) => r matches Some(b) && b@ == s,
                None => r is None,
            },
    {
        match &self.version {
            Some(s) => Some(s),
            None => None,
        }
    }

    /// The encoded event stored at `index`, if any.
    pub fn event_at(&self, index: u32) -> (r: Option<&Vec<u8>>)
        ensures
            match read_spec(self@, index) {
                Some(e) => r matches Some(b) && b@ == e,
                None => r is None,
            },
    {
        match &self.dict {
            Some(d) => if (index as usize) < d.len() {
                Some(&d[index as usize])
            } else {
                None
            },
            None => None,
        }
    }
}

/// Whether initialization may go ahead, given which of its keys are present.
pub fn check_init(length_present: bool, schema_present: bool, dict_present: bool) -> (r: Result<
    (),
    LogError,
>)
    ensures
        r is Ok <==> !length_present && !schema_present && !dict_present,
        r is Err ==> r == Err::<(), LogError>(LogError::AlreadyInitialized),
{
    if length_present || schema_present || dict_present {
        Err(LogError::AlreadyInitialized)
    } else {
        Ok(())
    }
}

/// The counter after appending to a log that counts `length` events.
pub fn next_length(length: u32) -> (r: Result<u32, LogError>)
    ensures
        length < u32::MAX ==> r == Ok::<u32, LogError>((length + 1) as u32),
        length == u32::MAX ==> r == Err::<u32, LogError>(LogError::LengthOverflow),
{
    if length == u32::MAX {
        Err(LogError::LengthOverflow)
    } else {
        Ok(length + 1)
    }
}

/// Initializes the log: creates the dictionary and writes the length 0, the
/// encoded registry and the version. Refused, with nothing written, where a
/// key of the log is already present.
pub fn init(log: &mut EventLog, schemas: &Schemas) -> (r: Result<(), LogError>)
    requires
        old(log).wf(),
    ensures
        final(log).wf(),
        any_key(old(log)@) ==> r == Err::<(), LogError>(LogError::AlreadyInitialized),
        !any_key(old(log)@) && !registry_fits(schemas@) ==> r == Err::<(), LogError>(
            LogError::Format(Error::NotRepresentable),
        ),
        r is Ok <==> !any_key(old(log)@) && registry_fits(schemas@),
        r is Ok ==> init_spec(old(log)@, registry_bytes(schemas@)) == Some(final(log)@),
        r is Err ==> final(log)@ == old(log)@,
{
    if let Err(e) = check_init(log.length.is_some(), log.schema.is_some(), log.dict.is_some()) {
        return Err(e);
    }
    let bytes = match schemas.to_bytes() {
        Ok(b) => b,
        Err(e) => return Err(LogError::Format(e)),
    };
    proof {
        reveal_strlit("1.1");
    }
    log.dict = Some(Vec::new());
    log.length = Some(0);
    log.schema = Some(bytes);
    log.version = Some("1.1".to_owned());
    proof {
        assert(final(log)@.dict.unwrap() =~= Seq::<Seq<u8>>::empty());
        assert("1.1"@ =~= version_spec());
    }
    Ok(())
}

/// Appends an encoded event under the next index and counts it. Gives the
/// index.
pub fn emit_bytes(log: &mut EventLog, event: Vec<u8>) -> (r: Result<u32, LogError>)
    requires
        old(log).wf(),
    ensures
        final(log).wf(),
        old(log)@.length is None || old(log)@.dict is None ==> r == Err::<u32, LogError>(
            LogError::NotInitialized,
        ),
        ready(old(log)@) && old(log)@.length.unwrap() == u32::MAX ==> r == Err::<u32, LogError>(
            LogError::LengthOverflow,
        ),
        match append_spec(old(log)@, event@) {
            Some(v) => r == Ok::<u32, LogError>(old(log)@.length.unwrap()) && final(log)@ == v,
            None => r is Err && final(log)@ == old(log)@,
        },
{
    let n = match log.length {
        Some(n) => n,
        None => return Err(LogError::NotInitialized),
    };
    if log.dict.is_none() {
        return Err(LogError::NotInitialized);
    }
    let next = match next_length(n) {
        Ok(m) => m,
        Err(e) => return Err(e),
    };
    let ghost e = event@;
    let mut d = log.dict.take().unwrap();
    d.push(event);
    log.dict = Some(d);
    log.length = Some(next);
    proof {
        assert(final(log)@.dict.unwrap() =~= old(log)@.dict.unwrap().push(e));
    }
    Ok(n)
}

/// Encodes an event of type `name` with the field encodings `fields` and
/// appends it. Gives the index.
pub fn emit(log: &mut EventLog, name: &str, fields: &Vec<Vec<u8>>) -> (r: Result<u32, LogError>)
    requires
        old(log).wf(),
    ensures
        final(log).wf(),
        !string_fits(full_name_spec(name@)) ==> r == Err::<u32, LogError>(
            LogError::Format(Error::NotRepresentable),
        ),
        string_fits(full_name_spec(name@)) ==> match append_spec(
            old(log)@,
            event_bytes_spec(name@, fields@.map_values(|f: Vec<u8>| f@)),
        ) {
            Some(v) => r == Ok::<u32, LogError>(old(log)@.length.unwrap()) && final(log)@ == v,
            None => r is Err && final(log)@ == old(log)@,
        },
        r is Err ==> final(log)@ == old(log)@,
{
    match event_bytes(name, fields) {
        Ok(bytes) => emit_bytes(log, bytes),
        Err(e) => Err(LogError::Format(e)),
    }
}

/// Reads the event at `index`, which must be of type `name`, and gives the
/// bytes of its fields.
pub fn read_event<'a>(log: &'a EventLog, index: u32, name: &str) -> (r: Result<&'a [u8], LogError>)
    ensures
        match read_spec(log@, index) {
            None => r == Err::<&[u8], LogError>(LogError::KeyAbsent),
            Some(b) => match read_string_spec(b, 0) {
                Ok((s, p)) => if s == full_name_spec(name@) {
                    r matches Ok(rest) && rest@ == b.subrange(p, b.len() as int)
                } else {
                    r == Err::<&[u8], LogError>(LogError::Format(Error::Formatting))
                },
                Err(e) => r == Err::<&[u8], LogError>(LogError::Format(e)),
            },
        },
{
    match log.event_at(index) {
        None => Err(LogError::KeyAbsent),
        Some(b) => match event_fields(b.as_slice(), name) {
            Ok(rest) => Ok(rest),
            Err(e) => Err(LogError::Format(e)),
        },
    }
}

/// Once initialization has succeeded, initializing again is refused.
pub proof fn lemma_init_once(v: LogView, first: Seq<u8>, second: Seq<u8>)
    requires
        init_spec(v, first) is Some,
    ensures
        init_spec(init_spec(v, first).unwrap(), second) is None,
{
}

/// Appending to a log that holds `n` events stores the new events after
/// them, in call order, and counts them all, as long as the counter fits.
pub proof fn lemma_append_all(w: LogView, es: Seq<Seq<u8>>)
    requires
        ready(w),
        w.length.unwrap() + es.len() <= u32::MAX,
    ensures
        append_all(w, es) matches Some(v) && ready(v) && v.length == Some(
            (w.length.unwrap() + es.len()) as u32,
        ) && v.dict == Some(w.dict.unwrap() + es) && v.schema == w.schema && v.version
            == w.version,
    decreases es.len(),
{
    if es.len() == 0 {
        assert(w.dict.unwrap() + es =~= w.dict.unwrap());
    } else {
        lemma_append_all(w, es.drop_last());
        assert(w.dict.unwrap() + es.drop_last() + seq![es.last()] =~= w.dict.unwrap() + es);
    }
}

/// Appending events `es` one after the other to a freshly initialized log
/// counts `es.len()` events, and reading index `i` gives `es[i]` byte for
/// byte.
pub proof fn lemma_append_order(v0: LogView, schema: Seq<u8>, es: Seq<Seq<u8>>)
    requires
        init_spec(v0, schema) is Some,
        es.len() <= u32::MAX,
    ensures
        append_all(init_spec(v0, schema).unwrap(), es) matches Some(v) && v.length == Some(
            es.len() as u32,
        ) && forall|i: int| 0 <= i < es.len() ==> #[trigger] read_spec(v, i as u32) == Some(es[i]),
{
    let w = init_spec(v0, schema).unwrap();
    lemma_append_all(w, es);
    assert(Seq::<Seq<u8>>::empty() + es =~= es);
}

} // verus!

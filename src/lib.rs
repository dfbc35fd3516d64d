//! Self-describing binary encoding of contract events: a recursive type
//! descriptor codec, event schemas, record name framing and an append-only
//! event log.

pub mod bytesrepr;
pub mod cl_type;
pub mod example;
pub mod log;
pub mod order;
pub mod record;
pub mod schema;

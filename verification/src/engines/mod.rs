//! The log-structured storage engine: the record format, the index, and the
//! bookkeeping of the single writer.

pub mod index;
pub mod kvs;
pub mod record;

//! A persistent key-value store behind a small text protocol: the wire codec,
//! the format of the log, the bookkeeping of the log's single writer, and the
//! decisions of the server and of its worker pool.

pub mod de;
pub mod engines;
pub mod error;
pub mod proto;
pub mod server;
pub mod text;
pub mod thread_pool;

pub use de::{from_buf_reader, from_str, FromResp, SimpleDeserializer, Step, StreamDeserializer};
pub use engines::index::{Index, IndexReader, Meta};
pub use engines::kvs::{compact_file, data_file, record_value};
pub use engines::kvs::{IndexWriter, Pending, Side, COMPACT_THRESHOLD_BYTES};
pub use engines::record::{read_record, Command};
pub use error::{KvsError, ParseError};
pub use proto::{parse_reply, parse_request, reply_of_line, to_i64, Reply, Request};
pub use server::{after_accept, check_old_engine, handle_request, reply_to_get};
pub use server::{reply_to_parse_error, reply_to_write};
pub use server::{select_engine, AcceptStep, EngineOpt, KvsEngine};
pub use thread_pool::ThreadPool;

//! A persistent, log-structured key-value store.
//!
//! Keys and values are opaque text strings.  The store keeps an append-only
//! log of `Set` and `Remove` records across numbered generation files, an
//! in-memory index from key to record position, and reclaims dead bytes with
//! an online compaction pass once they exceed a fixed threshold.
//!
//! [`KvStore`] is the verified engine: opening, reading, writing and
//! compacting the log, with its bindings modeled as a map from key to
//! value.  [`Request`] and [`Response`] are the wire protocol, and
//! [`handle_request_bytes`] is the server's verified compute step from
//! request frame to response frame.  A runtime shell around the library
//! does what the verifier cannot see: it keeps the log files on disk in
//! step with [`KvStore::files_snapshot`], carries frames over the
//! network, and runs the worker pool behind [`ThreadPool`].

use vstd::prelude::*;

mod command;
mod engines;
mod error;
mod index;
mod logpath;
mod protocol;
mod store;
mod thread_pool;

pub use command::{Command, CommandPos, RecModel};
pub use engines::KvsEngine;
pub use error::KvsError;
pub use logpath::{gen_file_list, parse_gen_name, recover_log};
pub use protocol::{
    decode_request, decode_response, encode_request, encode_response, handle_request,
    handle_request_bytes, ReqModel, Request, RespModel, Response,
};
pub use store::{KvStore, LogFile, COMPACTION_THRESHOLD};
pub use thread_pool::{NaiveThreadPool, ThreadPool};

verus! {

} // verus!

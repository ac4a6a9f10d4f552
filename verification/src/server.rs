//! The decisions of the server: what it replies to a request, and what its
//! accept loop does after each attempt to accept a connection. Sockets belong
//! to the caller.

use crate::error::{KvsError, ParseError};
use crate::proto::{Reply, ReplyView, Request};
use vstd::prelude::*;

verus! {

/// A store that a server can serve: it is handed to each connection, and used
/// from many threads.
pub trait KvsEngine: Clone + Send + 'static {
    /// Gives `key` the value `value`.
    fn set(&self, key: String, value: String) -> Result<(), KvsError>;

    /// The value of `key`, and `None` where the store does not hold the key.
    fn get(&self, key: String) -> Result<Option<String>, KvsError>;

    /// Takes `key` out of the store, and fails where the store does not hold it.
    fn remove(&self, key: String) -> Result<(), KvsError>;
}

/// `Key not found`, the text of the reply to a `GET` of a key that the store
/// does not hold.
pub open spec fn key_not_found() -> Seq<char> {
    KvsError::KeyNotFoundError.message_spec()
}

/// The reply to a `GET`, for each outcome of the store.
pub open spec fn get_reply(outcome: Result<Option<String>, KvsError>) -> ReplyView {
    match outcome {
        Ok(Some(value)) => ReplyView::SingleLine(value@),
        Ok(None) => ReplyView::SingleLine(key_not_found()),
        Err(e) => ReplyView::Error(e.message_spec()),
    }
}

/// The reply to a `SET` or a `DEL`, for each outcome of the store.
pub open spec fn write_reply(outcome: Result<(), KvsError>) -> ReplyView {
    match outcome {
        Ok(_) => ReplyView::SingleLine(Seq::empty()),
        Err(e) => ReplyView::Error(e.message_spec()),
    }
}

/// The reply to a `GET`: the value, `Key not found` where the store does not
/// hold the key, and an error reply with the text of the error where the store
/// failed.
pub fn reply_to_get(outcome: Result<Option<String>, KvsError>) -> (reply: Reply)
    ensures
        reply@ == get_reply(outcome),
{
    match outcome {
        Ok(Some(value)) => Reply::SingleLine(value),
        Ok(None) => Reply::SingleLine(KvsError::KeyNotFoundError.message()),
        Err(e) => Reply::Error(e.message()),
    }
}

/// The reply to a `SET` or a `DEL`: an empty line, and an error reply with the
/// text of the error where the store failed.
pub fn reply_to_write(outcome: Result<(), KvsError>) -> (reply: Reply)
    ensures
        reply@ == write_reply(outcome),
{
    match outcome {
        Ok(_) => Reply::SingleLine(String::new()),
        Err(e) => Reply::Error(e.message()),
    }
}

/// The reply to text that is no request, whatever makes it unreadable: an
/// error reply with the text of `InvalidCommandError`. The connection is
/// closed after it.
pub fn reply_to_parse_error(e: ParseError) -> (reply: Reply)
    ensures
        reply@ == ReplyView::Error(KvsError::InvalidCommandError.message_spec()),
{
    Reply::Error(KvsError::InvalidCommandError.message())
}

/// Serves one request: asks the store for what the request names, and turns
/// what the store says into the reply.
pub fn handle_request<E: KvsEngine>(engine: &E, request: Request) -> (reply: Reply)
    ensures
        match request {
            Request::Get { key } => exists|outcome: Result<Option<String>, KvsError>|
                call_ensures(E::get, (engine, key), outcome) && reply@ == get_reply(outcome),
            Request::Put { key, value } => exists|outcome: Result<(), KvsError>|
                call_ensures(E::set, (engine, key, value), outcome) && reply@ == write_reply(
                    outcome,
                ),
            Request::Remove { key } => exists|outcome: Result<(), KvsError>|
                call_ensures(E::remove, (engine, key), outcome) && reply@ == write_reply(outcome),
        },
{
    match request {
        Request::Get { key } => {
            let outcome = engine.get(key);
            reply_to_get(outcome)
        },
        Request::Put { key, value } => {
            let outcome = engine.set(key, value);
            reply_to_write(outcome)
        },
        Request::Remove { key } => {
            let outcome = engine.remove(key);
            reply_to_write(outcome)
        },
    }
}

/// What the accept loop does after an attempt to accept a connection.
#[derive(Clone, Copy, Debug, PartialEq, Eq, Structural)]
pub enum AcceptStep {
    /// It hands the connection to the pool, and accepts again.
    Serve,
    /// It notes the failure, and accepts again.
    Retry,
    /// It ends.
    Stop,
}

/// What the accept loop does after an attempt to accept a connection:
/// `accepted` tells whether the attempt gave a connection, `closing` whether
/// the server has been told to shut down. A connection is always served; the
/// loop ends at the first failed attempt after the server was told to shut
/// down.
pub fn after_accept(accepted: bool, closing: bool) -> (step: AcceptStep)
    ensures
        step == (if accepted {
            AcceptStep::Serve
        } else if closing {
            AcceptStep::Stop
        } else {
            AcceptStep::Retry
        }),
{
    if accepted {
        AcceptStep::Serve
    } else if closing {
        AcceptStep::Stop
    } else {
        AcceptStep::Retry
    }
}

/// The engines that a server can run on.
#[allow(non_camel_case_types)]
#[derive(Clone, Copy, Debug, PartialEq, Eq, Structural)]
pub enum EngineOpt {
    kvs,
    sled,
}

/// The engine of a server that has no marker and was asked for none.
pub open spec fn default_engine() -> EngineOpt {
    EngineOpt::kvs
}

impl EngineOpt {
    /// The name of the engine.
    pub open spec fn name(self) -> Seq<char> {
        match self {
            EngineOpt::kvs => seq!['k', 'v', 's'],
            EngineOpt::sled => seq!['s', 'l', 'e', 'd'],
        }
    }

    /// The name of the engine.
    pub fn to_string(&self) -> (text: String)
        ensures
            text@ == self.name(),
    {
        let mut text = String::new();
        match self {
            EngineOpt::kvs => {
                text.push('k');
                text.push('v');
                text.push('s');
            },
            EngineOpt::sled => {
                text.push('s');
                text.push('l');
                text.push('e');
                text.push('d');
            },
        }
        assert(text@ == self.name());
        text
    }

    /// The name of the marker file of the engine: the name of the engine, and
    /// `.engine`.
    pub fn marker_file(&self) -> (text: String)
        ensures
            text@ == self.name() + seq!['.', 'e', 'n', 'g', 'i', 'n', 'e'],
    {
        let mut text = self.to_string();
        text.push('.');
        text.push('e');
        text.push('n');
        text.push('g');
        text.push('i');
        text.push('n');
        text.push('e');
        assert(text@ == self.name() + seq!['.', 'e', 'n', 'g', 'i', 'n', 'e']);
        text
    }
}

/// The engine that an earlier start of the server has marked the directory
/// with: `kvs_marker` and `sled_marker` tell which marker files are there.
pub fn check_old_engine(kvs_marker: bool, sled_marker: bool) -> (old: Option<EngineOpt>)
    ensures
        old == (if kvs_marker {
            Some(EngineOpt::kvs)
        } else if sled_marker {
            Some(EngineOpt::sled)
        } else {
            None
        }),
{
    if kvs_marker {
        Some(EngineOpt::kvs)
    } else if sled_marker {
        Some(EngineOpt::sled)
    } else {
        None
    }
}

/// The engine that the server runs on: the one that it is asked for, else the
/// one that the directory is marked with, else `kvs`. Fails where it is asked
/// for another engine than the one that the directory is marked with.
pub fn select_engine(asked: Option<EngineOpt>, old: Option<EngineOpt>) -> (r: Result<
    EngineOpt,
    KvsError,
>)
    ensures
        match r {
            Ok(engine) => !(asked is Some && old is Some && asked != old) && engine == (
            if asked is Some {
                asked->0
            } else if old is Some {
                old->0
            } else {
                default_engine()
            }),
            Err(e) => asked is Some && old is Some && asked != old && e is InvalidCommandError,
        },
{
    match (asked, old) {
        (None, None) => Ok(EngineOpt::kvs),
        (None, Some(marked)) => Ok(marked),
        (Some(wanted), None) => Ok(wanted),
        (Some(wanted), Some(marked)) => {
            if wanted == marked {
                Ok(wanted)
            } else {
                Err(KvsError::InvalidCommandError)
            }
        },
    }
}

} // verus!

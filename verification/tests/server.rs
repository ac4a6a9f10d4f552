use kvs::error::{KvsError, ParseError};
use kvs::proto::{Reply, Request};
use kvs::server::{after_accept, check_old_engine, handle_request, reply_to_get};
use kvs::server::{reply_to_parse_error, reply_to_write};
use kvs::server::{select_engine, AcceptStep, EngineOpt, KvsEngine};
use kvs::thread_pool::{default_worker_count, queue_capacity, respawn_on_exit, worker_count, worker_step};
use kvs::thread_pool::{Received, WorkerStep};
use std::collections::HashMap;
use std::sync::{Arc, Mutex};

#[test]
fn engine_opt_format() {
    println!("{}", EngineOpt::kvs.to_string());
    println!("{}", EngineOpt::sled.to_string());
}

#[test]
fn kvs_server_engine_opt_format() {
    println!("{}", EngineOpt::kvs.to_string());
    println!("{}", EngineOpt::sled.to_string());
    assert_eq!(EngineOpt::kvs.to_string(), "kvs");
    assert_eq!(EngineOpt::sled.to_string(), "sled");
    assert_eq!(EngineOpt::kvs.marker_file(), "kvs.engine");
    assert_eq!(EngineOpt::sled.marker_file(), "sled.engine");
}

#[test]
fn engine_of_an_earlier_start() {
    assert_eq!(check_old_engine(false, false), None);
    assert_eq!(check_old_engine(true, false), Some(EngineOpt::kvs));
    assert_eq!(check_old_engine(false, true), Some(EngineOpt::sled));
    assert_eq!(check_old_engine(true, true), Some(EngineOpt::kvs));
}

#[test]
fn engine_that_the_server_runs_on() {
    assert_eq!(select_engine(None, None), Ok(EngineOpt::kvs));
    assert_eq!(select_engine(None, Some(EngineOpt::sled)), Ok(EngineOpt::sled));
    assert_eq!(select_engine(Some(EngineOpt::sled), None), Ok(EngineOpt::sled));
    assert_eq!(select_engine(Some(EngineOpt::kvs), Some(EngineOpt::kvs)), Ok(EngineOpt::kvs));
    assert_eq!(
        select_engine(Some(EngineOpt::kvs), Some(EngineOpt::sled)),
        Err(KvsError::InvalidCommandError)
    );
    assert_eq!(
        select_engine(Some(EngineOpt::sled), Some(EngineOpt::kvs)),
        Err(KvsError::InvalidCommandError)
    );
}

#[test]
fn replies_for_each_outcome() {
    assert_eq!(reply_to_get(Ok(Some("bar".to_string()))).to_resp(), "+bar\r\n");
    assert_eq!(reply_to_get(Ok(None)).to_resp(), "+Key not found\r\n");
    assert_eq!(reply_to_get(Err(KvsError::Corruption)).to_resp(), "-Corrupted log\r\n");
    assert_eq!(reply_to_write(Ok(())).to_resp(), "+\r\n");
    assert_eq!(reply_to_write(Err(KvsError::KeyNotFoundError)).to_resp(), "-Key not found\r\n");
    assert_eq!(
        reply_to_write(Err(KvsError::IOError("disk full".to_string()))),
        Reply::Error("Io error: disk full".to_string())
    );
    assert_eq!(KvsError::InvalidCommandError.message(), "Invalid command");
    assert_eq!(reply_to_parse_error(ParseError::UnsupportedVerb).to_resp(), "-Invalid command\r\n");
    assert_eq!(reply_to_parse_error(ParseError::BadInteger).to_resp(), "-Invalid command\r\n");
}

#[derive(Clone)]
struct Memory {
    map: Arc<Mutex<HashMap<String, String>>>,
}

impl KvsEngine for Memory {
    fn set(&self, key: String, value: String) -> Result<(), KvsError> {
        self.map.lock().unwrap().insert(key, value);
        Ok(())
    }

    fn get(&self, key: String) -> Result<Option<String>, KvsError> {
        Ok(self.map.lock().unwrap().get(&key).cloned())
    }

    fn remove(&self, key: String) -> Result<(), KvsError> {
        match self.map.lock().unwrap().remove(&key) {
            Some(_) => Ok(()),
            None => Err(KvsError::KeyNotFoundError),
        }
    }
}

#[test]
fn a_connection_sets_gets_and_removes() {
    let engine = Memory { map: Arc::new(Mutex::new(HashMap::new())) };
    let set = Request::Put { key: "foo".to_string(), value: "bar".to_string() };
    let get = Request::Get { key: "foo".to_string() };
    let rm = Request::Remove { key: "foo".to_string() };
    let reply = handle_request(&engine, set);
    assert_eq!(reply.to_resp(), "+\r\n");
    assert!(!reply.should_println());
    assert_eq!(handle_request(&engine, get.clone()).to_string(), "bar");
    assert_eq!(handle_request(&engine, rm.clone()), Reply::SingleLine(String::new()));
    assert_eq!(handle_request(&engine, get).to_string(), "Key not found");
    assert_eq!(handle_request(&engine, rm), Reply::Error("Key not found".to_string()));
}

#[test]
fn a_request_reaches_the_store_with_its_own_key_and_value() {
    let engine = Memory { map: Arc::new(Mutex::new(HashMap::new())) };
    handle_request(&engine, Request::Put { key: "a".to_string(), value: "1".to_string() });
    handle_request(&engine, Request::Put { key: "b".to_string(), value: "".to_string() });
    assert_eq!(engine.get("a".to_string()), Ok(Some("1".to_string())));
    assert_eq!(engine.get("b".to_string()), Ok(Some(String::new())));
    assert_eq!(handle_request(&engine, Request::Get { key: "a".to_string() }).to_resp(), "+1\r\n");
    assert_eq!(handle_request(&engine, Request::Get { key: "b".to_string() }).to_resp(), "+\r\n");
    handle_request(&engine, Request::Remove { key: "a".to_string() });
    assert_eq!(engine.get("a".to_string()), Ok(None));
    assert_eq!(engine.get("b".to_string()), Ok(Some(String::new())));
}

#[test]
fn accept_loop_ends_at_the_first_failure_after_shutdown() {
    assert_eq!(after_accept(true, false), AcceptStep::Serve);
    assert_eq!(after_accept(true, true), AcceptStep::Serve);
    assert_eq!(after_accept(false, false), AcceptStep::Retry);
    assert_eq!(after_accept(false, true), AcceptStep::Stop);
}

#[test]
fn sizes_of_the_pool() {
    assert_eq!(queue_capacity(0), 0);
    assert_eq!(queue_capacity(4), 12);
    assert_eq!(queue_capacity(u32::MAX) as u64, 3 * (u32::MAX as u64));
    assert_eq!(worker_count(0), 1);
    assert_eq!(worker_count(1), 1);
    assert_eq!(worker_count(8), 8);
    assert!(default_worker_count() >= 1);
}

#[test]
fn worker_runs_jobs_and_is_replaced_after_a_panic() {
    assert_eq!(worker_step(Received::Job), WorkerStep::Run);
    assert_eq!(worker_step(Received::Terminate), WorkerStep::Exit);
    assert_eq!(worker_step(Received::Disconnected), WorkerStep::Exit);
    assert!(respawn_on_exit(true));
    assert!(!respawn_on_exit(false));
}

//! The server's dispatch step: command messages in, protocol replies
//! out; and the engine-lock check at startup.

use kvs::engines::kvs::KvStore;
use kvs::error::KvsError;
use kvs::model::{Behavior, Msg};
use kvs::server::{check_engine_lock, KvsServer};

fn command(words: &[&str]) -> Msg {
    Msg::build_bulk_array(&words.iter().map(|w| w.to_string()).collect())
}

fn server() -> KvsServer<KvStore> {
    KvsServer::new("127.0.0.1:4000".to_string(), KvStore::new())
}

#[test]
fn server_keeps_its_address() {
    assert_eq!(server().address(), "127.0.0.1:4000");
}

#[test]
fn set_get_remove_round_trip() {
    let mut srv = server();
    let r = srv.handle_request(command(&["set", "a", "1"])).unwrap();
    assert_eq!(r, Msg::Bulk(None));
    let r = srv.handle_request(command(&["get", "a"])).unwrap();
    assert_eq!(r, Msg::Bulk(Some("1".to_string())));
    let r = srv.handle_request(command(&["rm", "a"])).unwrap();
    assert_eq!(r, Msg::Bulk(None));
    let r = srv.handle_request(command(&["get", "a"])).unwrap();
    assert_eq!(r, Msg::Bulk(None));
}

#[test]
fn get_miss_is_null_not_error() {
    let mut srv = server();
    let r = srv.handle_request(command(&["get", "missing"])).unwrap();
    assert_eq!(r, Msg::Bulk(None));
}

#[test]
fn remove_miss_is_error_reply() {
    let mut srv = server();
    let r = srv.handle_request(command(&["rm", "missing"])).unwrap();
    assert_eq!(r, Msg::Error("Key not found".to_string()));
}

#[test]
fn extra_arguments_are_ignored() {
    let mut srv = server();
    let r = srv
        .handle_request(command(&["set", "a", "1", "junk"]))
        .unwrap();
    assert_eq!(r, Msg::Bulk(None));
    let r = srv.handle_request(command(&["get", "a", "junk"])).unwrap();
    assert_eq!(r, Msg::Bulk(Some("1".to_string())));
}

#[test]
fn bad_commands_close_the_connection() {
    let mut srv = server();
    for bad in [
        command(&["dump"]),
        command(&["get"]),
        command(&["set", "a"]),
        command(&["rm"]),
        command(&[]),
        Msg::Line("hello".to_string()),
        Msg::Array(vec![Msg::Integer(1)]),
    ] {
        assert_eq!(
            srv.handle_request(bad),
            Err(KvsError::InvalidArgumentNumber)
        );
    }
}

#[test]
fn try_to_behavior_parses_commands() {
    assert_eq!(
        command(&["set", "k", "v"]).try_to_behavior(),
        Ok(Behavior::Put {
            key: "k".to_string(),
            value: "v".to_string()
        })
    );
    assert_eq!(
        command(&["get", "k"]).try_to_behavior(),
        Ok(Behavior::Get { key: "k".to_string() })
    );
    assert_eq!(
        command(&["rm", "k"]).try_to_behavior(),
        Ok(Behavior::Remove { key: "k".to_string() })
    );
    assert_eq!(
        command(&["put", "k", "v"]).try_to_behavior(),
        Err(KvsError::InvalidArgumentNumber)
    );
}

#[test]
fn engine_lock_decisions() {
    assert_eq!(check_engine_lock(None, "kvs".to_string()), Ok(true));
    assert_eq!(
        check_engine_lock(Some("kvs".to_string()), "kvs".to_string()),
        Ok(false)
    );
    let r = check_engine_lock(Some("sled".to_string()), "kvs".to_string());
    assert_eq!(
        r,
        Err(KvsError::WrongEngine {
            expect: "sled".to_string(),
            actual: "kvs".to_string()
        })
    );
}

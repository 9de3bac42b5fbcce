use kvs::{
    choose_engine, respond, EngineType, KVStoreError, KvServer, Request, Response, SledKvStore,
};
use std::path::PathBuf;
use std::time::{SystemTime, UNIX_EPOCH};

fn sled_server(name: &str) -> KvServer<SledKvStore> {
    let nanos = SystemTime::now().duration_since(UNIX_EPOCH).unwrap().as_nanos();
    let dir = PathBuf::from(format!("/tmp/kvs-server-test-{}-{}", name, nanos));
    match SledKvStore::open(dir) {
        Ok(s) => KvServer::new(s),
        Err(_) => panic!("sled opens"),
    }
}

#[test]
fn server_answers_requests() {
    let mut server = sled_server("answers");
    match server.handle_request(Request::GET("k".to_string())) {
        Response::Succeeded(None) => {}
        other => panic!("unexpected {:?}", other),
    }
    match server.handle_request(Request::SET("k".to_string(), "v".to_string())) {
        Response::Succeeded(None) => {}
        other => panic!("unexpected {:?}", other),
    }
    match server.handle_request(Request::GET("k".to_string())) {
        Response::Succeeded(Some(v)) => assert_eq!(v, "v"),
        other => panic!("unexpected {:?}", other),
    }
    match server.handle_request(Request::RM("k".to_string())) {
        Response::Succeeded(None) => {}
        other => panic!("unexpected {:?}", other),
    }
    match server.handle_request(Request::RM("k".to_string())) {
        Response::Failed(m) => assert_eq!(m, "Key not found"),
        other => panic!("unexpected {:?}", other),
    }
}

#[test]
fn errors_are_answered_with_their_message() {
    match respond(Err(KVStoreError::KeyNotFound)) {
        Response::Failed(m) => assert_eq!(m, "Key not found"),
        other => panic!("unexpected {:?}", other),
    }
    match respond(Err(KVStoreError::UnknownCommandType)) {
        Response::Failed(m) => assert_eq!(m, "Unknown command type"),
        other => panic!("unexpected {:?}", other),
    }
    match respond(Err(KVStoreError::ServerError("boom".to_string()))) {
        Response::Failed(m) => assert_eq!(m, "boom"),
        other => panic!("unexpected {:?}", other),
    }
    match respond(Ok(Some("x".to_string()))) {
        Response::Succeeded(Some(v)) => assert_eq!(v, "x"),
        other => panic!("unexpected {:?}", other),
    }
}

#[test]
fn error_messages() {
    assert_eq!(KVStoreError::KeyNotFound.message(), "Key not found");
    assert_eq!(KVStoreError::UnknownCommandType.message(), "Unknown command type");
    assert_eq!(
        KVStoreError::ChangeEngineError.message(),
        "Changing engine is not allowed after initilization in current dir"
    );
    assert_eq!(KVStoreError::ServerError("s".to_string()).message(), "s");
    let io = std::io::Error::new(std::io::ErrorKind::Other, "disk on fire");
    assert_eq!(KVStoreError::from(io).message(), "disk on fire");
    let bad = String::from_utf8(vec![0xff]).unwrap_err();
    assert!(matches!(KVStoreError::from(bad), KVStoreError::Utf8Error(_)));
    let json = serde_json::from_str::<String>("x").unwrap_err();
    assert!(matches!(KVStoreError::from(json), KVStoreError::SerdeError(_)));
}

#[test]
fn client_reads_answers() {
    assert_eq!(Response::Succeeded(Some("v".to_string())).into_result().ok().flatten(), Some("v".to_string()));
    assert!(matches!(Response::Succeeded(None).into_result(), Ok(None)));
    match Response::Failed("Key not found".to_string()).into_result() {
        Err(KVStoreError::ServerError(m)) => assert_eq!(m, "Key not found"),
        _ => panic!("a failure is a server error"),
    }
}

#[test]
fn engine_names() {
    assert_eq!(EngineType::KvStore.name(), "kvs");
    assert_eq!(EngineType::SledKvStore.name(), "sled");
}

#[test]
fn engine_choice() {
    assert_eq!(choose_engine(None, false, false).ok(), Some(EngineType::KvStore));
    assert_eq!(choose_engine(None, true, false).ok(), Some(EngineType::KvStore));
    assert_eq!(choose_engine(None, false, true).ok(), Some(EngineType::SledKvStore));
    assert_eq!(choose_engine(Some("sled".to_string()), false, true).ok(), Some(EngineType::SledKvStore));
    assert!(matches!(
        choose_engine(Some("sled".to_string()), true, false),
        Err(KVStoreError::ChangeEngineError)
    ));
    assert_eq!(choose_engine(Some("kvs".to_string()), true, false).ok(), Some(EngineType::KvStore));
    assert!(matches!(
        choose_engine(Some("kvs".to_string()), false, true),
        Err(KVStoreError::ChangeEngineError)
    ));
}

use kvs::protocol::{get_response, get_result, remove_response, set_response, set_result};
use kvs::{GetResponse, KvsError, NaiveThreadPool, RemoveResponse, SetResponse};

#[test]
pub fn basic() {}

#[test]
fn messages_of_errors() {
    assert_eq!(KvsError::KeyNotFound.message(), "Key not found");
    assert_eq!(KvsError::UnexpectedCommandType.message(), "unexpected command type");
    assert_eq!(KvsError::Io("disk full".to_string()).message(), "disk full");
    assert_eq!(KvsError::Serde("bad frame".to_string()).message(), "bad frame");
    assert_eq!(KvsError::StringError("from server".to_string()).message(), "from server");
}

#[test]
fn engine_results_become_responses() {
    match get_response(Ok(Some("1".to_string()))) {
        GetResponse::Value(Some(v)) => assert_eq!(v, "1"),
        other => panic!("unexpected {:?}", other),
    }
    assert!(matches!(get_response(Ok(None)), GetResponse::Value(None)));
    match get_response(Err(KvsError::UnexpectedCommandType)) {
        GetResponse::Error(m) => assert_eq!(m, "unexpected command type"),
        other => panic!("unexpected {:?}", other),
    }
    assert!(matches!(set_response(Ok(())), SetResponse::Done));
    match remove_response(Err(KvsError::KeyNotFound)) {
        RemoveResponse::Error(m) => assert_eq!(m, "Key not found"),
        other => panic!("unexpected {:?}", other),
    }
    assert!(matches!(remove_response(Ok(())), RemoveResponse::Done));
}

#[test]
fn responses_become_client_results() {
    match get_result(GetResponse::Value(Some("v".to_string()))) {
        Ok(Some(v)) => assert_eq!(v, "v"),
        other => panic!("unexpected {:?}", other),
    }
    match set_result(SetResponse::Error("Key not found".to_string())) {
        Err(KvsError::StringError(m)) => assert_eq!(m, "Key not found"),
        other => panic!("unexpected {:?}", other),
    }
}

#[test]
fn naive_pool_is_always_created() {
    assert!(NaiveThreadPool::new(0).is_ok());
    assert!(NaiveThreadPool::new(8).is_ok());
}

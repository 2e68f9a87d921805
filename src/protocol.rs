//! The requests and responses of the network protocol, and how an engine's
//! result becomes a response.
use vstd::prelude::*;
use crate::error::KvsError;

verus! {

/// A client's request. `Put` travels under the tag `Set`.
#[derive(Debug)]
pub enum Request {
    Get { key: String },
    Put { key: String, value: String },
    Remove { key: String },
}

/// The answer to `Get`: the value, if any, or the error's text. On the
/// wire the two variants are tagged `Ok` and `Err`.
#[derive(Debug)]
pub enum GetResponse {
    Value(Option<String>),
    Error(String),
}

/// The answer to `Set`: success, or the error's text.
#[derive(Debug)]
pub enum SetResponse {
    Done,
    Error(String),
}

/// The answer to `Remove`: success, or the error's text.
#[derive(Debug)]
pub enum RemoveResponse {
    Done,
    Error(String),
}

/// The response that reports the result of an engine's `get`.
pub fn get_response(r: Result<Option<String>, KvsError>) -> (resp: GetResponse)
    ensures
        match r {
            Ok(v) => resp == GetResponse::Value(v),
            Err(e) => resp is Error && resp->Error_0@ == e.spec_message(),
        },
{
    match r {
        Ok(v) => GetResponse::Value(v),
        Err(e) => GetResponse::Error(e.message()),
    }
}

/// The response that reports the result of an engine's `set`.
pub fn set_response(r: Result<(), KvsError>) -> (resp: SetResponse)
    ensures
        match r {
            Ok(_) => resp is Done,
            Err(e) => resp is Error && resp->Error_0@ == e.spec_message(),
        },
{
    match r {
        Ok(_) => SetResponse::Done,
        Err(e) => SetResponse::Error(e.message()),
    }
}

/// The response that reports the result of an engine's `remove`.
pub fn remove_response(r: Result<(), KvsError>) -> (resp: RemoveResponse)
    ensures
        match r {
            Ok(_) => resp is Done,
            Err(e) => resp is Error && resp->Error_0@ == e.spec_message(),
        },
{
    match r {
        Ok(_) => RemoveResponse::Done,
        Err(e) => RemoveResponse::Error(e.message()),
    }
}

/// What a client makes of a `Get` answer: an error from the server comes
/// back as `StringError` with its text.
pub fn get_result(resp: GetResponse) -> (r: Result<Option<String>, KvsError>)
    ensures
        match resp {
            GetResponse::Value(v) => r == Ok::<Option<String>, KvsError>(v),
            GetResponse::Error(m) => r is Err && r->Err_0 == KvsError::StringError(m),
        },
{
    match resp {
        GetResponse::Value(v) => Ok(v),
        GetResponse::Error(m) => Err(KvsError::StringError(m)),
    }
}

/// What a client makes of a `Set` answer.
pub fn set_result(resp: SetResponse) -> (r: Result<(), KvsError>)
    ensures
        match resp {
            SetResponse::Done => r is Ok,
            SetResponse::Error(m) => r is Err && r->Err_0 == KvsError::StringError(m),
        },
{
    match resp {
        SetResponse::Done => Ok(()),
        SetResponse::Error(m) => Err(KvsError::StringError(m)),
    }
}

/// What a client makes of a `Remove` answer.
pub fn remove_result(resp: RemoveResponse) -> (r: Result<(), KvsError>)
    ensures
        match resp {
            RemoveResponse::Done => r is Ok,
            RemoveResponse::Error(m) => r is Err && r->Err_0 == KvsError::StringError(m),
        },
{
    match resp {
        RemoveResponse::Done => Ok(()),
        RemoveResponse::Error(m) => Err(KvsError::StringError(m)),
    }
}

} // verus!

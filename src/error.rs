use vstd::prelude::*;
use vstd::string::*;

verus! {

/// The errors of the store, the server and the client.
#[derive(Debug)]
pub enum KvsError {
    /// A disk or socket failure, with its description.
    Io(String),
    /// A record or frame that does not decode, with a description.
    Serde(String),
    /// Removing a key that is not in the store.
    KeyNotFound,
    /// The index points at bytes that do not record a `Set`: a corrupted log or a bug.
    UnexpectedCommandType,
    /// An error message that came back from the server.
    StringError(String),
}

/// The result type of the library.
pub type Result<T> = std::result::Result<T, KvsError>;

impl KvsError {
    /// The text that describes the error.
    pub open spec fn spec_message(&self) -> Seq<char> {
        match self {
            KvsError::Io(m) => m@,
            KvsError::Serde(m) => m@,
            KvsError::KeyNotFound => "Key not found"@,
            KvsError::UnexpectedCommandType => "unexpected command type"@,
            KvsError::StringError(m) => m@,
        }
    }

    /// The text that describes the error; the server sends it back to the client.
    pub fn message(&self) -> (r: String)
        ensures
            r@ == self.spec_message(),
    {
        match self {
            KvsError::Io(m) => m.clone(),
            KvsError::Serde(m) => m.clone(),
            KvsError::KeyNotFound => String::from_str("Key not found"),
            KvsError::UnexpectedCommandType => String::from_str("unexpected command type"),
            KvsError::StringError(m) => m.clone(),
        }
    }
}

} // verus!

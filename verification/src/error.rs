//! The store's error type. Every failure an engine or the surrounding
//! binaries surface is one of these variants; the server turns them into
//! `Err(message)` responses with the texts below.

use vstd::prelude::*;

verus! {

/// What can go wrong in the store and around it.
#[derive(Debug)]
pub enum KVError {
    /// An error message received over the wire.
    Message(String),
    Io,
    Serde,
    /// `remove` of a key that is not present.
    KeyNoExist,
    /// A locator pointed at bytes that are not a `Set` record.
    LogInConsistency,
    Fmt,
    InvalidIpOrPort,
    /// The data directory was created by the other backend.
    EngineNotMatch,
    ParseError,
    DisplayError,
    FailClientInstance,
    RequestError,
    SledError,
    GetMethodError,
}

/// The report text of each error.
pub open spec fn kv_error_msg(e: KVError) -> Seq<char> {
    match e {
        KVError::Message(s) => s@,
        KVError::Io => "Error: an io error happened!"@,
        KVError::Serde => "Error: a serde error happened!"@,
        KVError::KeyNoExist => "Error: Key not found!"@,
        KVError::LogInConsistency => "Error: log inconsistency!"@,
        KVError::Fmt => "Error: a format error happened!"@,
        KVError::InvalidIpOrPort => "Error: invalid ip or port address"@,
        KVError::EngineNotMatch => "Error: assigned engine does not match existing one!"@,
        KVError::ParseError => "Error: cannot parse the string"@,
        KVError::DisplayError => "Error: display trait error happened!"@,
        KVError::FailClientInstance => "Error: cannot create client instance!"@,
        KVError::RequestError => "Error: from client request."@,
        KVError::SledError => "Error: sled error"@,
        KVError::GetMethodError => "Error: get method error!"@,
    }
}

impl KVError {
    /// The report text, for responses and logs.
    pub fn message(&self) -> (r: String)
        ensures
            r@ == kv_error_msg(*self),
    {
        match self {
            KVError::Message(s) => s.clone(),
            KVError::Io => "Error: an io error happened!".to_owned(),
            KVError::Serde => "Error: a serde error happened!".to_owned(),
            KVError::KeyNoExist => "Error: Key not found!".to_owned(),
            KVError::LogInConsistency => "Error: log inconsistency!".to_owned(),
            KVError::Fmt => "Error: a format error happened!".to_owned(),
            KVError::InvalidIpOrPort => "Error: invalid ip or port address".to_owned(),
            KVError::EngineNotMatch => "Error: assigned engine does not match existing one!".to_owned(),
            KVError::ParseError => "Error: cannot parse the string".to_owned(),
            KVError::DisplayError => "Error: display trait error happened!".to_owned(),
            KVError::FailClientInstance => "Error: cannot create client instance!".to_owned(),
            KVError::RequestError => "Error: from client request.".to_owned(),
            KVError::SledError => "Error: sled error".to_owned(),
            KVError::GetMethodError => "Error: get method error!".to_owned(),
        }
    }
}

} // verus!

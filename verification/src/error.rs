//! The failure kinds shared by the store, the server and the client.

use vstd::prelude::*;
use vstd::string::StringExecFns;

verus! {

/// Every way an operation of this crate can fail.
#[derive(Debug)]
pub enum KvsError {
    /// A file or socket operation failed; the text says how.
    Io(String),
    /// A record on disk or a message on the wire is malformed.
    Serialization,
    /// A key that was to be removed has no live mapping.
    KeyNotFound,
    /// A socket address could not be parsed; the text is the address.
    AddrParse(String),
    /// The engine asked for differs from the one the data directory was made with.
    InvalidEngine,
    /// The server answered a request with an error; the text is its message.
    Response(String),
    /// A worker pool could not be built; the text says why.
    ThreadPoolBuild(String),
    /// A case that must not occur.
    Unspecified,
}

impl KvsError {
    /// The text that describes this failure to a person.
    pub open spec fn message_text(self) -> Seq<char> {
        match self {
            KvsError::Io(m) => m@,
            KvsError::Serialization => "Malformed record or message"@,
            KvsError::KeyNotFound => "Key not found"@,
            KvsError::AddrParse(a) => "Invalid address: "@ + a@,
            KvsError::InvalidEngine => "Invalid engine"@,
            KvsError::Response(m) => "Response: "@ + m@,
            KvsError::ThreadPoolBuild(m) => m@,
            KvsError::Unspecified => "Unspecified"@,
        }
    }

    /// One line that describes this failure, as a command-line tool prints it.
    pub fn message(&self) -> (text: String)
        ensures
            text@ == self.message_text(),
    {
        match self {
            KvsError::Io(m) => m.clone(),
            KvsError::Serialization => String::from_str("Malformed record or message"),
            KvsError::KeyNotFound => String::from_str("Key not found"),
            KvsError::AddrParse(a) => String::from_str("Invalid address: ").concat(a.as_str()),
            KvsError::InvalidEngine => String::from_str("Invalid engine"),
            KvsError::Response(m) => String::from_str("Response: ").concat(m.as_str()),
            KvsError::ThreadPoolBuild(m) => m.clone(),
            KvsError::Unspecified => String::from_str("Unspecified"),
        }
    }
}

} // verus!

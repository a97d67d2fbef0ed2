use vstd::prelude::*;
use vstd::string::StringExecFns;

verus! {

/// Every failure the library reports: codec errors, merge precondition
/// violations, and the I/O failures that a caller may feed back in.
#[derive(Clone, Debug, PartialEq)]
pub enum Error {
    Message(String),
    LogicError(String),
    EofError,
    IoError(String),
    SerializeError(String),
    DeserializeError(String),
}

/// The text that `Error::message` renders for each variant.
pub open spec fn spec_message(e: Error) -> Seq<char> {
    match e {
        Error::Message(m) => m@,
        Error::EofError => "Unexpected EOF"@,
        Error::IoError(m) => "IO Error: "@ + m@,
        Error::LogicError(m) => "Logic Error: "@ + m@,
        Error::SerializeError(m) => "Serialize Error: "@ + m@,
        Error::DeserializeError(m) => "Deserialize Error: "@ + m@,
    }
}

impl Error {
    /// A human-readable description: the variant's label followed by its detail.
    pub fn message(&self) -> (r: String)
        ensures
            r@ == spec_message(*self),
    {
        match self {
            Error::Message(m) => m.clone(),
            Error::EofError => "Unexpected EOF".to_owned(),
            Error::IoError(m) => {
                let mut s = "IO Error: ".to_owned();
                s.append(m.as_str());
                s
            },
            Error::LogicError(m) => {
                let mut s = "Logic Error: ".to_owned();
                s.append(m.as_str());
                s
            },
            Error::SerializeError(m) => {
                let mut s = "Serialize Error: ".to_owned();
                s.append(m.as_str());
                s
            },
            Error::DeserializeError(m) => {
                let mut s = "Deserialize Error: ".to_owned();
                s.append(m.as_str());
                s
            },
        }
    }
}

} // verus!

use vstd::prelude::*;

verus! {

/// Errors reported by the library. Each variant carries a human-readable
/// message; the variant itself identifies the kind of failure.
#[derive(Debug)]
pub enum Error {
    InvalidArgument(String),
    InvalidDictionary(String),
    Io(String),
    NotFound(String),
    OutOfRange(String),
    Unsupported(String),
}

pub type Result<T> = core::result::Result<T, Error>;

impl Error {
    pub fn invalid_argument(message: &str) -> (e: Self)
        ensures
            e matches Error::InvalidArgument(m) && m@ == message@,
    {
        Error::InvalidArgument(message.to_owned())
    }

    /// An invalid-argument error whose message is `prefix` followed by
    /// `detail`.
    pub fn invalid_argument_about(prefix: &str, detail: &str) -> (e: Self)
        ensures
            e matches Error::InvalidArgument(m) && m@ == prefix@ + detail@,
    {
        let mut message = prefix.to_owned();
        crate::text::push_str(&mut message, detail);
        Error::InvalidArgument(message)
    }

    pub fn invalid_dictionary(message: &str) -> (e: Self)
        ensures
            e matches Error::InvalidDictionary(m) && m@ == message@,
    {
        Error::InvalidDictionary(message.to_owned())
    }

    /// The message carried by the error, whatever its kind.
    pub fn message(&self) -> (m: &str)
        ensures
            m@ == self.spec_message(),
    {
        match self {
            Error::InvalidArgument(m) => m.as_str(),
            Error::InvalidDictionary(m) => m.as_str(),
            Error::Io(m) => m.as_str(),
            Error::NotFound(m) => m.as_str(),
            Error::OutOfRange(m) => m.as_str(),
            Error::Unsupported(m) => m.as_str(),
        }
    }

    pub open spec fn spec_message(&self) -> Seq<char> {
        match self {
            Error::InvalidArgument(m) => m@,
            Error::InvalidDictionary(m) => m@,
            Error::Io(m) => m@,
            Error::NotFound(m) => m@,
            Error::OutOfRange(m) => m@,
            Error::Unsupported(m) => m@,
        }
    }
}

/// An error raised because the dictionary bytes are malformed.
pub open spec fn is_dict_err<T>(r: Result<T>) -> bool {
    r matches Err(Error::InvalidDictionary(_))
}

} // verus!

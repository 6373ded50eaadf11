use vstd::prelude::*;
use vstd::string::StringExecFns;

verus! {

/// The failures the library reports. Every failure is surfaced to the caller
/// at once; nothing is retried internally.
#[derive(Debug)]
pub enum TokenError {
    /// The pattern text does not compile; carries the compiler's message.
    InvalidPattern(String),
    /// Bytes were not valid UTF-8 where strict decoding is required.
    NotUtf8,
    /// The underlying byte source failed to yield a chunk.
    SourceReadError,
    /// The progress sink rejected a report.
    CallbackError,
}

impl TokenError {
    /// What `message` returns for each variant.
    pub open spec fn spec_message(&self) -> Seq<char> {
        match self {
            TokenError::InvalidPattern(reason) => "invalid pattern: "@ + reason@,
            TokenError::NotUtf8 => "input is not valid UTF-8"@,
            TokenError::SourceReadError => "the byte source failed to yield a chunk"@,
            TokenError::CallbackError => "the progress sink rejected a report"@,
        }
    }

    /// A short description of the failure, for hosts that print errors.
    pub fn message(&self) -> (r: String)
        ensures
            r@ == self.spec_message(),
    {
        match self {
            TokenError::InvalidPattern(reason) => {
                let mut m = String::from_str("invalid pattern: ");
                m.append(reason.as_str());
                m
            },
            TokenError::NotUtf8 => String::from_str("input is not valid UTF-8"),
            TokenError::SourceReadError => String::from_str("the byte source failed to yield a chunk"),
            TokenError::CallbackError => String::from_str("the progress sink rejected a report"),
        }
    }
}

} // verus!

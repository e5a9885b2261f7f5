use vstd::prelude::*;

verus! {

/// What can go wrong while issuing a request or consuming a stream.
///
/// A non-empty `error` field inside a decoded [`crate::Response`] is an
/// application-level outcome, not one of these: the client hands such a
/// response back to the caller unchanged.
#[derive(Debug)]
pub enum ZBusError {
    /// The broker connection or a broker command failed; carries the
    /// broker's own message.
    TransportError(String),
    /// Local serialization failed; nothing was sent.
    EncodingError(String),
    /// Received bytes do not form a well-formed envelope.
    DecodingError(String),
    /// Sentinel for conversions that cannot occur.
    Void,
}

impl ZBusError {
    /// Renders the error as text: the kind of failure, then the
    /// carried message.
    pub fn message(&self) -> (r: String)
        ensures
            match self {
                ZBusError::TransportError(m) => r@ == "Transport error: "@ + m@,
                ZBusError::EncodingError(m) => r@ == "Encoding error: "@ + m@,
                ZBusError::DecodingError(m) => r@ == "Decoding error: "@ + m@,
                ZBusError::Void => r@ == "Void error"@,
            },
    {
        match self {
            ZBusError::TransportError(m) => {
                let mut s = "Transport error: ".to_owned();
                s.append(m.as_str());
                s
            },
            ZBusError::EncodingError(m) => {
                let mut s = "Encoding error: ".to_owned();
                s.append(m.as_str());
                s
            },
            ZBusError::DecodingError(m) => {
                let mut s = "Decoding error: ".to_owned();
                s.append(m.as_str());
                s
            },
            ZBusError::Void => "Void error".to_owned(),
        }
    }
}

/// Why a combined object-id string failed to parse.
#[derive(Debug, PartialEq, Eq)]
pub enum FormatError {
    /// More than one `@` separator was present.
    TooManyParts,
}

} // verus!

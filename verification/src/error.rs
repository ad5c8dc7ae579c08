//! The closed set of errors surfaced by the engine.

use vstd::prelude::*;

verus! {

/// Errors used internally within the crate, as produced by the digester
/// and the ingress manager.
#[derive(Debug, Clone, PartialEq, Eq)]
pub enum InternalError {
    /// Serial read error.
    Read,
    /// Serial write error.
    Write,
    /// Timed out while waiting for a response.
    Timeout,
    /// Invalid response from the module.
    InvalidResponse,
    /// The command was aborted.
    Aborted,
    /// Failed to parse the received response.
    Parse,
    /// Plain `ERROR` response without any further message.
    Error,
    /// The receive buffer could not hold an incoming extension.
    Overflow,
    /// GSM equipment related error with its numeric code.
    CmeError(u16),
    /// GSM network related error with its numeric code.
    CmsError(u16),
    /// Connection error with its numeric code.
    ConnectionError(u16),
    /// Custom error match, carrying the offending error text.
    Custom(Vec<u8>),
}

/// The number of bytes of a custom error text kept when the error is
/// surfaced to the client.
pub const CUSTOM_ERROR_KEEP: usize = 64;

/// Errors returned to users of the crate.
#[derive(Debug, Clone, PartialEq, Eq)]
pub enum Error {
    /// Serial read error.
    Read,
    /// Serial write error.
    Write,
    /// Timed out while waiting for a response.
    Timeout,
    /// Invalid response from the module.
    InvalidResponse,
    /// The command was aborted.
    Aborted,
    /// Failed to parse the received response.
    Parse,
    /// Plain `ERROR` response without any further message.
    Error,
    /// The receive buffer could not hold an incoming extension.
    Overflow,
    /// A staging area smaller than a payload that had to be copied into it.
    BufferTooSmall,
    /// GSM equipment related error with its numeric code.
    CmeError(u16),
    /// GSM network related error with its numeric code.
    CmsError(u16),
    /// Connection error with its numeric code.
    ConnectionError(u16),
    /// Custom error match, carrying a truncated copy of the error text.
    Custom(Vec<u8>),
}

/// Whether `e` is the image of `ie` under the client-side mapping: every
/// variant maps to its namesake, and a custom error text is truncated to
/// [`CUSTOM_ERROR_KEEP`] bytes.
pub open spec fn error_matches(ie: InternalError, e: Error) -> bool {
    match ie {
        InternalError::Read => e == Error::Read,
        InternalError::Write => e == Error::Write,
        InternalError::Timeout => e == Error::Timeout,
        InternalError::InvalidResponse => e == Error::InvalidResponse,
        InternalError::Aborted => e == Error::Aborted,
        InternalError::Parse => e == Error::Parse,
        InternalError::Error => e == Error::Error,
        InternalError::Overflow => e == Error::Overflow,
        InternalError::CmeError(c) => e == Error::CmeError(c),
        InternalError::CmsError(c) => e == Error::CmsError(c),
        InternalError::ConnectionError(c) => e == Error::ConnectionError(c),
        InternalError::Custom(v) => match e {
            Error::Custom(w) => w@ == trunc_bytes(v@),
            _ => false,
        },
    }
}

/// The prefix of a custom error text that is kept: at most
/// [`CUSTOM_ERROR_KEEP`] bytes.
pub open spec fn trunc_bytes(s: Seq<u8>) -> Seq<u8> {
    if s.len() <= CUSTOM_ERROR_KEEP {
        s
    } else {
        s.take(CUSTOM_ERROR_KEEP as int)
    }
}

impl Error {
    /// Map an internal error to the public error kind, truncating a custom
    /// error text to [`CUSTOM_ERROR_KEEP`] bytes.
    pub fn from_internal(ie: &InternalError) -> (e: Error)
        ensures
            error_matches(*ie, e),
    {
        match ie {
            InternalError::Read => Error::Read,
            InternalError::Write => Error::Write,
            InternalError::Timeout => Error::Timeout,
            InternalError::InvalidResponse => Error::InvalidResponse,
            InternalError::Aborted => Error::Aborted,
            InternalError::Parse => Error::Parse,
            InternalError::Error => Error::Error,
            InternalError::Overflow => Error::Overflow,
            InternalError::CmeError(c) => Error::CmeError(*c),
            InternalError::CmsError(c) => Error::CmsError(*c),
            InternalError::ConnectionError(c) => Error::ConnectionError(*c),
            InternalError::Custom(v) => {
                let mut kept: Vec<u8> = Vec::new();
                let mut i: usize = 0;
                let end: usize = if v.len() <= CUSTOM_ERROR_KEEP {
                    v.len()
                } else {
                    CUSTOM_ERROR_KEEP
                };
                while i < end
                    invariant
                        end <= v.len(),
                        i <= end,
                        kept@ == v@.take(i as int),
                    decreases end - i,
                {
                    kept.push(v[i]);
                    i = i + 1;
                    proof {
                        assert(kept@ =~= v@.take(i as int));
                    }
                }
                proof {
                    assert(kept@ =~= trunc_bytes(v@));
                }
                Error::Custom(kept)
            },
        }
    }
}

} // verus!

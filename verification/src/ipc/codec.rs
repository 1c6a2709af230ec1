//! The wire codec's framing rules: a message is at most [`MAX_MESSAGE_BYTES`] long, and a
//! decoded message must consume its bytes exactly. The (de)serialisation itself is
//! `postcard`'s, done where the values are turned into bytes.
use vstd::prelude::*;

use crate::layout::dump::{decimal, push_decimal};
use crate::strutil::push_str;

verus! {

/// The largest message encoded or decoded, in bytes.
pub const MAX_MESSAGE_BYTES: usize = 16777216;

#[verifier::external_type_specification]
#[verifier::external_body]
pub struct ExPostcardError(postcard::Error);

/// A codec failure. Hostile input yields an error, never a panic.
#[derive(Debug)]
pub enum CodecError {
    /// The encoded size exceeds [`MAX_MESSAGE_BYTES`].
    TooLarge {
        /// The offending size.
        size: usize,
        /// The limit.
        max: usize,
    },
    /// `postcard` could not (de)serialise.
    Postcard(postcard::Error),
    /// Bytes remained after a complete value: a framing violation.
    Trailing(usize),
}

/// `postcard`'s own description of its error (its `Display`), which depends only on the
/// error; nothing is stated of the text.
#[verifier::external_body]
fn postcard_error_text(e: &postcard::Error) -> String {
    format!("{}", e)
}

impl CodecError {
    /// A human-readable description of the failure; a `postcard` failure carries
    /// `postcard`'s own description after the prefix.
    pub fn message(&self) -> (r: String)
        ensures
            match *self {
                CodecError::TooLarge { size, max } => r@ == "message too large: "@ + decimal(size as nat)
                    + " bytes > "@ + decimal(max as nat),
                CodecError::Postcard(_) => r@.len() >= 10 && r@.take(10) == "postcard: "@,
                CodecError::Trailing(n) => r@ == "trailing bytes after message: "@ + decimal(n as nat),
            },
    {
        let mut s = String::new();
        match self {
            CodecError::TooLarge { size, max } => {
                push_str(&mut s, "message too large: ");
                push_decimal(&mut s, *size as u64);
                push_str(&mut s, " bytes > ");
                push_decimal(&mut s, *max as u64);
            },
            CodecError::Postcard(e) => {
                push_str(&mut s, "postcard: ");
                proof {
                    reveal_strlit("postcard: ");
                }
                let ghost prefix = s@;
                let text = postcard_error_text(e);
                push_str(&mut s, text.as_str());
                assert(s@.take(10) =~= prefix);
            },
            CodecError::Trailing(n) => {
                push_str(&mut s, "trailing bytes after message: ");
                push_decimal(&mut s, *n as u64);
            },
        }
        s
    }
}

/// Checks an encoded message against the size limit: the bytes back if they fit, else
/// `TooLarge` with their length.
pub fn check_encoded(bytes: Vec<u8>) -> (r: Result<Vec<u8>, CodecError>)
    ensures
        bytes@.len() <= MAX_MESSAGE_BYTES ==> (r matches Ok(b) && b@ == bytes@),
        bytes@.len() > MAX_MESSAGE_BYTES ==> (r matches Err(CodecError::TooLarge { size, max })
            && size == bytes@.len() && max == MAX_MESSAGE_BYTES),
{
    if bytes.len() > MAX_MESSAGE_BYTES {
        return Err(CodecError::TooLarge { size: bytes.len(), max: MAX_MESSAGE_BYTES });
    }
    Ok(bytes)
}

/// Checks input before any parsing: oversized input is rejected without being touched.
pub fn check_decode_input(bytes: &[u8]) -> (r: Result<(), CodecError>)
    ensures
        bytes@.len() <= MAX_MESSAGE_BYTES ==> r is Ok,
        bytes@.len() > MAX_MESSAGE_BYTES ==> (r matches Err(CodecError::TooLarge { size, max })
            && size == bytes@.len() && max == MAX_MESSAGE_BYTES),
{
    if bytes.len() > MAX_MESSAGE_BYTES {
        return Err(CodecError::TooLarge { size: bytes.len(), max: MAX_MESSAGE_BYTES });
    }
    Ok(())
}

/// Checks what a complete parse left over: nothing may remain.
pub fn check_trailing(rest: &[u8]) -> (r: Result<(), CodecError>)
    ensures
        rest@.len() == 0 ==> r is Ok,
        rest@.len() > 0 ==> (r matches Err(CodecError::Trailing(n)) && n == rest@.len()),
{
    if rest.len() != 0 {
        return Err(CodecError::Trailing(rest.len()));
    }
    Ok(())
}

} // verus!

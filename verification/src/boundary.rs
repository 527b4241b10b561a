//! The edges of a conversion: the check that the input is text, and the
//! passage from a converter's outcome to the rewritten result or an error.

use vstd::prelude::*;
use vstd::string::*;
use vstd::utf8::{decode_utf8, valid_utf8};
use crate::rewrite::{apply_replacements, label_chars, rewrite};

verus! {

/// Why a conversion gave no output.
#[derive(Debug, Clone, PartialEq, Eq)]
pub enum ConvertError {
    /// The input bytes are not UTF-8 text.
    InvalidEncoding,
    /// The converter failed; the text is its own description of the failure.
    ConversionFailed(String),
}

/// The text that describes an encoding error.
pub open spec fn encoding_message() -> Seq<char> {
    "Invalid UTF-8"@
}

/// What stands before a converter's description of its failure.
pub open spec fn failure_prefix() -> Seq<char> {
    "Conversion failed: "@
}

impl ConvertError {
    /// The text that describes this error.
    pub open spec fn message_chars(&self) -> Seq<char> {
        match self {
            ConvertError::InvalidEncoding => encoding_message(),
            ConvertError::ConversionFailed(m) => failure_prefix() + m@,
        }
    }

    /// The text that describes this error: a fixed text for an encoding error,
    /// and the converter's description behind a fixed prefix otherwise.
    pub fn message(&self) -> (out: String)
        ensures
            out@ == self.message_chars(),
    {
        match self {
            ConvertError::InvalidEncoding => String::from_str("Invalid UTF-8"),
            ConvertError::ConversionFailed(m) => {
                let mut out = String::from_str("Conversion failed: ");
                out.append(m.as_str());
                out
            },
        }
    }
}

/// `std::str::from_utf8` tells whether the bytes are well-formed UTF-8 and, where
/// they are, gives the text that they encode; the text is copied into a `String`.
#[verifier::external_body]
fn text_of_utf8(bytes: &[u8]) -> (r: Option<String>)
    ensures
        r is Some <==> valid_utf8(bytes@),
        r is Some ==> r->Some_0@ == decode_utf8(bytes@),
{
    match std::str::from_utf8(bytes) {
        Ok(s) => Some(s.to_string()),
        Err(_) => None,
    }
}

/// The input as text. Bytes that are not well-formed UTF-8 are an encoding
/// error, which comes before any conversion is tried.
pub fn decode_input(bytes: &[u8]) -> (r: Result<String, ConvertError>)
    ensures
        valid_utf8(bytes@) ==> r is Ok && r->Ok_0@ == decode_utf8(bytes@),
        !valid_utf8(bytes@) ==> r is Err && r->Err_0 is InvalidEncoding,
{
    match text_of_utf8(bytes) {
        Some(text) => Ok(text),
        None => Err(ConvertError::InvalidEncoding),
    }
}

/// What a conversion returns once the converter is done: its text rewritten
/// onto `base_uri`, or a conversion error that carries its description of the
/// failure unchanged. Nothing of a failed conversion is returned.
pub fn finish_conversion(
    outcome: Result<String, String>,
    base_uri: &str,
    namespace: Option<&str>,
) -> (r: Result<String, ConvertError>)
    ensures
        match outcome {
            Ok(ttl) => r is Ok && r->Ok_0@ == rewrite(ttl@, base_uri@, label_chars(namespace)),
            Err(why) => r is Err && r->Err_0 is ConversionFailed
                && r->Err_0->ConversionFailed_0@ == why@,
        },
{
    match outcome {
        Ok(ttl) => Ok(apply_replacements(ttl, base_uri, namespace)),
        Err(why) => Err(ConvertError::ConversionFailed(why)),
    }
}

} // verus!

//! The error taxonomy: the three ways a header value fails to parse, and
//! the negotiation failure.

use vstd::prelude::*;

verus! {

/// Why an operation of this library failed.
#[derive(Debug)]
pub enum Error {
    /// The `type/subtype` segment failed syntactic parsing; holds the
    /// offending text, trimmed.
    MediaType { value: String },
    /// The `q=` value was not a numeral; holds the text after `q=`.
    ParseWeight { value: String },
    /// The `q=` value lay outside `[0.0, 1.0]`; holds its canonical
    /// decimal rendering.
    WeightRange { value: String },
    /// Negotiation found no usable representation (HTTP 406).
    NotAcceptable,
}

/// The message of each error, over the views of its fields.
pub open spec fn message_of(e: Error) -> Seq<char> {
    match e {
        Error::MediaType { value } => "Invalid media type: "@ + value@,
        Error::ParseWeight { value } => "Invalid weight: "@ + value@,
        Error::WeightRange { value } => "Weight should be 0.0-1.0. Got "@ + value@,
        Error::NotAcceptable => "Not acceptable"@,
    }
}

impl Error {
    /// A human-readable description of the error.
    pub fn message(&self) -> (r: String)
        ensures
            r@ == message_of(*self),
    {
        let mut out = String::new();
        match self {
            Error::MediaType { value } => {
                out.append("Invalid media type: ");
                out.append(value.as_str());
            }
            Error::ParseWeight { value } => {
                out.append("Invalid weight: ");
                out.append(value.as_str());
            }
            Error::WeightRange { value } => {
                out.append("Weight should be 0.0-1.0. Got ");
                out.append(value.as_str());
            }
            Error::NotAcceptable => {
                out.append("Not acceptable");
            }
        }
        out
    }
}

impl PartialEq for Error {
    fn eq(&self, other: &Self) -> (r: bool) {
        match (self, other) {
            (Error::MediaType { value: a }, Error::MediaType { value: b }) => a.eq(b),
            (Error::ParseWeight { value: a }, Error::ParseWeight { value: b }) => a.eq(b),
            (Error::WeightRange { value: a }, Error::WeightRange { value: b }) => a.eq(b),
            (Error::NotAcceptable, Error::NotAcceptable) => true,
            _ => false,
        }
    }
}

impl vstd::std_specs::cmp::PartialEqSpecImpl for Error {
    open spec fn obeys_eq_spec() -> bool {
        true
    }

    open spec fn eq_spec(&self, other: &Self) -> bool {
        match (self, other) {
            (Error::MediaType { value: a }, Error::MediaType { value: b }) => a@ == b@,
            (Error::ParseWeight { value: a }, Error::ParseWeight { value: b }) => a@ == b@,
            (Error::WeightRange { value: a }, Error::WeightRange { value: b }) => a@ == b@,
            (Error::NotAcceptable, Error::NotAcceptable) => true,
            _ => false,
        }
    }
}

} // verus!

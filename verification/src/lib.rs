//! Content negotiation for the HTTP `Accept` header.
//!
//! A header value is parsed into an [`Accept`]: an ordered list of
//! [`MediaType`] entries and an optional wildcard entry. [`Accept::negotiate`]
//! then picks the best of the representations a server can produce.
//! Quality values are kept in thousandths, so `q=0.8` is stored as `800`.

pub mod accept;
pub mod error;
pub mod media_type;
pub mod text;
pub mod weight;

use vstd::prelude::*;

verus! {

/// A parsed `type/subtype` pair. It models the collaborating MIME parser's
/// value by what this library reads of it: the lowercased `type/subtype`
/// text (the essence), which also carries equality and the wildcard check.
#[derive(Debug)]
pub struct Mime {
    /// The lowercased `type/subtype` text, as the MIME parser normalizes it.
    pub essence: String,
}

/// One `type/subtype[;q=weight]` entry of an `Accept` header value.
#[derive(Debug)]
pub struct MediaType {
    /// The parsed media type.
    pub mime: Mime,
    /// The quality value in thousandths (`0..=1000`), or `None` when the
    /// entry named no weight.
    pub weight: Option<u32>,
}

/// A parsed `Accept` header value.
#[derive(Debug)]
pub struct Accept {
    /// The retained `*/*` entry: when several appear, the last one parsed.
    pub wildcard: Option<MediaType>,
    /// The non-wildcard entries, in descending priority order.
    pub types: Vec<MediaType>,
}

} // verus!

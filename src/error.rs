use vstd::prelude::*;

verus! {

/// Why a supported value or a header could not be used for negotiation.
#[derive(Clone, Copy, Debug, PartialEq, Eq, Structural)]
pub enum Error {
    /// The separator (`/` in a media type, `-` in a language tag) is absent.
    MissingSeparator(char),
    /// A media type holds more than one `/`.
    TooManyParts,
    /// A wildcard stands where none is allowed.
    InvalidWildcard,
    /// Malformed syntax: an empty value, or a parameter without `=`.
    InvalidHeader,
    /// An encoding or a language carries a parameter other than `q`.
    ParamsNotAllowed,
    /// A supported value carries a `q` parameter.
    QualityNotAllowed,
    /// The `q` parameter is not a quality value.
    InvalidQuality,
}

} // verus!

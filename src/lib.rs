//! Content negotiation for HTTP: pick the representation that best satisfies
//! an `Accept`, `Accept-Encoding` or `Accept-Language` header.

pub mod content_type;
pub mod encoding;
pub mod error;
pub mod language;
pub mod laws;
pub mod negotiator;
pub mod params;
pub mod quality;
pub mod text;
pub mod token;
pub mod wildcard;

pub use content_type::{
    ContentTypeNegotiation, MediaRange, MediaType, NegotiatorOwned, NegotiatorRef, parse_mime,
};
pub use encoding::EncodingNegotiation;
pub use error::Error;
pub use language::{LanguageNegotiation, LanguageRange, LanguageTag};
pub use quality::{Quality, parse_quality_str};
pub use negotiator::{AsNegotiationStr, HeaderEntry, NegotiationType, Negotiator, parse_sort_header};
pub use wildcard::MaybeWildcard;

//! Negotiation of content encodings (`Accept-Encoding`): a token, which a
//! header entry may replace by the wildcard `*`.
use vstd::prelude::*;
use crate::error::Error;
use crate::quality::QualityView;
use crate::negotiator::{HeaderEntry, NegotiationType};
use crate::text::{single, chars_of, contains_in, is_single_str};
use crate::token::{
    token_entry_spec, parse_token_entry, supported_params_error, supported_params_error_of,
};
use crate::wildcard::{MaybeWildcard, wildcard_of, wildcard_matches};

verus! {

/// Negotiation of content encodings, as in `Accept-Encoding`.
#[derive(Clone, Copy, Debug)]
pub struct EncodingNegotiation;

impl NegotiationType for EncodingNegotiation {
    type Parsed = String;

    type Entry = MaybeWildcard<String>;

    /// A supported encoding is taken as written; it may carry no parameter
    /// (a lone `q` is refused as a quality) and may not be the wildcard.
    open spec fn supported_spec(raw: Seq<char>) -> Result<Seq<char>, Error> {
        if raw.contains(';') {
            Err(supported_params_error(raw))
        } else if raw == single('*') {
            Err(Error::InvalidWildcard)
        } else {
            Ok(raw)
        }
    }

    open spec fn entry_spec(raw: Seq<char>) -> Result<(MaybeWildcard<Seq<char>>, QualityView), Error> {
        match token_entry_spec(raw) {
            Ok((t, q)) => Ok((wildcard_of(t), q)),
            Err(e) => Err(e),
        }
    }

    open spec fn is_match_spec(supported: Seq<char>, entry: MaybeWildcard<Seq<char>>) -> bool {
        wildcard_matches(entry, supported)
    }

    open spec fn specificity_spec(entry: MaybeWildcard<Seq<char>>) -> (int, int) {
        (0, 0)
    }

    open spec fn parsed_wf(p: &String) -> bool {
        true
    }

    open spec fn entry_wf(e: &MaybeWildcard<String>) -> bool {
        true
    }

    fn parse_elem(raw: &str) -> (r: Result<String, Error>) {
        let cs = chars_of(raw);
        assert(cs@.subrange(0, cs@.len() as int) =~= raw@);
        if contains_in(&cs, 0, cs.len(), ';') {
            return Err(supported_params_error_of(raw));
        }
        if is_single_str(raw, '*') {
            return Err(Error::InvalidWildcard);
        }
        Ok(raw.to_owned())
    }

    fn parse_entry(raw: &str) -> (r: Result<HeaderEntry<MaybeWildcard<String>>, Error>) {
        match parse_token_entry(raw) {
            Ok((t, q)) => Ok(HeaderEntry { key: MaybeWildcard::from_str(t), quality: q }),
            Err(e) => Err(e),
        }
    }

    fn is_match(supported: &String, entry: &MaybeWildcard<String>) -> (r: bool) {
        entry.matches(supported)
    }

    fn specificity(entry: &MaybeWildcard<String>) -> (r: (u8, usize)) {
        (0, 0)
    }
}

} // verus!

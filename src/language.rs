//! Negotiation of languages (`Accept-Language`): a `primary-region` tag,
//! where a header entry without a region accepts any region.
use vstd::prelude::*;
use crate::error::Error;
use crate::quality::QualityView;
use crate::negotiator::{HeaderEntry, NegotiationType};
use crate::text::{find, chars_of, contains_in, find_in, string_of};
use crate::token::{
    token_entry_spec, parse_token_entry, supported_params_error, supported_params_error_of,
};
use crate::wildcard::{MaybeWildcard, wildcard_matches};

verus! {

/// A supported language: primary subtag and region.
#[derive(Clone, Debug, PartialEq)]
pub struct LanguageTag {
    pub primary: String,
    pub region: String,
}

impl View for LanguageTag {
    type V = (Seq<char>, Seq<char>);

    open spec fn view(&self) -> (Seq<char>, Seq<char>) {
        (self.primary@, self.region@)
    }
}

/// A language of a header entry: primary subtag, and a region or the
/// wildcard where the entry names none.
#[derive(Clone, Debug, PartialEq)]
pub struct LanguageRange {
    pub primary: String,
    pub region: MaybeWildcard<String>,
}

impl View for LanguageRange {
    type V = (Seq<char>, MaybeWildcard<Seq<char>>);

    open spec fn view(&self) -> (Seq<char>, MaybeWildcard<Seq<char>>) {
        (self.primary@, self.region@)
    }
}

/// A header token cut at its first `-`; without one, any region.
pub open spec fn language_range_of(t: Seq<char>) -> (Seq<char>, MaybeWildcard<Seq<char>>) {
    match find(t, '-') {
        Some(k) => (t.subrange(0, k), MaybeWildcard::Specific(t.subrange(k + 1, t.len() as int))),
        None => (t, MaybeWildcard::Wildcard),
    }
}

/// Negotiation of languages, as in `Accept-Language`.
#[derive(Clone, Copy, Debug)]
pub struct LanguageNegotiation;

impl NegotiationType for LanguageNegotiation {
    type Parsed = LanguageTag;

    type Entry = LanguageRange;

    /// A supported language carries no parameter (a lone `q` is refused as a
    /// quality), and is cut at its first `-`, which it must hold.
    open spec fn supported_spec(raw: Seq<char>) -> Result<(Seq<char>, Seq<char>), Error> {
        if raw.contains(';') {
            Err(supported_params_error(raw))
        } else {
            match find(raw, '-') {
                None => Err(Error::MissingSeparator('-')),
                Some(k) => Ok((raw.subrange(0, k), raw.subrange(k + 1, raw.len() as int))),
            }
        }
    }

    open spec fn entry_spec(raw: Seq<char>) -> Result<
        ((Seq<char>, MaybeWildcard<Seq<char>>), QualityView),
        Error,
    > {
        match token_entry_spec(raw) {
            Ok((t, q)) => Ok((language_range_of(t), q)),
            Err(e) => Err(e),
        }
    }

    open spec fn is_match_spec(
        supported: (Seq<char>, Seq<char>),
        entry: (Seq<char>, MaybeWildcard<Seq<char>>),
    ) -> bool {
        supported.0 == entry.0 && wildcard_matches(entry.1, supported.1)
    }

    /// An entry with a region is more specific than one without.
    open spec fn specificity_spec(entry: (Seq<char>, MaybeWildcard<Seq<char>>)) -> (int, int) {
        (
            if entry.1 is Wildcard {
                0
            } else {
                1
            },
            0,
        )
    }

    open spec fn parsed_wf(p: &LanguageTag) -> bool {
        true
    }

    open spec fn entry_wf(e: &LanguageRange) -> bool {
        true
    }

    fn parse_elem(raw: &str) -> (r: Result<LanguageTag, Error>) {
        let cs = chars_of(raw);
        assert(cs@.subrange(0, cs@.len() as int) =~= raw@);
        if contains_in(&cs, 0, cs.len(), ';') {
            return Err(supported_params_error_of(raw));
        }
        match find_in(&cs, 0, cs.len(), '-') {
            None => Err(Error::MissingSeparator('-')),
            Some(k) => Ok(
                LanguageTag { primary: string_of(raw, 0, k), region: string_of(raw, k + 1, cs.len()) },
            ),
        }
    }

    fn parse_entry(raw: &str) -> (r: Result<HeaderEntry<LanguageRange>, Error>) {
        let (t, q) = match parse_token_entry(raw) {
            Ok(tq) => tq,
            Err(e) => return Err(e),
        };
        let cs = chars_of(t.as_str());
        assert(cs@.subrange(0, cs@.len() as int) =~= t@);
        let key = match find_in(&cs, 0, cs.len(), '-') {
            Some(k) => LanguageRange {
                primary: string_of(t.as_str(), 0, k),
                region: MaybeWildcard::Specific(string_of(t.as_str(), k + 1, cs.len())),
            },
            None => LanguageRange { primary: t, region: MaybeWildcard::Wildcard },
        };
        Ok(HeaderEntry { key, quality: q })
    }

    fn is_match(supported: &LanguageTag, entry: &LanguageRange) -> (r: bool) {
        supported.primary == entry.primary && entry.region.matches(&supported.region)
    }

    fn specificity(entry: &LanguageRange) -> (r: (u8, usize)) {
        if entry.region.is_wildcard() {
            (0, 0)
        } else {
            (1, 0)
        }
    }
}

} // verus!

//! Negotiation of media types (`Accept`): `main/sub` with parameters, where
//! a header entry may use `*/*` or `main/*` and must repeat the supported
//! value's parameters exactly.
use vstd::prelude::*;
use crate::error::Error;
use crate::negotiator::{AsNegotiationStr, HeaderEntry, NegotiationType, Negotiator, parse_all, negotiated};
use crate::params::{
    pairs_view, to_map, keys_unique, keys_sorted, insert_param, take_param, has_param, same_params,
};
use crate::text::{
    split, trim, find, single, pieces, ranges_within, chars_of, string_of, split_ranges,
    trim_range, find_in, contains_in, is_single_str, lemma_split_nonempty,
};
use crate::quality::{Quality, QualityView, quality_one, quality_value, parse_quality};
use crate::wildcard::{MaybeWildcard, wildcard_of, wildcard_matches};

verus! {

/// A media type as read: main type, subtype, and parameters with distinct
/// keys, in increasing order of key.
#[derive(Clone, Debug, PartialEq)]
pub struct MediaType {
    pub main: String,
    pub sub: String,
    pub params: Vec<(String, String)>,
}

/// What a media type stands for.
pub struct MediaTypeView {
    pub main: Seq<char>,
    pub sub: Seq<char>,
    pub params: Map<Seq<char>, Seq<char>>,
}

impl View for MediaType {
    type V = MediaTypeView;

    open spec fn view(&self) -> MediaTypeView {
        MediaTypeView {
            main: self.main@,
            sub: self.sub@,
            params: to_map(pairs_view(self.params@)),
        }
    }
}

/// A media range of a header entry: main type and subtype, either of which
/// may be the wildcard, and the parameters other than `q`, in increasing
/// order of key.
#[derive(Clone, Debug, PartialEq)]
pub struct MediaRange {
    pub main: MaybeWildcard<String>,
    pub sub: MaybeWildcard<String>,
    pub params: Vec<(String, String)>,
}

/// What a media range stands for.
pub struct MediaRangeView {
    pub main: MaybeWildcard<Seq<char>>,
    pub sub: MaybeWildcard<Seq<char>>,
    pub params: Map<Seq<char>, Seq<char>>,
}

impl View for MediaRange {
    type V = MediaRangeView;

    open spec fn view(&self) -> MediaRangeView {
        MediaRangeView {
            main: self.main@,
            sub: self.sub@,
            params: to_map(pairs_view(self.params@)),
        }
    }
}

/// `s` cut at the first `c`: what stands before it and what stands after.
pub open spec fn split_at_first(s: Seq<char>, c: char) -> (Seq<char>, Seq<char>) {
    let k = find(s, c)->Some_0;
    (s.subrange(0, k), s.subrange(k + 1, s.len() as int))
}

/// The `key=value` pairs that the parameter pieces give, each piece trimmed
/// and cut at its first `=`; nothing where a piece holds no `=`.
pub open spec fn param_pairs(parts: Seq<Seq<char>>) -> Option<Seq<(Seq<char>, Seq<char>)>> {
    if forall|i: int| 0 <= i < parts.len() ==> find(trim(#[trigger] parts[i]), '=') is Some {
        Some(parts.map_values(|p: Seq<char>| split_at_first(trim(p), '=')))
    } else {
        None
    }
}

/// Where a wildcard is refused: in a header, a wildcard main type with a
/// specific subtype; in a supported value, any wildcard.
pub open spec fn wildcard_refused(main: Seq<char>, sub: Seq<char>, from_header: bool) -> bool {
    if from_header {
        main == single('*') && sub != single('*')
    } else {
        main == single('*') || sub == single('*')
    }
}

/// The media type `main/sub` with the parameter pieces `rest`.
pub open spec fn with_params(
    main: Seq<char>,
    sub: Seq<char>,
    rest: Seq<Seq<char>>,
    from_header: bool,
) -> Result<MediaTypeView, Error> {
    match param_pairs(rest) {
        None => Err(Error::InvalidHeader),
        Some(pairs) => if !from_header && to_map(pairs).contains_key(single('q')) {
            Err(Error::QualityNotAllowed)
        } else {
            Ok(MediaTypeView { main, sub, params: to_map(pairs) })
        },
    }
}

/// What reading the media type `s` gives, in a header (`from_header`) or as
/// a supported value. The value before the first `;` is trimmed and cut at
/// its first `/`; each later piece is a parameter. A supported value may
/// not carry `q`; in a header `q` stays among the parameters.
pub open spec fn mime_spec(s: Seq<char>, from_header: bool) -> Result<MediaTypeView, Error> {
    let parts = split(s, ';');
    let left = trim(parts[0]);
    if left.len() == 0 {
        Err(Error::InvalidHeader)
    } else {
        match find(left, '/') {
            None => Err(Error::MissingSeparator('/')),
            Some(k) => {
                let main = left.subrange(0, k);
                let sub = left.subrange(k + 1, left.len() as int);
                if sub.contains('/') {
                    Err(Error::TooManyParts)
                } else if wildcard_refused(main, sub, from_header) {
                    Err(Error::InvalidWildcard)
                } else {
                    with_params(main, sub, parts.subrange(1, parts.len() as int), from_header)
                }
            },
        }
    }
}

/// The quality that parameters give: the value of `q`, 1 where absent.
pub open spec fn quality_param(params: Map<Seq<char>, Seq<char>>) -> Result<QualityView, Error> {
    if params.contains_key(single('q')) {
        match quality_value(params[single('q')]) {
            Some(q) => Ok(q),
            None => Err(Error::InvalidQuality),
        }
    } else {
        Ok(quality_one())
    }
}

/// How specific a media range is: `*/*` is 0, `main/*` is 1, and `main/sub` is 2.
pub open spec fn precision_spec(main: MaybeWildcard<Seq<char>>, sub: MaybeWildcard<Seq<char>>) -> int {
    match (main, sub) {
        (MaybeWildcard::Wildcard, MaybeWildcard::Wildcard) => 0,
        (_, MaybeWildcard::Wildcard) => 1,
        _ => 2,
    }
}

/// Refuses a wildcard main type with a specific subtype.
pub fn are_wildcards_valid(main: &str, sub: &str) -> (r: Result<(), Error>)
    ensures
        match r {
            Ok(()) => !(main@ == single('*') && sub@ != single('*')),
            Err(e) => e == Error::InvalidWildcard && main@ == single('*') && sub@ != single('*'),
        },
{
    if is_single_str(main, '*') && !is_single_str(sub, '*') {
        return Err(Error::InvalidWildcard);
    }
    Ok(())
}

/// How specific a media range is, as `precision_spec` states.
pub fn mime_precision_score(main: &MaybeWildcard<String>, sub: &MaybeWildcard<String>) -> (r: u8)
    ensures
        r as int == precision_spec(main@, sub@),
{
    match (main, sub) {
        (MaybeWildcard::Wildcard, MaybeWildcard::Wildcard) => 0,
        (_, MaybeWildcard::Wildcard) => 1,
        _ => 2,
    }
}

/// Reads the media type `mime`, in a header (`from_header`) or as a
/// supported value, as `mime_spec` states.
pub fn parse_mime(mime: &str, from_header: bool) -> (r: Result<MediaType, Error>)
    ensures
        match r {
            Ok(m) => mime_spec(mime@, from_header) == Ok::<MediaTypeView, Error>(m@) && keys_unique(
                pairs_view(m.params@),
            ) && keys_sorted(pairs_view(m.params@)),
            Err(e) => mime_spec(mime@, from_header) == Err::<MediaTypeView, Error>(e),
        },
{
    let cs = chars_of(mime);
    let ghost parts = split(mime@, ';');
    assert(cs@.subrange(0, cs@.len() as int) =~= mime@);
    let ranges = split_ranges(&cs, 0, cs.len(), ';');
    proof {
        lemma_split_nonempty(mime@, ';');
        assert(ranges_within(ranges@, 0, cs@.len() as int));
        assert(pieces(cs@, ranges@)[0] == parts[0]);
    }
    let (lo, hi) = ranges[0];
    let (a, b) = trim_range(&cs, lo, hi);
    let ghost left = trim(parts[0]);
    if a == b {
        return Err(Error::InvalidHeader);
    }
    let slash = match find_in(&cs, a, b, '/') {
        Some(k) => k,
        None => return Err(Error::MissingSeparator('/')),
    };
    assert(cs@.subrange(a as int, slash as int) =~= left.subrange(0, slash - a));
    assert(cs@.subrange(slash + 1, b as int) =~= left.subrange(slash - a + 1, left.len() as int));
    if contains_in(&cs, slash + 1, b, '/') {
        return Err(Error::TooManyParts);
    }
    let main = string_of(mime, a, slash);
    let sub = string_of(mime, slash + 1, b);
    if from_header {
        match are_wildcards_valid(main.as_str(), sub.as_str()) {
            Ok(()) => {},
            Err(e) => return Err(e),
        }
    } else if is_single_str(main.as_str(), '*') || is_single_str(sub.as_str(), '*') {
        return Err(Error::InvalidWildcard);
    }
    let ghost rest = parts.subrange(1, parts.len() as int);
    let ghost pairs = rest.map_values(|p: Seq<char>| split_at_first(trim(p), '='));
    let mut params: Vec<(String, String)> = Vec::new();
    let mut j: usize = 1;
    assert(pairs.subrange(0, 0) =~= Seq::<(Seq<char>, Seq<char>)>::empty());
    assert(pairs_view(params@) =~= Seq::<(Seq<char>, Seq<char>)>::empty());
    while j < ranges.len()
        invariant
            1 <= j <= ranges@.len(),
            cs@ == mime@,
            ranges_within(ranges@, 0, cs@.len() as int),
            pieces(cs@, ranges@) == parts,
            parts.len() == ranges@.len(),
            rest == parts.subrange(1, parts.len() as int),
            pairs == rest.map_values(|p: Seq<char>| split_at_first(trim(p), '=')),
            forall|i: int| 0 <= i < j - 1 ==> find(trim(#[trigger] rest[i]), '=') is Some,
            keys_unique(pairs_view(params@)),
            keys_sorted(pairs_view(params@)),
            to_map(pairs_view(params@)) == to_map(pairs.subrange(0, j - 1)),
            mime_spec(mime@, from_header) == with_params(main@, sub@, rest, from_header),
        decreases ranges@.len() - j,
    {
        let (plo, phi) = ranges[j];
        assert(ranges@[j as int] == (plo, phi));
        assert(cs@.subrange(plo as int, phi as int) == rest[j - 1]);
        let (pa, pb) = trim_range(&cs, plo, phi);
        let eq = match find_in(&cs, pa, pb, '=') {
            Some(e) => e,
            None => {
                assert(param_pairs(rest) is None);
                return Err(Error::InvalidHeader);
            },
        };
        let key = string_of(mime, pa, eq);
        let value = string_of(mime, eq + 1, pb);
        proof {
            let t = trim(rest[j - 1]);
            assert(t == cs@.subrange(pa as int, pb as int));
            assert(split_at_first(t, '=') == pairs[j - 1]);
            assert(key@ =~= pairs[j - 1].0);
            assert(value@ =~= pairs[j - 1].1);
            assert(pairs.subrange(0, j as int).drop_last() =~= pairs.subrange(0, j - 1));
        }
        insert_param(&mut params, key, value);
        j = j + 1;
    }
    proof {
        assert(pairs.subrange(0, j - 1) =~= pairs);
        assert(param_pairs(rest) == Some(pairs));
    }
    if !from_header && has_param(&params, 'q') {
        return Err(Error::QualityNotAllowed);
    }
    Ok(MediaType { main, sub, params })
}

/// Takes the `q` parameter out of `params` and reads it as a quality; 1
/// where it is absent.
pub fn extract_quality(params: &mut Vec<(String, String)>) -> (r: Result<Quality, Error>)
    requires
        keys_sorted(pairs_view(old(params)@)),
    ensures
        keys_unique(pairs_view(final(params)@)),
        keys_sorted(pairs_view(final(params)@)),
        to_map(pairs_view(final(params)@)) == to_map(pairs_view(old(params)@)).remove(single('q')),
        match r {
            Ok(q) => quality_param(to_map(pairs_view(old(params)@))) == Ok::<QualityView, Error>(q@),
            Err(e) => quality_param(to_map(pairs_view(old(params)@))) == Err::<QualityView, Error>(e),
        },
{
    match take_param(params, 'q') {
        None => Ok(Quality::one()),
        Some(v) => {
            let cs = chars_of(v.as_str());
            assert(cs@.subrange(0, cs@.len() as int) =~= v@);
            match parse_quality(&cs, 0, cs.len()) {
                Some(q) => Ok(q),
                None => Err(Error::InvalidQuality),
            }
        },
    }
}

/// Negotiation of media types, as in `Accept`.
#[derive(Clone, Copy, Debug)]
pub struct ContentTypeNegotiation;

impl NegotiationType for ContentTypeNegotiation {
    type Parsed = MediaType;

    type Entry = MediaRange;

    open spec fn supported_spec(raw: Seq<char>) -> Result<MediaTypeView, Error> {
        mime_spec(raw, false)
    }

    open spec fn entry_spec(raw: Seq<char>) -> Result<(MediaRangeView, QualityView), Error> {
        match mime_spec(raw, true) {
            Err(e) => Err(e),
            Ok(m) => match quality_param(m.params) {
                Err(e) => Err(e),
                Ok(q) => Ok(
                    (
                        MediaRangeView {
                            main: wildcard_of(m.main),
                            sub: wildcard_of(m.sub),
                            params: m.params.remove(single('q')),
                        },
                        q,
                    ),
                ),
            },
        }
    }

    open spec fn is_match_spec(supported: MediaTypeView, entry: MediaRangeView) -> bool {
        wildcard_matches(entry.main, supported.main) && wildcard_matches(entry.sub, supported.sub)
            && supported.params == entry.params
    }

    open spec fn specificity_spec(entry: MediaRangeView) -> (int, int) {
        (precision_spec(entry.main, entry.sub), entry.params.dom().len() as int)
    }

    open spec fn parsed_wf(p: &MediaType) -> bool {
        keys_unique(pairs_view(p.params@)) && keys_sorted(pairs_view(p.params@))
    }

    open spec fn entry_wf(e: &MediaRange) -> bool {
        keys_unique(pairs_view(e.params@)) && keys_sorted(pairs_view(e.params@))
    }

    fn parse_elem(raw: &str) -> (r: Result<MediaType, Error>) {
        parse_mime(raw, false)
    }

    fn parse_entry(raw: &str) -> (r: Result<HeaderEntry<MediaRange>, Error>) {
        let m = match parse_mime(raw, true) {
            Ok(m) => m,
            Err(e) => return Err(e),
        };
        let ghost mv = m@;
        let mut params = m.params;
        let q = match extract_quality(&mut params) {
            Ok(q) => q,
            Err(e) => return Err(e),
        };
        let key = MediaRange {
            main: MaybeWildcard::from_str(m.main),
            sub: MaybeWildcard::from_str(m.sub),
            params,
        };
        assert(key@ == MediaRangeView {
            main: wildcard_of(mv.main),
            sub: wildcard_of(mv.sub),
            params: mv.params.remove(single('q')),
        });
        Ok(HeaderEntry { key, quality: q })
    }

    fn is_match(supported: &MediaType, entry: &MediaRange) -> (r: bool) {
        entry.main.matches(&supported.main) && entry.sub.matches(&supported.sub) && same_params(
            &supported.params,
            &entry.params,
        )
    }

    fn specificity(entry: &MediaRange) -> (r: (u8, usize)) {
        proof {
            crate::params::lemma_to_map_unique(pairs_view(entry.params@));
        }
        (mime_precision_score(&entry.main, &entry.sub), entry.params.len())
    }
}


/// The characters of each string of `items`.
pub open spec fn strs_view(items: Seq<&str>) -> Seq<Seq<char>> {
    items.map_values(|s: &str| s@)
}

/// A media type negotiator that owns its supported values.
#[derive(Debug)]
pub struct NegotiatorOwned {
    inner: Negotiator<ContentTypeNegotiation, String>,
}

impl NegotiatorOwned {
    /// The supported media types as read, in order.
    pub closed spec fn keys(self) -> Seq<MediaTypeView> {
        self.inner.keys()
    }

    /// The supported media types as given, in order.
    pub closed spec fn values(self) -> Seq<Seq<char>> {
        self.inner.values().map_values(|s: String| s@)
    }

    /// Reads each supported media type in turn; the first that cannot be
    /// read fails the whole construction.
    pub fn new(supported: Vec<&str>) -> (r: Result<Self, Error>)
        ensures
            match parse_all::<ContentTypeNegotiation>(strs_view(supported@)) {
                Ok(ks) => r matches Ok(n) && n.keys() == ks && n.values() == strs_view(supported@),
                Err(e) => r matches Err(e2) && e2 == e,
            },
    {
        let mut owned: Vec<String> = Vec::new();
        let mut i: usize = 0;
        while i < supported.len()
            invariant
                i <= supported@.len(),
                owned@.len() == i,
                forall|j: int| 0 <= j < i ==> (#[trigger] owned@[j])@ == supported@[j]@,
            decreases supported@.len() - i,
        {
            owned.push(supported[i].to_owned());
            i = i + 1;
        }
        let ghost strs = strs_view(supported@);
        assert(owned@.map_values(|t: String| t.negotiation_str()) =~= strs);
        assert(owned@.map_values(|s: String| s@) =~= strs);
        match Negotiator::new(owned) {
            Ok(inner) => Ok(NegotiatorOwned { inner }),
            Err(e) => Err(e),
        }
    }

    /// The supported media type that best satisfies `header`, as
    /// `Negotiator::negotiate` chooses it.
    pub fn negotiate(&self, header: &str) -> (r: Result<Option<&str>, Error>)
        ensures
            match negotiated::<ContentTypeNegotiation>(self.keys(), header@) {
                Ok(Some(k)) => 0 <= k < self.values().len() && (r matches Ok(Some(v)) && v@
                    == self.values()[k]),
                Ok(None) => r matches Ok(None),
                Err(e) => r matches Err(e2) && e2 == e,
            },
    {
        match self.inner.negotiate(header) {
            Ok(Some(v)) => Ok(Some(v.as_str())),
            Ok(None) => Ok(None),
            Err(e) => Err(e),
        }
    }
}

/// A media type negotiator that borrows its supported values.
#[derive(Debug)]
pub struct NegotiatorRef<'a> {
    inner: Negotiator<ContentTypeNegotiation, &'a str>,
}

impl<'a> NegotiatorRef<'a> {
    /// The supported media types as read, in order.
    pub closed spec fn keys(self) -> Seq<MediaTypeView> {
        self.inner.keys()
    }

    /// The supported media types as given, in order.
    pub closed spec fn values(self) -> Seq<&'a str> {
        self.inner.values()
    }

    /// Reads each supported media type in turn; the first that cannot be
    /// read fails the whole construction.
    pub fn new(supported: Vec<&'a str>) -> (r: Result<Self, Error>)
        ensures
            match parse_all::<ContentTypeNegotiation>(strs_view(supported@)) {
                Ok(ks) => r matches Ok(n) && n.keys() == ks && n.values() == supported@,
                Err(e) => r matches Err(e2) && e2 == e,
            },
    {
        assert(supported@.map_values(|t: &'a str| t.negotiation_str()) =~= strs_view(supported@));
        match Negotiator::new(supported) {
            Ok(inner) => Ok(NegotiatorRef { inner }),
            Err(e) => Err(e),
        }
    }

    /// The supported media type that best satisfies `header`, as
    /// `Negotiator::negotiate` chooses it.
    pub fn negotiate(&self, header: &str) -> (r: Result<Option<&'a str>, Error>)
        ensures
            match negotiated::<ContentTypeNegotiation>(self.keys(), header@) {
                Ok(Some(k)) => 0 <= k < self.values().len() && (r matches Ok(Some(v)) && v
                    == self.values()[k]),
                Ok(None) => r matches Ok(None),
                Err(e) => r matches Err(e2) && e2 == e,
            },
    {
        match self.inner.negotiate(header) {
            Ok(Some(v)) => Ok(Some(*v)),
            Ok(None) => Ok(None),
            Err(e) => Err(e),
        }
    }
}

} // verus!

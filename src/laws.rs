//! Properties of negotiation that hold for every supported list, proved from
//! the models the functions of this library are verified against.
use vstd::prelude::*;
use crate::content_type::{ContentTypeNegotiation, MediaTypeView, MediaRangeView, mime_spec};
use crate::encoding::EncodingNegotiation;
use crate::language::LanguageNegotiation;
use crate::error::Error;
use crate::negotiator::{
    AsNegotiationStr, NegotiationType, Negotiator, header_entries, is_best_entry, is_first_match,
    lemma_entries_ok, lemma_parse_all_ok, lemma_selection_facts, lemma_selection_single,
    lemma_single_entry, matches_some, negotiated, negotiation_strs, parse_all, selection,
};
use crate::params::to_map;
use crate::text::{
    find, is_space, lemma_find_first, lemma_find_none, lemma_split_once, lemma_split_without,
    lemma_trim_plain, single, split, trim,
};
use crate::quality::{QualityView, lemma_quality_order, quality_lt, quality_one, quality_value};
use crate::wildcard::MaybeWildcard;

verus! {

/// A supported media type read as a header entry reads the same: it holds
/// no wildcard and no `q`.
proof fn lemma_supported_as_entry(raw: Seq<char>)
    requires
        mime_spec(raw, false) is Ok,
    ensures
        mime_spec(raw, true) == mime_spec(raw, false),
        !mime_spec(raw, false)->Ok_0.params.contains_key(single('q')),
        mime_spec(raw, false)->Ok_0.main != single('*'),
        mime_spec(raw, false)->Ok_0.sub != single('*'),
{
}

/// Read as a header entry, the supported media type `raws[k]` is satisfied
/// by exactly the supported values that read the same as it.
proof fn lemma_media_verbatim_entry(raws: Seq<Seq<char>>, k: int)
    requires
        parse_all::<ContentTypeNegotiation>(raws) is Ok,
        0 <= k < raws.len(),
    ensures
        ({
            let ks = parse_all::<ContentTypeNegotiation>(raws)->Ok_0;
            &&& ks.len() == raws.len()
            &&& ContentTypeNegotiation::entry_spec(raws[k]) is Ok
            &&& forall|j: int|
                0 <= j < ks.len() ==> (#[trigger] ContentTypeNegotiation::is_match_spec(
                    ks[j],
                    ContentTypeNegotiation::entry_spec(raws[k])->Ok_0.0,
                ) <==> ks[j] == ks[k])
        }),
{
    let ks = parse_all::<ContentTypeNegotiation>(raws)->Ok_0;
    lemma_parse_all_ok::<ContentTypeNegotiation>(raws);
    let raw = raws[k];
    let m = ks[k];
    assert(mime_spec(raw, false) == Ok::<MediaTypeView, Error>(m));
    lemma_supported_as_entry(raw);
    let key = MediaRangeView {
        main: MaybeWildcard::Specific(m.main),
        sub: MaybeWildcard::Specific(m.sub),
        params: m.params,
    };
    assert(m.params.remove(single('q')) =~= m.params);
    assert(ContentTypeNegotiation::entry_spec(raw) == Ok::<(MediaRangeView, QualityView), Error>(
        (key, quality_one()),
    ));
}

/// Read as a header entry, the supported encoding `raws[k]` is satisfied by
/// exactly the supported values equal to it.
proof fn lemma_encoding_verbatim_entry(raws: Seq<Seq<char>>, k: int)
    requires
        parse_all::<EncodingNegotiation>(raws) is Ok,
        0 <= k < raws.len(),
        raws[k].len() > 0,
        trim(raws[k]) == raws[k],
    ensures
        ({
            let ks = parse_all::<EncodingNegotiation>(raws)->Ok_0;
            &&& ks.len() == raws.len()
            &&& EncodingNegotiation::entry_spec(raws[k]) is Ok
            &&& forall|j: int|
                0 <= j < ks.len() ==> (#[trigger] EncodingNegotiation::is_match_spec(
                    ks[j],
                    EncodingNegotiation::entry_spec(raws[k])->Ok_0.0,
                ) <==> ks[j] == ks[k])
        }),
{
    let ks = parse_all::<EncodingNegotiation>(raws)->Ok_0;
    lemma_parse_all_ok::<EncodingNegotiation>(raws);
    let raw = raws[k];
    assert(EncodingNegotiation::supported_spec(raw) == Ok::<Seq<char>, Error>(ks[k]));
    assert(ks[k] == raw);
    lemma_split_without(raw, ';');
    let parts = split(raw, ';');
    assert(parts.subrange(1, parts.len() as int) =~= Seq::<Seq<char>>::empty());
    let key = MaybeWildcard::Specific(raw);
    assert(EncodingNegotiation::entry_spec(raw) == Ok::<(MaybeWildcard<Seq<char>>, QualityView), Error>(
        (key, quality_one()),
    ));
}

/// Read as a header entry, the supported language `raws[k]` is satisfied by
/// exactly the supported values that read the same as it.
proof fn lemma_language_verbatim_entry(raws: Seq<Seq<char>>, k: int)
    requires
        parse_all::<LanguageNegotiation>(raws) is Ok,
        0 <= k < raws.len(),
        trim(raws[k]) == raws[k],
    ensures
        ({
            let ks = parse_all::<LanguageNegotiation>(raws)->Ok_0;
            &&& ks.len() == raws.len()
            &&& LanguageNegotiation::entry_spec(raws[k]) is Ok
            &&& forall|j: int|
                0 <= j < ks.len() ==> (#[trigger] LanguageNegotiation::is_match_spec(
                    ks[j],
                    LanguageNegotiation::entry_spec(raws[k])->Ok_0.0,
                ) <==> ks[j] == ks[k])
        }),
{
    let ks = parse_all::<LanguageNegotiation>(raws)->Ok_0;
    lemma_parse_all_ok::<LanguageNegotiation>(raws);
    let raw = raws[k];
    assert(LanguageNegotiation::supported_spec(raw) == Ok::<(Seq<char>, Seq<char>), Error>(ks[k]));
    let d = find(raw, '-')->Some_0;
    crate::text::lemma_find_facts(raw, '-');
    assert(raw.len() > 0);
    lemma_split_without(raw, ';');
    let parts = split(raw, ';');
    assert(parts.subrange(1, parts.len() as int) =~= Seq::<Seq<char>>::empty());
    let key = (raw.subrange(0, d), MaybeWildcard::Specific(raw.subrange(d + 1, raw.len() as int)));
    assert(LanguageNegotiation::entry_spec(raw) == Ok::<
        ((Seq<char>, MaybeWildcard<Seq<char>>), QualityView),
        Error,
    >((key, quality_one())));
}

/// Where the header's entry `m` is the supported value `raws[k]`, written
/// as it was registered, and no other entry is satisfied by any supported
/// value, the chosen value is the first registered one that reads the same
/// as `raws[k]`.
proof fn lemma_verbatim_chosen<N: NegotiationType>(
    raws: Seq<Seq<char>>,
    k: int,
    header: Seq<char>,
    m: int,
)
    requires
        parse_all::<N>(raws) is Ok,
        0 <= k < raws.len(),
        parse_all::<N>(raws)->Ok_0.len() == raws.len(),
        0 <= m < split(header, ',').len(),
        split(header, ',')[m] == raws[k],
        header_entries::<N>(header) is Ok,
        N::entry_spec(raws[k]) is Ok,
        forall|j: int|
            0 <= j < raws.len() ==> (#[trigger] N::is_match_spec(
                parse_all::<N>(raws)->Ok_0[j],
                N::entry_spec(raws[k])->Ok_0.0,
            ) <==> parse_all::<N>(raws)->Ok_0[j] == parse_all::<N>(raws)->Ok_0[k]),
        forall|i: int|
            0 <= i < split(header, ',').len() && i != m ==> !matches_some::<N>(
                parse_all::<N>(raws)->Ok_0,
                (#[trigger] header_entries::<N>(header)->Ok_0[i]).0,
            ),
    ensures
        ({
            let ks = parse_all::<N>(raws)->Ok_0;
            negotiated::<N>(ks, header) matches Ok(Some(j)) && 0 <= j <= k && ks[j] == ks[k]
                && forall|i: int| 0 <= i < j ==> ks[i] != ks[k]
        }),
{
    let ks = parse_all::<N>(raws)->Ok_0;
    let es = header_entries::<N>(header)->Ok_0;
    lemma_entries_ok::<N>(split(header, ','));
    assert(es[m] == N::entry_spec(raws[k])->Ok_0);
    assert(N::is_match_spec(ks[k], es[m].0));
    assert(matches_some::<N>(ks, es[m].0));
    lemma_selection_facts::<N>(ks, es);
    let j = selection::<N>(ks, es)->Some_0;
    let i = choose|i: int| is_best_entry::<N>(ks, es, i) && is_first_match::<N>(ks, es[i].0, j);
    assert(i == m);
    assert(N::is_match_spec(ks[j], es[m].0));
    if j > k {
        assert(!N::is_match_spec(ks[k], es[m].0));
    }
    assert forall|i2: int| 0 <= i2 < j implies ks[i2] != ks[k] by {
        assert(!N::is_match_spec(ks[i2], es[m].0));
    }
}

/// A header that holds one of the supported media types, written as it was
/// registered, as one of its entries, where no other entry is satisfied by
/// any supported value, chooses that media type: the first registered value
/// that reads the same as it.
pub proof fn verbatim_supported_value_is_chosen(
    raws: Seq<Seq<char>>,
    k: int,
    header: Seq<char>,
    m: int,
)
    requires
        parse_all::<ContentTypeNegotiation>(raws) is Ok,
        0 <= k < raws.len(),
        0 <= m < split(header, ',').len(),
        split(header, ',')[m] == raws[k],
        header_entries::<ContentTypeNegotiation>(header) is Ok,
        forall|i: int|
            0 <= i < split(header, ',').len() && i != m ==> !matches_some::<ContentTypeNegotiation>(
                parse_all::<ContentTypeNegotiation>(raws)->Ok_0,
                (#[trigger] header_entries::<ContentTypeNegotiation>(header)->Ok_0[i]).0,
            ),
    ensures
        ({
            let ks = parse_all::<ContentTypeNegotiation>(raws)->Ok_0;
            negotiated::<ContentTypeNegotiation>(ks, header) matches Ok(Some(j)) && 0 <= j <= k
                && ks[j] == ks[k] && forall|i: int| 0 <= i < j ==> ks[i] != ks[k]
        }),
{
    lemma_media_verbatim_entry(raws, k);
    lemma_verbatim_chosen::<ContentTypeNegotiation>(raws, k, header, m);
}

/// The same for encodings: a header entry that is a supported encoding,
/// written as it was registered, where no other entry is satisfied, chooses
/// the first registered encoding equal to it. The encoding must be non-empty
/// and hold no surrounding white space, which a header entry loses.
pub proof fn verbatim_supported_encoding_is_chosen(
    raws: Seq<Seq<char>>,
    k: int,
    header: Seq<char>,
    m: int,
)
    requires
        parse_all::<EncodingNegotiation>(raws) is Ok,
        0 <= k < raws.len(),
        raws[k].len() > 0,
        trim(raws[k]) == raws[k],
        0 <= m < split(header, ',').len(),
        split(header, ',')[m] == raws[k],
        header_entries::<EncodingNegotiation>(header) is Ok,
        forall|i: int|
            0 <= i < split(header, ',').len() && i != m ==> !matches_some::<EncodingNegotiation>(
                parse_all::<EncodingNegotiation>(raws)->Ok_0,
                (#[trigger] header_entries::<EncodingNegotiation>(header)->Ok_0[i]).0,
            ),
    ensures
        ({
            let ks = parse_all::<EncodingNegotiation>(raws)->Ok_0;
            negotiated::<EncodingNegotiation>(ks, header) matches Ok(Some(j)) && 0 <= j <= k
                && ks[j] == ks[k] && forall|i: int| 0 <= i < j ==> ks[i] != ks[k]
        }),
{
    lemma_encoding_verbatim_entry(raws, k);
    lemma_verbatim_chosen::<EncodingNegotiation>(raws, k, header, m);
}

/// The same for languages: a header entry that is a supported language,
/// written as it was registered, where no other entry is satisfied, chooses
/// the first registered language that reads the same. The tag must hold no
/// surrounding white space, which a header entry loses.
pub proof fn verbatim_supported_language_is_chosen(
    raws: Seq<Seq<char>>,
    k: int,
    header: Seq<char>,
    m: int,
)
    requires
        parse_all::<LanguageNegotiation>(raws) is Ok,
        0 <= k < raws.len(),
        trim(raws[k]) == raws[k],
        0 <= m < split(header, ',').len(),
        split(header, ',')[m] == raws[k],
        header_entries::<LanguageNegotiation>(header) is Ok,
        forall|i: int|
            0 <= i < split(header, ',').len() && i != m ==> !matches_some::<LanguageNegotiation>(
                parse_all::<LanguageNegotiation>(raws)->Ok_0,
                (#[trigger] header_entries::<LanguageNegotiation>(header)->Ok_0[i]).0,
            ),
    ensures
        ({
            let ks = parse_all::<LanguageNegotiation>(raws)->Ok_0;
            negotiated::<LanguageNegotiation>(ks, header) matches Ok(Some(j)) && 0 <= j <= k
                && ks[j] == ks[k] && forall|i: int| 0 <= i < j ==> ks[i] != ks[k]
        }),
{
    lemma_language_verbatim_entry(raws, k);
    lemma_verbatim_chosen::<LanguageNegotiation>(raws, k, header, m);
}

/// Nothing is chosen exactly when no entry of a well-formed header is
/// satisfied by any supported value; in particular, nothing is chosen when
/// nothing is supported.
pub proof fn none_exactly_when_nothing_matches<N: NegotiationType>(
    sup: Seq<<N::Parsed as View>::V>,
    header: Seq<char>,
)
    requires
        header_entries::<N>(header) is Ok,
    ensures
        ({
            let es = header_entries::<N>(header)->Ok_0;
            (negotiated::<N>(sup, header) == Ok::<Option<int>, Error>(None)) <==> forall|i: int|
                0 <= i < es.len() ==> !matches_some::<N>(sup, (#[trigger] es[i]).0)
        }),
        sup.len() == 0 ==> negotiated::<N>(sup, header) == Ok::<Option<int>, Error>(None),
{
    let es = header_entries::<N>(header)->Ok_0;
    lemma_selection_facts::<N>(sup, es);
    if let Some(j) = selection::<N>(sup, es) {
        let i = choose|i: int| is_best_entry::<N>(sup, es, i) && is_first_match::<N>(sup, es[i].0, j);
        assert(matches_some::<N>(sup, es[i].0));
    }
}

/// The chosen value satisfies an entry whose quality is the highest among
/// the entries that some supported value satisfies.
pub proof fn highest_quality_wins<N: NegotiationType>(
    sup: Seq<<N::Parsed as View>::V>,
    header: Seq<char>,
)
    requires
        header_entries::<N>(header) is Ok,
    ensures
        ({
            let es = header_entries::<N>(header)->Ok_0;
            match negotiated::<N>(sup, header) {
                Ok(Some(j)) => exists|i: int|
                    0 <= i < es.len() && N::is_match_spec(sup[j], es[i].0) && forall|i2: int|
                        0 <= i2 < es.len() && matches_some::<N>(sup, (#[trigger] es[i2]).0)
                            ==> !quality_lt(es[i].1, es[i2].1),
                _ => true,
            }
        }),
{
    let es = header_entries::<N>(header)->Ok_0;
    lemma_selection_facts::<N>(sup, es);
    if let Some(j) = selection::<N>(sup, es) {
        let i = choose|i: int| is_best_entry::<N>(sup, es, i) && is_first_match::<N>(sup, es[i].0, j);
        assert forall|i2: int|
            0 <= i2 < es.len() && matches_some::<N>(sup, (#[trigger] es[i2]).0) implies !quality_lt(
            es[i].1,
            es[i2].1,
        ) by {
            lemma_quality_order(es[i].1, es[i2].1, es[i].1);
            if i2 != i {
                assert(crate::negotiator::precedes::<N>(es, i, i2));
            }
        }
    }
}

/// Among satisfied entries of equal quality, the chosen value satisfies
/// one that is at least as specific as any other, and among those of equal
/// specificity, one with at least as many parameters.
pub proof fn specificity_breaks_quality_ties<N: NegotiationType>(
    sup: Seq<<N::Parsed as View>::V>,
    header: Seq<char>,
)
    requires
        header_entries::<N>(header) is Ok,
    ensures
        ({
            let es = header_entries::<N>(header)->Ok_0;
            match negotiated::<N>(sup, header) {
                Ok(Some(j)) => exists|i: int|
                    0 <= i < es.len() && N::is_match_spec(sup[j], es[i].0) && forall|i2: int|
                        0 <= i2 < es.len() && matches_some::<N>(sup, (#[trigger] es[i2]).0)
                            && es[i2].1 == es[i].1 ==> {
                            let a = N::specificity_spec(es[i].0);
                            let b = N::specificity_spec(es[i2].0);
                            b.0 <= a.0 && (b.0 == a.0 ==> b.1 <= a.1)
                        },
                _ => true,
            }
        }),
{
    let es = header_entries::<N>(header)->Ok_0;
    lemma_selection_facts::<N>(sup, es);
    if let Some(j) = selection::<N>(sup, es) {
        let i = choose|i: int| is_best_entry::<N>(sup, es, i) && is_first_match::<N>(sup, es[i].0, j);
        assert forall|i2: int|
            0 <= i2 < es.len() && matches_some::<N>(sup, (#[trigger] es[i2]).0) && es[i2].1
                == es[i].1 implies ({
            let a = N::specificity_spec(es[i].0);
            let b = N::specificity_spec(es[i2].0);
            b.0 <= a.0 && (b.0 == a.0 ==> b.1 <= a.1)
        }) by {
            lemma_quality_order(es[i].1, es[i2].1, es[i].1);
            if i2 != i {
                assert(crate::negotiator::precedes::<N>(es, i, i2));
            }
        }
    }
}

/// Order breaks the remaining ties: among satisfied entries of equal
/// quality, specificity and parameters, the one written first in the
/// header wins; and of the supported values that satisfy it, the one
/// registered first is chosen.
pub proof fn header_then_registration_order<N: NegotiationType>(
    sup: Seq<<N::Parsed as View>::V>,
    header: Seq<char>,
)
    requires
        header_entries::<N>(header) is Ok,
    ensures
        ({
            let es = header_entries::<N>(header)->Ok_0;
            match negotiated::<N>(sup, header) {
                Ok(Some(j)) => exists|i: int|
                    0 <= i < es.len() && is_first_match::<N>(sup, es[i].0, j) && forall|i2: int|
                        0 <= i2 < es.len() && matches_some::<N>(sup, (#[trigger] es[i2]).0)
                            && crate::negotiator::priority::<N>(es[i2])
                            == crate::negotiator::priority::<N>(es[i]) ==> i <= i2,
                _ => true,
            }
        }),
{
    let es = header_entries::<N>(header)->Ok_0;
    lemma_selection_facts::<N>(sup, es);
    if let Some(j) = selection::<N>(sup, es) {
        let i = choose|i: int| is_best_entry::<N>(sup, es, i) && is_first_match::<N>(sup, es[i].0, j);
        assert forall|i2: int|
            0 <= i2 < es.len() && matches_some::<N>(sup, (#[trigger] es[i2]).0)
                && crate::negotiator::priority::<N>(es[i2]) == crate::negotiator::priority::<N>(
                es[i],
            ) implies i <= i2 by {
            lemma_quality_order(es[i].1, es[i2].1, es[i].1);
            if i2 != i {
                assert(crate::negotiator::precedes::<N>(es, i, i2));
            }
        }
    }
}

/// The media range `*/*`, as a header.
pub open spec fn any_media_type() -> Seq<char> {
    seq!['*', '/', '*']
}

/// A header of `*/*` alone chooses the first registered media type that has
/// no parameters: the full wildcard accepts every main type and subtype,
/// and matching asks for equal parameters.
pub proof fn full_wildcard_chooses_first_plain_type(sup: Seq<MediaTypeView>)
    ensures
        match negotiated::<ContentTypeNegotiation>(sup, any_media_type()) {
            Ok(Some(j)) => 0 <= j < sup.len() && sup[j].params == Map::<
                Seq<char>,
                Seq<char>,
            >::empty() && forall|i: int| 0 <= i < j ==> sup[i].params != Map::<
                Seq<char>,
                Seq<char>,
            >::empty(),
            Ok(None) => forall|i: int| 0 <= i < sup.len() ==> sup[i].params != Map::<
                Seq<char>,
                Seq<char>,
            >::empty(),
            Err(_) => false,
        },
{
    let h = any_media_type();
    let star = single('*');
    assert(!h.contains(',')) by {
        assert(h[0] == '*' && h[1] == '/' && h[2] == '*');
    }
    assert(!h.contains(';')) by {
        assert(h[0] == '*' && h[1] == '/' && h[2] == '*');
    }
    lemma_split_without(h, ';');
    assert(!is_space('*'));
    lemma_trim_plain(h);
    lemma_find_first(h, '/', 1);
    assert(h.subrange(0, 1) =~= star);
    assert(h.subrange(2, 3) =~= star);
    assert(!star.contains('/')) by {
        assert(star[0] == '*');
    }
    let parts = split(h, ';');
    assert(parts.subrange(1, parts.len() as int) =~= Seq::<Seq<char>>::empty());
    let no_pairs = Seq::<(Seq<char>, Seq<char>)>::empty();
    assert(Seq::<Seq<char>>::empty().map_values(
        |p: Seq<char>| crate::content_type::split_at_first(trim(p), '='),
    ) =~= no_pairs);
    assert(to_map(no_pairs) == Map::<Seq<char>, Seq<char>>::empty());
    let m = MediaTypeView { main: star, sub: star, params: Map::empty() };
    assert(mime_spec(h, true) == Ok::<MediaTypeView, Error>(m));
    let key = MediaRangeView {
        main: MaybeWildcard::Wildcard,
        sub: MaybeWildcard::Wildcard,
        params: Map::empty(),
    };
    assert(Map::<Seq<char>, Seq<char>>::empty().remove(single('q')) =~= Map::empty());
    assert(ContentTypeNegotiation::entry_spec(h) == Ok::<(MediaRangeView, QualityView), Error>(
        (key, quality_one()),
    ));
    lemma_single_entry::<ContentTypeNegotiation>(h);
    lemma_selection_single::<ContentTypeNegotiation>(sup, (key, quality_one()));
}

/// A header of `*` alone chooses the first registered encoding, and none
/// where none is registered.
pub proof fn encoding_wildcard_chooses_first(sup: Seq<Seq<char>>)
    ensures
        negotiated::<EncodingNegotiation>(sup, single('*')) == Ok::<Option<int>, Error>(
            if sup.len() > 0 {
                Some(0)
            } else {
                None
            },
        ),
{
    let h = single('*');
    assert(!h.contains(',') && !h.contains(';')) by {
        assert(h[0] == '*');
    }
    lemma_split_without(h, ';');
    assert(!is_space('*'));
    lemma_trim_plain(h);
    let parts = split(h, ';');
    assert(parts.subrange(1, parts.len() as int) =~= Seq::<Seq<char>>::empty());
    assert(EncodingNegotiation::entry_spec(h) == Ok::<(MaybeWildcard<Seq<char>>, QualityView), Error>(
        (MaybeWildcard::Wildcard, quality_one()),
    ));
    lemma_single_entry::<EncodingNegotiation>(h);
    lemma_selection_single::<EncodingNegotiation>(sup, (MaybeWildcard::Wildcard, quality_one()));
    if sup.len() > 0 {
        assert(EncodingNegotiation::is_match_spec(sup[0], MaybeWildcard::Wildcard));
    }
}

/// Negotiation is a function of the supported list and the header alone:
/// two negotiators built from equal lists (a list and its clone, where
/// cloning keeps each value, as it does for `&str` and `String`) hold the
/// same values and give the same outcome for the same header, however often
/// it is asked.
pub proof fn negotiation_is_repeatable<N: NegotiationType, T: AsNegotiationStr>(
    items: Seq<T>,
    a: Negotiator<N, T>,
    b: Negotiator<N, T>,
    header: Seq<char>,
)
    requires
        parse_all::<N>(negotiation_strs(items)) == Ok::<Seq<<N::Parsed as View>::V>, Error>(
            a.keys(),
        ),
        parse_all::<N>(negotiation_strs(items)) == Ok::<Seq<<N::Parsed as View>::V>, Error>(
            b.keys(),
        ),
        a.values() == items,
        b.values() == items,
    ensures
        a.keys() == b.keys(),
        a.values() == b.values(),
        negotiated::<N>(a.keys(), header) == negotiated::<N>(b.keys(), header),
{
}

/// The header `text`, as a sequence.
pub open spec fn text_header() -> Seq<char> {
    seq!['t', 'e', 'x', 't']
}

/// A media type header without `/` fails with `MissingSeparator('/')`,
/// whatever is supported.
pub proof fn header_without_slash_fails(sup: Seq<MediaTypeView>)
    ensures
        negotiated::<ContentTypeNegotiation>(sup, text_header()) == Err::<Option<int>, Error>(
            Error::MissingSeparator('/'),
        ),
{
    let h = text_header();
    assert(h[0] == 't' && h[1] == 'e' && h[2] == 'x' && h[3] == 't');
    assert(!h.contains(',') && !h.contains(';'));
    lemma_split_without(h, ';');
    assert(!is_space('t'));
    lemma_trim_plain(h);
    lemma_find_none(h, '/');
    assert(mime_spec(h, true) == Err::<MediaTypeView, Error>(Error::MissingSeparator('/')));
    lemma_single_entry::<ContentTypeNegotiation>(h);
}

/// The header `text/html;q=abc`, as a sequence.
pub open spec fn unreadable_quality_header() -> Seq<char> {
    seq!['t', 'e', 'x', 't', '/', 'h', 't', 'm', 'l', ';', 'q', '=', 'a', 'b', 'c']
}

/// A media type header whose `q` is not a quality value fails with
/// `InvalidQuality`, whatever is supported.
pub proof fn unreadable_quality_fails(sup: Seq<MediaTypeView>)
    ensures
        negotiated::<ContentTypeNegotiation>(sup, unreadable_quality_header()) == Err::<
            Option<int>,
            Error,
        >(Error::InvalidQuality),
{
    let h = unreadable_quality_header();
    assert(h[0] == 't' && h[1] == 'e' && h[2] == 'x' && h[3] == 't' && h[4] == '/' && h[5] == 'h'
        && h[6] == 't' && h[7] == 'm' && h[8] == 'l' && h[9] == ';' && h[10] == 'q' && h[11] == '='
        && h[12] == 'a' && h[13] == 'b' && h[14] == 'c');
    assert(!h.contains(','));
    lemma_split_once(h, ';', 9);
    let value = h.subrange(0, 9);
    let param = h.subrange(10, 15);
    assert(!is_space('t') && !is_space('l') && !is_space('q') && !is_space('c'));
    lemma_trim_plain(value);
    lemma_trim_plain(param);
    lemma_find_first(value, '/', 4);
    let main = value.subrange(0, 4);
    let sub = value.subrange(5, 9);
    assert(!sub.contains('/')) by {
        assert(sub[0] == 'h' && sub[1] == 't' && sub[2] == 'm' && sub[3] == 'l');
    }
    assert(main != single('*')) by {
        assert(main.len() == 4);
    }
    lemma_find_first(param, '=', 1);
    let key = param.subrange(0, 1);
    let q = param.subrange(2, 5);
    assert(key =~= single('q'));
    let parts = split(h, ';');
    let rest = parts.subrange(1, parts.len() as int);
    assert(rest =~= seq![param]);
    let pairs = seq![(key, q)];
    assert(rest.map_values(|p: Seq<char>| crate::content_type::split_at_first(trim(p), '='))
        =~= pairs);
    assert(to_map(pairs.drop_last()) == Map::<Seq<char>, Seq<char>>::empty()) by {
        assert(pairs.drop_last() =~= Seq::<(Seq<char>, Seq<char>)>::empty());
    }
    let params = to_map(pairs);
    assert(params.contains_key(single('q')) && params[single('q')] == q);
    assert(q[0] == 'a' && q[1] == 'b' && q[2] == 'c' && q.len() == 3);
    let lq = crate::quality::lower_e(q);
    assert(lq[0] == 'a' && lq[1] == 'b' && lq[2] == 'c');
    lemma_find_none(lq, 'e');
    lemma_find_none(q, '.');
    assert(!crate::text::is_digit(q[0]));
    assert(!crate::quality::same_word(q, crate::quality::word_inf()));
    assert(!crate::quality::same_word(q, crate::quality::word_nan()));
    assert(quality_value(q) is None);
    assert(mime_spec(h, true) == Ok::<MediaTypeView, Error>(
        MediaTypeView { main, sub, params },
    ));
    assert(ContentTypeNegotiation::entry_spec(h) == Err::<(MediaRangeView, QualityView), Error>(
        Error::InvalidQuality,
    ));
    lemma_single_entry::<ContentTypeNegotiation>(h);
}

} // verus!

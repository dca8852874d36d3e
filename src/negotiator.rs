//! The negotiation engine shared by every kind: splitting a header into
//! entries, ordering them by preference, and choosing the supported value
//! that the most preferred matching entry accepts.
use vstd::prelude::*;
use crate::error::Error;
use crate::quality::{Quality, QualityView, quality_lt, quality_less, quality_equal, lemma_quality_order};
use crate::text::{split, pieces, ranges_within, chars_of, split_ranges};
use vstd::string::*;

verus! {

/// A value that names a representation by a header element string.
pub trait AsNegotiationStr {
    /// The header element string of this value.
    spec fn negotiation_str(&self) -> Seq<char>;

    fn as_str(&self) -> (r: &str)
        ensures
            r@ == self.negotiation_str(),
    ;
}

impl<'a> AsNegotiationStr for &'a str {
    open spec fn negotiation_str(&self) -> Seq<char> {
        (*self)@
    }

    fn as_str(&self) -> (r: &str) {
        *self
    }
}

impl AsNegotiationStr for String {
    open spec fn negotiation_str(&self) -> Seq<char> {
        self@
    }

    fn as_str(&self) -> (r: &str) {
        self.as_str()
    }
}

/// One entry of a header: what it asks for, and its quality.
#[derive(Clone, Debug, PartialEq)]
pub struct HeaderEntry<K> {
    pub key: K,
    pub quality: Quality,
}

impl<K: View> View for HeaderEntry<K> {
    type V = (K::V, QualityView);

    open spec fn view(&self) -> (K::V, QualityView) {
        (self.key@, self.quality@)
    }
}

/// One kind of negotiation (media type, encoding or language): how a
/// supported value and a header entry are read, when they match, and how
/// specific an entry is.
pub trait NegotiationType {
    /// A supported value, as read.
    type Parsed: View;
    /// A header entry's key, as read.
    type Entry: View;

    /// What reading a supported value gives.
    spec fn supported_spec(raw: Seq<char>) -> Result<<Self::Parsed as View>::V, Error>;

    /// What reading one comma-separated header entry gives: its key and quality.
    spec fn entry_spec(raw: Seq<char>) -> Result<(<Self::Entry as View>::V, QualityView), Error>;

    /// Whether a supported value satisfies a header entry.
    spec fn is_match_spec(
        supported: <Self::Parsed as View>::V,
        entry: <Self::Entry as View>::V,
    ) -> bool;

    /// How specific an entry is, then how many parameters it holds: higher
    /// numbers win among entries of equal quality.
    spec fn specificity_spec(entry: <Self::Entry as View>::V) -> (int, int);

    /// The representation invariant of a read supported value.
    spec fn parsed_wf(p: &Self::Parsed) -> bool;

    /// The representation invariant of a read header entry.
    spec fn entry_wf(e: &Self::Entry) -> bool;

    /// Reads a supported value, refusing wildcards and qualities.
    fn parse_elem(raw: &str) -> (r: Result<Self::Parsed, Error>)
        ensures
            match r {
                Ok(p) => Self::supported_spec(raw@) == Ok::<<Self::Parsed as View>::V, Error>(p@)
                    && Self::parsed_wf(&p),
                Err(e) => Self::supported_spec(raw@) == Err::<<Self::Parsed as View>::V, Error>(
                    e,
                ),
            },
    ;

    /// Reads one comma-separated entry of a header.
    fn parse_entry(raw: &str) -> (r: Result<HeaderEntry<Self::Entry>, Error>)
        ensures
            match r {
                Ok(e) => Self::entry_spec(raw@) == Ok::<(<Self::Entry as View>::V, QualityView), Error>(
                    e@,
                ) && Self::entry_wf(&e.key),
                Err(e) => Self::entry_spec(raw@) == Err::<
                    (<Self::Entry as View>::V, QualityView),
                    Error,
                >(e),
            },
    ;

    /// Whether `supported` satisfies `entry`.
    fn is_match(supported: &Self::Parsed, entry: &Self::Entry) -> (r: bool)
        requires
            Self::parsed_wf(supported),
            Self::entry_wf(entry),
        ensures
            r == Self::is_match_spec(supported@, entry@),
    ;

    /// How specific `entry` is, then how many parameters it holds.
    fn specificity(entry: &Self::Entry) -> (r: (u8, usize))
        requires
            Self::entry_wf(entry),
        ensures
            r.0 as int == Self::specificity_spec(entry@).0,
            r.1 as int == Self::specificity_spec(entry@).1,
    ;
}

/// The views of the read supported values.
pub open spec fn keys_view<N: NegotiationType>(ps: Seq<N::Parsed>) -> Seq<<N::Parsed as View>::V> {
    ps.map_values(|p: N::Parsed| p@)
}

/// The views of header entries.
pub open spec fn entries_view<N: NegotiationType>(es: Seq<HeaderEntry<N::Entry>>) -> Seq<
    (<N::Entry as View>::V, QualityView),
> {
    es.map_values(|e: HeaderEntry<N::Entry>| e@)
}

/// Reading each of `raws` in turn: the first failure, or all the values.
pub open spec fn parse_all<N: NegotiationType>(raws: Seq<Seq<char>>) -> Result<
    Seq<<N::Parsed as View>::V>,
    Error,
>
    decreases raws.len(),
{
    if raws.len() == 0 {
        Ok(Seq::empty())
    } else {
        match parse_all::<N>(raws.drop_last()) {
            Err(e) => Err(e),
            Ok(ks) => match N::supported_spec(raws.last()) {
                Err(e) => Err(e),
                Ok(k) => Ok(ks.push(k)),
            },
        }
    }
}

/// Reading each header entry in turn: the first failure, or all the entries.
pub open spec fn parse_entries_spec<N: NegotiationType>(raws: Seq<Seq<char>>) -> Result<
    Seq<(<N::Entry as View>::V, QualityView)>,
    Error,
>
    decreases raws.len(),
{
    if raws.len() == 0 {
        Ok(Seq::empty())
    } else {
        match parse_entries_spec::<N>(raws.drop_last()) {
            Err(e) => Err(e),
            Ok(es) => match N::entry_spec(raws.last()) {
                Err(e) => Err(e),
                Ok(x) => Ok(es.push(x)),
            },
        }
    }
}

/// The entries of a header, in the order the header writes them.
pub open spec fn header_entries<N: NegotiationType>(header: Seq<char>) -> Result<
    Seq<(<N::Entry as View>::V, QualityView)>,
    Error,
> {
    parse_entries_spec::<N>(split(header, ','))
}

/// The preference of an entry: quality, then specificity, then parameters.
pub open spec fn priority<N: NegotiationType>(e: (<N::Entry as View>::V, QualityView)) -> (
    QualityView,
    int,
    int,
) {
    let s = N::specificity_spec(e.0);
    (e.1, s.0, s.1)
}

/// Lexicographic order on preferences: `a` is strictly preferred to `b`.
/// Qualities compare as `f32::total_cmp` orders floats.
pub open spec fn outranks(a: (QualityView, int, int), b: (QualityView, int, int)) -> bool {
    quality_lt(b.0, a.0) || (a.0 == b.0 && (a.1 > b.1 || (a.1 == b.1 && a.2 > b.2)))
}

/// Entry `i` of `es` comes before entry `j`: it is preferred, or it is as
/// preferred and written earlier.
pub open spec fn precedes<N: NegotiationType>(
    es: Seq<(<N::Entry as View>::V, QualityView)>,
    i: int,
    j: int,
) -> bool {
    outranks(priority::<N>(es[i]), priority::<N>(es[j])) || (priority::<N>(es[i])
        == priority::<N>(es[j]) && i < j)
}

/// `order` lists every position of `es` once, most preferred first.
pub open spec fn sorted_by_preference<N: NegotiationType>(
    es: Seq<(<N::Entry as View>::V, QualityView)>,
    order: Seq<int>,
) -> bool {
    &&& order.len() == es.len()
    &&& forall|p: int| 0 <= p < order.len() ==> 0 <= #[trigger] order[p] < es.len()
    &&& forall|i: int| 0 <= i < es.len() ==> order.contains(i)
    &&& forall|p: int, q: int|
        0 <= p < q < order.len() ==> precedes::<N>(es, #[trigger] order[p], #[trigger] order[q])
}

/// Some supported value satisfies `entry`.
pub open spec fn matches_some<N: NegotiationType>(
    sup: Seq<<N::Parsed as View>::V>,
    entry: <N::Entry as View>::V,
) -> bool {
    exists|k: int| 0 <= k < sup.len() && N::is_match_spec(#[trigger] sup[k], entry)
}

/// `k` is the first supported value that satisfies `entry`.
pub open spec fn is_first_match<N: NegotiationType>(
    sup: Seq<<N::Parsed as View>::V>,
    entry: <N::Entry as View>::V,
    k: int,
) -> bool {
    &&& 0 <= k < sup.len()
    &&& N::is_match_spec(sup[k], entry)
    &&& forall|j: int| 0 <= j < k ==> !N::is_match_spec(#[trigger] sup[j], entry)
}

/// Entry `i` is satisfied by some supported value, and comes before every
/// other entry that is.
pub open spec fn is_best_entry<N: NegotiationType>(
    sup: Seq<<N::Parsed as View>::V>,
    es: Seq<(<N::Entry as View>::V, QualityView)>,
    i: int,
) -> bool {
    &&& 0 <= i < es.len()
    &&& matches_some::<N>(sup, es[i].0)
    &&& forall|j: int|
        0 <= j < es.len() && j != i && matches_some::<N>(sup, (#[trigger] es[j]).0)
            ==> precedes::<N>(es, i, j)
}

/// The supported value chosen for the entries `es`: the first one that
/// satisfies the best entry; none where no entry is satisfied.
pub open spec fn selection<N: NegotiationType>(
    sup: Seq<<N::Parsed as View>::V>,
    es: Seq<(<N::Entry as View>::V, QualityView)>,
) -> Option<int> {
    if exists|i: int| is_best_entry::<N>(sup, es, i) {
        let i = choose|i: int| is_best_entry::<N>(sup, es, i);
        Some(choose|k: int| is_first_match::<N>(sup, es[i].0, k))
    } else {
        None
    }
}

/// The outcome of negotiating `header` against the supported values `sup`:
/// the header's error, or the position of the chosen value.
pub open spec fn negotiated<N: NegotiationType>(
    sup: Seq<<N::Parsed as View>::V>,
    header: Seq<char>,
) -> Result<Option<int>, Error> {
    match header_entries::<N>(header) {
        Ok(es) => Ok(selection::<N>(sup, es)),
        Err(e) => Err(e),
    }
}

/// Preference is a strict order on positions: no two positions precede each
/// other.
pub proof fn lemma_precedes_asymmetric<N: NegotiationType>(
    es: Seq<(<N::Entry as View>::V, QualityView)>,
    i: int,
    j: int,
)
    ensures
        !(precedes::<N>(es, i, j) && precedes::<N>(es, j, i)),
{
    lemma_quality_order(es[i].1, es[j].1, es[i].1);
}

/// Preference is transitive.
pub proof fn lemma_precedes_transitive<N: NegotiationType>(
    es: Seq<(<N::Entry as View>::V, QualityView)>,
    a: int,
    b: int,
    c: int,
)
    requires
        precedes::<N>(es, a, b),
        precedes::<N>(es, b, c),
    ensures
        precedes::<N>(es, a, c),
{
    lemma_quality_order(es[a].1, es[b].1, es[c].1);
    lemma_quality_order(es[c].1, es[b].1, es[a].1);
    lemma_quality_order(es[a].1, es[c].1, es[b].1);
}

/// Of two distinct positions, one precedes the other.
pub proof fn lemma_precedes_total<N: NegotiationType>(
    es: Seq<(<N::Entry as View>::V, QualityView)>,
    a: int,
    b: int,
)
    requires
        a != b,
    ensures
        precedes::<N>(es, a, b) || precedes::<N>(es, b, a),
{
    lemma_quality_order(es[a].1, es[b].1, es[a].1);
}

/// Among the first `n` entries, `c` is satisfied and comes before every
/// other satisfied one.
pub open spec fn is_best_before<N: NegotiationType>(
    sup: Seq<<N::Parsed as View>::V>,
    es: Seq<(<N::Entry as View>::V, QualityView)>,
    c: int,
    n: int,
) -> bool {
    &&& 0 <= c < n
    &&& matches_some::<N>(sup, es[c].0)
    &&& forall|j: int|
        0 <= j < n && j != c && matches_some::<N>(sup, (#[trigger] es[j]).0) ==> precedes::<N>(
            es,
            c,
            j,
        )
}

proof fn lemma_best_before_exists<N: NegotiationType>(
    sup: Seq<<N::Parsed as View>::V>,
    es: Seq<(<N::Entry as View>::V, QualityView)>,
    n: int,
)
    requires
        1 <= n <= es.len(),
        exists|i: int| 0 <= i < n && matches_some::<N>(sup, (#[trigger] es[i]).0),
    ensures
        exists|c: int| is_best_before::<N>(sup, es, c, n),
    decreases n,
{
    let last = n - 1;
    if exists|i: int| 0 <= i < last && matches_some::<N>(sup, (#[trigger] es[i]).0) {
        lemma_best_before_exists::<N>(sup, es, last);
        let c = choose|c: int| is_best_before::<N>(sup, es, c, last);
        if matches_some::<N>(sup, es[last].0) && precedes::<N>(es, last, c) {
            assert forall|j: int|
                0 <= j < n && j != last && matches_some::<N>(sup, (#[trigger] es[j]).0)
                implies precedes::<N>(es, last, j) by {
                if j != c {
                    lemma_precedes_transitive::<N>(es, last, c, j);
                }
            }
            assert(is_best_before::<N>(sup, es, last, n));
        } else {
            if matches_some::<N>(sup, es[last].0) {
                lemma_precedes_total::<N>(es, last, c);
            }
            assert(is_best_before::<N>(sup, es, c, n));
        }
    } else {
        let i = choose|i: int| 0 <= i < n && matches_some::<N>(sup, (#[trigger] es[i]).0);
        assert(i == last);
        assert(is_best_before::<N>(sup, es, last, n));
    }
}

/// Where some entry is satisfied, a best entry exists.
pub proof fn lemma_best_exists<N: NegotiationType>(
    sup: Seq<<N::Parsed as View>::V>,
    es: Seq<(<N::Entry as View>::V, QualityView)>,
    i: int,
)
    requires
        0 <= i < es.len(),
        matches_some::<N>(sup, es[i].0),
    ensures
        exists|b: int| is_best_entry::<N>(sup, es, b),
{
    lemma_best_before_exists::<N>(sup, es, es.len() as int);
    let c = choose|c: int| is_best_before::<N>(sup, es, c, es.len() as int);
    assert(is_best_entry::<N>(sup, es, c));
}

/// What the selection is: the first supported value that satisfies the
/// best entry, or none exactly when no entry is satisfied.
pub proof fn lemma_selection_facts<N: NegotiationType>(
    sup: Seq<<N::Parsed as View>::V>,
    es: Seq<(<N::Entry as View>::V, QualityView)>,
)
    ensures
        match selection::<N>(sup, es) {
            Some(j) => exists|i: int|
                is_best_entry::<N>(sup, es, i) && is_first_match::<N>(sup, es[i].0, j),
            None => forall|i: int| 0 <= i < es.len() ==> !matches_some::<N>(sup, (#[trigger] es[i]).0),
        },
{
    if exists|i: int| 0 <= i < es.len() && matches_some::<N>(sup, (#[trigger] es[i]).0) {
        let i0 = choose|i: int| 0 <= i < es.len() && matches_some::<N>(sup, (#[trigger] es[i]).0);
        lemma_best_exists::<N>(sup, es, i0);
        let b = choose|b: int| is_best_entry::<N>(sup, es, b);
        let k = choose|k: int| 0 <= k < sup.len() && N::is_match_spec(#[trigger] sup[k], es[b].0);
        lemma_first_match_exists::<N>(sup, es[b].0, k);
        assert(selection::<N>(sup, es) is Some);
    } else {
        assert forall|i: int| !is_best_entry::<N>(sup, es, i) by {}
    }
}

/// At most one entry is the best.
pub proof fn lemma_best_unique<N: NegotiationType>(
    sup: Seq<<N::Parsed as View>::V>,
    es: Seq<(<N::Entry as View>::V, QualityView)>,
    i: int,
    j: int,
)
    requires
        is_best_entry::<N>(sup, es, i),
        is_best_entry::<N>(sup, es, j),
    ensures
        i == j,
{
    if i != j {
        lemma_precedes_asymmetric::<N>(es, i, j);
    }
}

/// Once a prefix of the entries fails to read, reading all of them fails
/// the same way.
pub proof fn lemma_entries_first_error<N: NegotiationType>(raws: Seq<Seq<char>>, n: int)
    requires
        0 <= n <= raws.len(),
        parse_entries_spec::<N>(raws.take(n)) is Err,
    ensures
        parse_entries_spec::<N>(raws) == parse_entries_spec::<N>(raws.take(n)),
    decreases raws.len(),
{
    if n == raws.len() {
        assert(raws.take(n) =~= raws);
    } else {
        assert(raws.drop_last().take(n) =~= raws.take(n));
        lemma_entries_first_error::<N>(raws.drop_last(), n);
    }
}

/// Once a prefix of the supported values fails to read, reading all of them
/// fails the same way.
pub proof fn lemma_parse_all_first_error<N: NegotiationType>(raws: Seq<Seq<char>>, n: int)
    requires
        0 <= n <= raws.len(),
        parse_all::<N>(raws.take(n)) is Err,
    ensures
        parse_all::<N>(raws) == parse_all::<N>(raws.take(n)),
    decreases raws.len(),
{
    if n == raws.len() {
        assert(raws.take(n) =~= raws);
    } else {
        assert(raws.drop_last().take(n) =~= raws.take(n));
        lemma_parse_all_first_error::<N>(raws.drop_last(), n);
    }
}

/// Reading a list of supported values that succeeds reads each of them.
pub proof fn lemma_parse_all_ok<N: NegotiationType>(raws: Seq<Seq<char>>)
    requires
        parse_all::<N>(raws) is Ok,
    ensures
        parse_all::<N>(raws)->Ok_0.len() == raws.len(),
        forall|i: int|
            0 <= i < raws.len() ==> N::supported_spec(#[trigger] raws[i]) == Ok::<
                <N::Parsed as View>::V,
                Error,
            >(parse_all::<N>(raws)->Ok_0[i]),
    decreases raws.len(),
{
    if raws.len() > 0 {
        lemma_parse_all_ok::<N>(raws.drop_last());
        let ks = parse_all::<N>(raws)->Ok_0;
        assert forall|i: int| 0 <= i < raws.len() implies N::supported_spec(#[trigger] raws[i]) == Ok::<
            <N::Parsed as View>::V,
            Error,
        >(ks[i]) by {
            if i < raws.len() - 1 {
                assert(raws[i] == raws.drop_last()[i]);
            }
        }
    }
}

/// Reading header entries that succeeds reads each of them.
pub proof fn lemma_entries_ok<N: NegotiationType>(raws: Seq<Seq<char>>)
    requires
        parse_entries_spec::<N>(raws) is Ok,
    ensures
        parse_entries_spec::<N>(raws)->Ok_0.len() == raws.len(),
        forall|i: int|
            0 <= i < raws.len() ==> N::entry_spec(#[trigger] raws[i]) == Ok::<
                (<N::Entry as View>::V, QualityView),
                Error,
            >(parse_entries_spec::<N>(raws)->Ok_0[i]),
    decreases raws.len(),
{
    if raws.len() > 0 {
        lemma_entries_ok::<N>(raws.drop_last());
        let es = parse_entries_spec::<N>(raws)->Ok_0;
        assert forall|i: int| 0 <= i < raws.len() implies N::entry_spec(#[trigger] raws[i]) == Ok::<
            (<N::Entry as View>::V, QualityView),
            Error,
        >(es[i]) by {
            if i < raws.len() - 1 {
                assert(raws[i] == raws.drop_last()[i]);
            }
        }
    }
}

/// Where some supported value satisfies `entry`, a first one does.
pub proof fn lemma_first_match_exists<N: NegotiationType>(
    sup: Seq<<N::Parsed as View>::V>,
    entry: <N::Entry as View>::V,
    k: int,
)
    requires
        0 <= k < sup.len(),
        N::is_match_spec(sup[k], entry),
    ensures
        exists|j: int| 0 <= j <= k && is_first_match::<N>(sup, entry, j),
    decreases k,
{
    if exists|j: int| 0 <= j < k && N::is_match_spec(#[trigger] sup[j], entry) {
        let j = choose|j: int| 0 <= j < k && N::is_match_spec(#[trigger] sup[j], entry);
        lemma_first_match_exists::<N>(sup, entry, j);
    } else {
        assert(is_first_match::<N>(sup, entry, k));
    }
}

/// With a single entry, the chosen value is the first that satisfies it.
pub proof fn lemma_selection_single<N: NegotiationType>(
    sup: Seq<<N::Parsed as View>::V>,
    e: (<N::Entry as View>::V, QualityView),
)
    ensures
        match selection::<N>(sup, seq![e]) {
            Some(j) => is_first_match::<N>(sup, e.0, j),
            None => !matches_some::<N>(sup, e.0),
        },
{
    let es = seq![e];
    if matches_some::<N>(sup, e.0) {
        let k = choose|k: int| 0 <= k < sup.len() && N::is_match_spec(#[trigger] sup[k], e.0);
        lemma_first_match_exists::<N>(sup, e.0, k);
        assert(is_best_entry::<N>(sup, es, 0));
    } else {
        assert forall|i: int| !is_best_entry::<N>(sup, es, i) by {
            if 0 <= i < es.len() {
                assert(es[i] == e);
            }
        }
    }
}

/// A header without a comma is a single entry.
pub proof fn lemma_single_entry<N: NegotiationType>(header: Seq<char>)
    requires
        !header.contains(','),
    ensures
        header_entries::<N>(header) == match N::entry_spec(header) {
            Ok(e) => Ok(seq![e]),
            Err(e) => Err::<Seq<(<N::Entry as View>::V, QualityView)>, Error>(e),
        },
{
    crate::text::lemma_split_without(header, ',');
    let raws = seq![header];
    assert(raws.drop_last() =~= Seq::<Seq<char>>::empty());
    assert(raws.last() == header);
    assert(parse_entries_spec::<N>(raws.drop_last()) == Ok::<
        Seq<(<N::Entry as View>::V, QualityView)>,
        Error,
    >(Seq::empty()));
    assert(header_entries::<N>(header) == parse_entries_spec::<N>(raws));
    match N::entry_spec(header) {
        Ok(e) => {
            assert(Seq::<(<N::Entry as View>::V, QualityView)>::empty().push(e) =~= seq![e]);
        },
        Err(_) => {},
    }
}

/// Reads every comma-separated entry of `header`, in order.
pub fn parse_entries<N: NegotiationType>(header: &str) -> (r: Result<
    Vec<HeaderEntry<N::Entry>>,
    Error,
>)
    ensures
        match r {
            Ok(v) => header_entries::<N>(header@) == Ok::<
                Seq<(<N::Entry as View>::V, QualityView)>,
                Error,
            >(entries_view::<N>(v@)) && forall|i: int|
                0 <= i < v@.len() ==> N::entry_wf(&(#[trigger] v@[i]).key),
            Err(e) => header_entries::<N>(header@) == Err::<
                Seq<(<N::Entry as View>::V, QualityView)>,
                Error,
            >(e),
        },
{
    let cs = chars_of(header);
    let ranges = split_ranges(&cs, 0, cs.len(), ',');
    let ghost raws = split(header@, ',');
    assert(cs@.subrange(0, cs@.len() as int) =~= header@);
    let mut out: Vec<HeaderEntry<N::Entry>> = Vec::new();
    let mut i: usize = 0;
    assert(raws.take(0) =~= Seq::<Seq<char>>::empty());
    assert(entries_view::<N>(out@) =~= Seq::empty());
    while i < ranges.len()
        invariant
            i <= ranges@.len(),
            cs@ == header@,
            ranges_within(ranges@, 0, cs@.len() as int),
            pieces(cs@, ranges@) == raws,
            raws == split(header@, ','),
            parse_entries_spec::<N>(raws.take(i as int)) == Ok::<
                Seq<(<N::Entry as View>::V, QualityView)>,
                Error,
            >(entries_view::<N>(out@)),
            forall|j: int| 0 <= j < out@.len() ==> N::entry_wf(&(#[trigger] out@[j]).key),
        decreases ranges@.len() - i,
    {
        let (a, b) = ranges[i];
        assert(ranges_within(ranges@, 0, cs@.len() as int));
        assert(0 <= a <= b <= cs@.len()) by {
            assert(ranges@[i as int] == (a, b));
        }
        let piece = header.substring_char(a, b);
        assert(raws.take(i + 1).drop_last() =~= raws.take(i as int));
        assert(raws.take(i + 1).last() == piece@);
        let ghost before = out@;
        match N::parse_entry(piece) {
            Ok(e) => {
                out.push(e);
                assert(entries_view::<N>(out@) =~= entries_view::<N>(before).push(out@.last()@));
            },
            Err(e) => {
                proof {
                    lemma_entries_first_error::<N>(raws, i + 1);
                }
                return Err(e);
            },
        }
        i = i + 1;
    }
    assert(raws.take(ranges@.len() as int) =~= raws);
    Ok(out)
}

/// Whether entry `a` is strictly preferred to entry `b`.
fn outranks_exec<N: NegotiationType>(a: &HeaderEntry<N::Entry>, b: &HeaderEntry<N::Entry>) -> (r:
    bool)
    requires
        N::entry_wf(&a.key),
        N::entry_wf(&b.key),
    ensures
        r == outranks(priority::<N>(a@), priority::<N>(b@)),
{
    let (sa, na) = N::specificity(&a.key);
    let (sb, nb) = N::specificity(&b.key);
    quality_less(&b.quality, &a.quality) || (quality_equal(&a.quality, &b.quality) && (sa > sb || (
    sa == sb && na > nb)))
}

/// Puts `entries` in order of preference; entries of equal preference keep
/// the order of the header. The ghost result gives, for each position of the
/// result, where the entry stood in `entries`.
fn sort_by_preference<N: NegotiationType>(entries: Vec<HeaderEntry<N::Entry>>) -> (r: (
    Vec<HeaderEntry<N::Entry>>,
    Ghost<Seq<int>>,
))
    requires
        forall|i: int| 0 <= i < entries@.len() ==> N::entry_wf(&(#[trigger] entries@[i]).key),
    ensures
        sorted_by_preference::<N>(entries_view::<N>(entries@), r.1@),
        r.0@.len() == entries@.len(),
        forall|p: int| 0 <= p < r.0@.len() ==> #[trigger] r.0@[p] == entries@[r.1@[p]],
{
    let ghost orig = entries@;
    let ghost es = entries_view::<N>(orig);
    let mut rest = entries;
    let mut sorted: Vec<HeaderEntry<N::Entry>> = Vec::new();
    let ghost mut order: Seq<int> = Seq::empty();
    while rest.len() > 0
        invariant
            rest@ == orig.take(rest@.len() as int),
            rest@.len() <= orig.len(),
            es == entries_view::<N>(orig),
            forall|i: int| 0 <= i < orig.len() ==> N::entry_wf(&(#[trigger] orig[i]).key),
            sorted@.len() == order.len(),
            order.len() + rest@.len() == orig.len(),
            forall|p: int|
                0 <= p < order.len() ==> rest@.len() <= #[trigger] order[p] < orig.len()
                    && sorted@[p] == orig[order[p]],
            forall|i: int| rest@.len() <= i < orig.len() ==> order.contains(i),
            forall|p: int, q: int|
                0 <= p < q < order.len() ==> precedes::<N>(es, #[trigger] order[p], #[trigger] order[q]),
        decreases rest@.len(),
    {
        let e = rest.pop().unwrap();
        let ghost i = rest@.len() as int;
        assert(e == orig[i]);
        assert(rest@ =~= orig.take(i));
        assert forall|t: int| 0 <= t < sorted@.len() implies N::entry_wf(&(#[trigger] sorted@[t]).key) by {
            assert(sorted@[t] == orig[order[t]]);
        }
        let mut p: usize = 0;
        while p < sorted.len() && outranks_exec::<N>(&sorted[p], &e)
            invariant
                p <= sorted@.len(),
                sorted@.len() == order.len(),
                forall|t: int|
                    0 <= t < order.len() ==> rest@.len() < #[trigger] order[t] < orig.len()
                        && sorted@[t] == orig[order[t]],
                forall|i2: int| 0 <= i2 < orig.len() ==> N::entry_wf(&(#[trigger] orig[i2]).key),
                0 <= i < orig.len(),
                e == orig[i],
                N::entry_wf(&e.key),
                es == entries_view::<N>(orig),
                forall|t: int| 0 <= t < p ==> outranks(priority::<N>(es[#[trigger] order[t]]), priority::<N>(es[i])),
                forall|t: int| 0 <= t < sorted@.len() ==> N::entry_wf(&(#[trigger] sorted@[t]).key),
            decreases sorted@.len() - p,
        {
            assert(sorted@[p as int] == orig[order[p as int]]);
            assert(es[order[p as int]] == orig[order[p as int]]@);
            assert(es[i] == e@);
            p = p + 1;
        }
        proof {
            if p < sorted@.len() {
                assert(sorted@[p as int] == orig[order[p as int]]);
                assert(es[order[p as int]] == orig[order[p as int]]@);
                assert(es[i] == e@);
                assert(!outranks(priority::<N>(es[order[p as int]]), priority::<N>(es[i])));
            }
        }
        let ghost old_order = order;
        let ghost old_sorted = sorted@;
        sorted.insert(p, e);
        proof {
            order = old_order.insert(p as int, i);
            assert forall|a: int, b: int| 0 <= a < b < order.len() implies precedes::<N>(
                es,
                #[trigger] order[a],
                #[trigger] order[b],
            ) by {
                if b < p {
                    assert(order[a] == old_order[a] && order[b] == old_order[b]);
                } else if a > p {
                    assert(order[a] == old_order[a - 1] && order[b] == old_order[b - 1]);
                } else if a < p && b == p {
                    assert(order[a] == old_order[a]);
                } else if a < p {
                    assert(order[a] == old_order[a] && order[b] == old_order[b - 1]);
                    assert(precedes::<N>(es, old_order[a], old_order[p as int]));
                } else {
                    // a == p: the new entry comes before every later one
                    assert(order[a] == i && order[b] == old_order[b - 1]);
                    assert(old_order[b - 1] > i);
                    assert(!outranks(priority::<N>(es[old_order[p as int]]), priority::<N>(es[i])));
                    let qi = es[i].1;
                    let qp = es[old_order[p as int]].1;
                    let qx = es[old_order[b - 1]].1;
                    lemma_quality_order(qi, qp, qx);
                    lemma_quality_order(qp, qi, qx);
                    lemma_quality_order(qx, qp, qi);
                    if b - 1 > p {
                        assert(precedes::<N>(es, old_order[p as int], old_order[b - 1]));
                    }
                }
            }
            assert forall|t: int| 0 <= t < order.len() implies rest@.len() <= #[trigger] order[t]
                < orig.len() && sorted@[t] == orig[order[t]] by {
                if t < p {
                    assert(order[t] == old_order[t] && sorted@[t] == old_sorted[t]);
                } else if t > p {
                    assert(order[t] == old_order[t - 1] && sorted@[t] == old_sorted[t - 1]);
                }
            }
            assert forall|j: int| rest@.len() <= j < orig.len() implies order.contains(j) by {
                if j == i {
                    assert(order[p as int] == i);
                } else {
                    assert(old_order.contains(j));
                    let t = choose|t: int| 0 <= t < old_order.len() && old_order[t] == j;
                    if t < p {
                        assert(order[t] == j);
                    } else {
                        assert(order[t + 1] == j);
                    }
                }
            }
        }
    }
    (sorted, Ghost(order))
}

/// The first supported value that satisfies an entry of `sorted`, trying the
/// entries in turn and the supported values in their order: its position,
/// with the position of the entry.
fn match_first<N: NegotiationType>(
    supported: &Vec<N::Parsed>,
    sorted: &Vec<HeaderEntry<N::Entry>>,
) -> (r: Option<(usize, usize)>)
    requires
        forall|k: int| 0 <= k < supported@.len() ==> N::parsed_wf(&(#[trigger] supported@[k])),
        forall|p: int| 0 <= p < sorted@.len() ==> N::entry_wf(&(#[trigger] sorted@[p]).key),
    ensures
        match r {
            Some((p, k)) => p < sorted@.len() && is_first_match::<N>(
                keys_view::<N>(supported@),
                sorted@[p as int].key@,
                k as int,
            ) && forall|prev: int|
                0 <= prev < p ==> !matches_some::<N>(
                    keys_view::<N>(supported@),
                    (#[trigger] sorted@[prev]).key@,
                ),
            None => forall|prev: int|
                0 <= prev < sorted@.len() ==> !matches_some::<N>(
                    keys_view::<N>(supported@),
                    (#[trigger] sorted@[prev]).key@,
                ),
        },
{
    let ghost sup = keys_view::<N>(supported@);
    let mut p: usize = 0;
    while p < sorted.len()
        invariant
            p <= sorted@.len(),
            sup == keys_view::<N>(supported@),
            forall|k: int| 0 <= k < supported@.len() ==> N::parsed_wf(&(#[trigger] supported@[k])),
            forall|q: int| 0 <= q < sorted@.len() ==> N::entry_wf(&(#[trigger] sorted@[q]).key),
            forall|prev: int|
                0 <= prev < p ==> !matches_some::<N>(sup, (#[trigger] sorted@[prev]).key@),
        decreases sorted@.len() - p,
    {
        let entry = &sorted[p].key;
        let mut k: usize = 0;
        while k < supported.len()
            invariant
                p < sorted@.len(),
                k <= supported@.len(),
                sup == keys_view::<N>(supported@),
                *entry == sorted@[p as int].key,
                forall|k2: int| 0 <= k2 < supported@.len() ==> N::parsed_wf(&(#[trigger] supported@[k2])),
                N::entry_wf(entry),
                forall|j: int| 0 <= j < k ==> !N::is_match_spec(#[trigger] sup[j], entry@),
                forall|prev: int|
                    0 <= prev < p ==> !matches_some::<N>(sup, (#[trigger] sorted@[prev]).key@),
            decreases supported@.len() - k,
        {
            if N::is_match(&supported[k], entry) {
                assert(sup[k as int] == supported@[k as int]@);
                assert(entry@ == sorted@[p as int].key@);
                assert(is_first_match::<N>(sup, sorted@[p as int].key@, k as int));
                return Some((p, k));
            }
            k = k + 1;
        }
        p = p + 1;
    }
    None
}

/// Negotiates `header` against the read supported values: the position of
/// the chosen value, as `negotiated` states.
pub fn negotiate_index<N: NegotiationType>(supported: &Vec<N::Parsed>, header: &str) -> (r: Result<
    Option<usize>,
    Error,
>)
    requires
        forall|k: int| 0 <= k < supported@.len() ==> N::parsed_wf(&(#[trigger] supported@[k])),
    ensures
        match negotiated::<N>(keys_view::<N>(supported@), header@) {
            Ok(Some(k)) => 0 <= k < supported@.len() && (r matches Ok(Some(k2)) && k2 == k),
            Ok(None) => r == Ok::<Option<usize>, Error>(None),
            Err(e) => r == Err::<Option<usize>, Error>(e),
        },
{
    let ghost sup = keys_view::<N>(supported@);
    let entries = match parse_entries::<N>(header) {
        Ok(v) => v,
        Err(e) => return Err(e),
    };
    let ghost es = entries_view::<N>(entries@);
    let (sorted, Ghost(order)) = sort_by_preference::<N>(entries);
    proof {
        assert forall|p: int| 0 <= p < sorted@.len() implies N::entry_wf(&(#[trigger] sorted@[p]).key) by {
            assert(sorted@[p] == entries@[order[p]]);
        }
    }
    match match_first::<N>(supported, &sorted) {
        Some((p, k)) => {
            proof {
                let i = order[p as int];
                assert(sorted@[p as int] == entries@[i]);
                assert(es[i].0 == sorted@[p as int].key@);
                assert forall|j: int|
                    0 <= j < es.len() && j != i && matches_some::<N>(sup, (#[trigger] es[j]).0)
                    implies precedes::<N>(es, i, j) by {
                    assert(order.contains(j));
                    let q = choose|q: int| 0 <= q < order.len() && order[q] == j;
                    assert(sorted@[q] == entries@[j]);
                    if q < p {
                        assert(!matches_some::<N>(sup, sorted@[q].key@));
                    }
                    assert(q != p);
                    assert(precedes::<N>(es, order[p as int], order[q]));
                }
                assert(is_best_entry::<N>(sup, es, i));
                assert forall|i2: int| is_best_entry::<N>(sup, es, i2) implies i2 == i by {
                    lemma_best_unique::<N>(sup, es, i, i2);
                }
                assert(selection::<N>(sup, es) == Some(k as int));
            }
            Ok(Some(k))
        },
        None => {
            proof {
                assert forall|i: int| !is_best_entry::<N>(sup, es, i) by {
                    if 0 <= i < es.len() {
                        assert(order.contains(i));
                        let q = choose|q: int| 0 <= q < order.len() && order[q] == i;
                        assert(sorted@[q] == entries@[i]);
                        assert(!matches_some::<N>(sup, sorted@[q].key@));
                    }
                }
            }
            Ok(None)
        },
    }
}

/// Reads `header` and puts its entries in order of preference: quality,
/// then specificity, then number of parameters, the most preferred first;
/// entries of equal preference keep the order the header gives them.
pub fn parse_sort_header<N: NegotiationType>(header: &str) -> (r: Result<
    Vec<HeaderEntry<N::Entry>>,
    Error,
>)
    ensures
        match header_entries::<N>(header@) {
            Ok(es) => r is Ok && exists|order: Seq<int>|
                sorted_by_preference::<N>(es, order) && r->Ok_0@.len() == order.len() && forall|p: int|
                    0 <= p < order.len() ==> (#[trigger] r->Ok_0@[p])@ == es[order[p]],
            Err(e) => r == Err::<Vec<HeaderEntry<N::Entry>>, Error>(e),
        },
{
    let entries = match parse_entries::<N>(header) {
        Ok(v) => v,
        Err(e) => return Err(e),
    };
    let ghost es = entries_view::<N>(entries@);
    let (sorted, Ghost(order)) = sort_by_preference::<N>(entries);
    assert(forall|p: int| 0 <= p < order.len() ==> (#[trigger] sorted@[p])@ == es[order[p]]);
    assert(header_entries::<N>(header@) == Ok::<Seq<(<N::Entry as View>::V, QualityView)>, Error>(es));
    assert(sorted_by_preference::<N>(es, order));
    Ok(sorted)
}

/// The header element strings of `items`.
pub open spec fn negotiation_strs<T: AsNegotiationStr>(items: Seq<T>) -> Seq<Seq<char>> {
    items.map_values(|t: T| t.negotiation_str())
}

/// Chooses, for one kind of negotiation `N`, among supported values of type
/// `T`, kept in the order in which they were given.
#[derive(Debug)]
pub struct Negotiator<N: NegotiationType, T> {
    supported: Vec<N::Parsed>,
    values: Vec<T>,
}

impl<N: NegotiationType, T> Negotiator<N, T> {
    #[verifier::type_invariant]
    spec fn well_formed(self) -> bool {
        &&& self.supported@.len() == self.values@.len()
        &&& forall|k: int|
            0 <= k < self.supported@.len() ==> N::parsed_wf(&(#[trigger] self.supported@[k]))
    }

    /// The supported values as read, in order.
    pub closed spec fn keys(self) -> Seq<<N::Parsed as View>::V> {
        keys_view::<N>(self.supported@)
    }

    /// The supported values as given, in order.
    pub closed spec fn values(self) -> Seq<T> {
        self.values@
    }

    /// The number of supported values.
    pub fn len(&self) -> (r: usize)
        ensures
            r == self.values().len(),
            r == self.keys().len(),
    {
        proof {
            use_type_invariant(self);
        }
        self.values.len()
    }

    /// Whether no value is supported.
    pub fn is_empty(&self) -> (r: bool)
        ensures
            r == (self.values().len() == 0),
    {
        self.values.len() == 0
    }

    /// The first supported value.
    pub fn unwrap_first(&self) -> (r: &T)
        requires
            self.values().len() > 0,
        ensures
            *r == self.values()[0],
    {
        &self.values[0]
    }

    /// The supported values as read, in order.
    pub fn supported(&self) -> (r: &Vec<N::Parsed>)
        ensures
            keys_view::<N>(r@) == self.keys(),
    {
        &self.supported
    }

    /// The supported value that best satisfies `header`: entries are tried
    /// from the most preferred (quality, then specificity, then number of
    /// parameters, then the header's own order), and for each the supported
    /// values in their order; the first match wins. A malformed entry
    /// anywhere in the header fails the whole negotiation.
    pub fn negotiate(&self, header: &str) -> (r: Result<Option<&T>, Error>)
        ensures
            match negotiated::<N>(self.keys(), header@) {
                Ok(Some(k)) => 0 <= k < self.values().len() && (r matches Ok(Some(v)) && *v
                    == self.values()[k]),
                Ok(None) => r matches Ok(None),
                Err(e) => r matches Err(e2) && e2 == e,
            },
    {
        proof {
            use_type_invariant(self);
        }
        let r = negotiate_index::<N>(&self.supported, header);
        match r {
            Ok(Some(k)) => {
                Ok(Some(&self.values[k]))
            },
            Ok(None) => Ok(None),
            Err(e) => Err(e),
        }
    }
}

impl<N: NegotiationType, T: AsNegotiationStr> Negotiator<N, T> {
    /// Reads each supported value in turn; the first that cannot be read
    /// fails the whole construction.
    pub fn new(items: Vec<T>) -> (r: Result<Self, Error>)
        ensures
            match parse_all::<N>(negotiation_strs(items@)) {
                Ok(ks) => r matches Ok(n) && n.keys() == ks && n.values() == items@,
                Err(e) => r matches Err(e2) && e2 == e,
            },
    {
        let ghost raws = negotiation_strs(items@);
        let mut supported: Vec<N::Parsed> = Vec::new();
        let mut i: usize = 0;
        assert(raws.take(0) =~= Seq::<Seq<char>>::empty());
        assert(keys_view::<N>(supported@) =~= Seq::empty());
        while i < items.len()
            invariant
                i <= items@.len(),
                raws == negotiation_strs(items@),
                supported@.len() == i,
                parse_all::<N>(raws.take(i as int)) == Ok::<Seq<<N::Parsed as View>::V>, Error>(
                    keys_view::<N>(supported@),
                ),
                forall|k: int| 0 <= k < supported@.len() ==> N::parsed_wf(&(#[trigger] supported@[k])),
            decreases items@.len() - i,
        {
            let raw = items[i].as_str();
            assert(raws.take(i + 1).drop_last() =~= raws.take(i as int));
            assert(raws.take(i + 1).last() == raw@);
            let ghost before = supported@;
            match N::parse_elem(raw) {
                Ok(p) => {
                    supported.push(p);
                    assert(keys_view::<N>(supported@) =~= keys_view::<N>(before).push(
                        supported@.last()@,
                    ));
                },
                Err(e) => {
                    proof {
                        lemma_parse_all_first_error::<N>(raws, i + 1);
                    }
                    return Err(e);
                },
            }
            i = i + 1;
        }
        assert(raws.take(items@.len() as int) =~= raws);
        Ok(Negotiator { supported, values: items })
    }
}

} // verus!

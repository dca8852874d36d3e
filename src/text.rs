//! Character-level building blocks: white space, trimming, and splitting on
//! a separator. Each operation is stated over `Seq<char>`
//! and carried out on ranges of a `Vec<char>`.
use vstd::prelude::*;
use vstd::string::*;

verus! {

broadcast use vstd::string::group_string_axioms;

/// Whether `c` has the Unicode `White_Space` property (what
/// `char::is_whitespace` tests).
pub open spec fn is_space(c: char) -> bool {
    let u = c as u32;
    ||| 0x09 <= u <= 0x0d
    ||| u == 0x20
    ||| u == 0x85
    ||| u == 0xa0
    ||| u == 0x1680
    ||| 0x2000 <= u <= 0x200a
    ||| u == 0x2028
    ||| u == 0x2029
    ||| u == 0x202f
    ||| u == 0x205f
    ||| u == 0x3000
}

/// `s` without its leading white space.
pub open spec fn trim_start(s: Seq<char>) -> Seq<char>
    decreases s.len(),
{
    if s.len() > 0 && is_space(s[0]) {
        trim_start(s.drop_first())
    } else {
        s
    }
}

/// `s` without its trailing white space.
pub open spec fn trim_end(s: Seq<char>) -> Seq<char>
    decreases s.len(),
{
    if s.len() > 0 && is_space(s.last()) {
        trim_end(s.drop_last())
    } else {
        s
    }
}

/// `s` without white space at either end.
pub open spec fn trim(s: Seq<char>) -> Seq<char> {
    trim_end(trim_start(s))
}

/// The pieces of `s` between occurrences of `sep`, in order: one more piece
/// than there are separators, empty pieces included.
pub open spec fn split(s: Seq<char>, sep: char) -> Seq<Seq<char>>
    decreases s.len(),
{
    if s.len() == 0 {
        seq![Seq::<char>::empty()]
    } else {
        let init = split(s.drop_last(), sep);
        if s.last() == sep {
            init.push(Seq::<char>::empty())
        } else {
            init.update(init.len() - 1, init.last().push(s.last()))
        }
    }
}

/// The position of the first `c` in `s`, if any.
pub open spec fn find(s: Seq<char>, c: char) -> Option<int>
    decreases s.len(),
{
    if s.len() == 0 {
        None
    } else if s[0] == c {
        Some(0)
    } else {
        match find(s.drop_first(), c) {
            Some(k) => Some(k + 1),
            None => None,
        }
    }
}

/// The one-character sequence `c`.
pub open spec fn single(c: char) -> Seq<char> {
    seq![c]
}

pub open spec fn is_digit(c: char) -> bool {
    '0' <= c <= '9'
}

/// The pieces of `cs` that the ranges `rs` delimit.
pub open spec fn pieces(cs: Seq<char>, rs: Seq<(usize, usize)>) -> Seq<Seq<char>> {
    rs.map_values(|r: (usize, usize)| cs.subrange(r.0 as int, r.1 as int))
}

/// Whether every range of `rs` lies inside `lo..hi`.
pub open spec fn ranges_within(rs: Seq<(usize, usize)>, lo: int, hi: int) -> bool {
    forall|i: int| 0 <= i < rs.len() ==> lo <= (#[trigger] rs[i]).0 <= rs[i].1 <= hi
}

/// The characters of `s`, one by one.
pub fn chars_of(s: &str) -> (r: Vec<char>)
    ensures
        r@ == s@,
{
    let mut r: Vec<char> = Vec::new();
    for c in it: s.chars()
        invariant
            r@ == it.seq().take(it.index() as int),
    {
        r.push(c);
    }
    r
}

/// The characters of `s` from position `from` to position `to`, as a `String`.
pub fn string_of(s: &str, from: usize, to: usize) -> (r: String)
    requires
        from <= to <= s@.len(),
    ensures
        r@ == s@.subrange(from as int, to as int),
{
    s.substring_char(from, to).to_owned()
}

/// Whether `c` is white space, as `is_space` states.
pub fn is_space_char(c: char) -> (r: bool)
    ensures
        r == is_space(c),
{
    let u = c as u32;
    (0x09 <= u && u <= 0x0d) || u == 0x20 || u == 0x85 || u == 0xa0 || u == 0x1680 || (0x2000
        <= u && u <= 0x200a) || u == 0x2028 || u == 0x2029 || u == 0x202f || u == 0x205f || u
        == 0x3000
}

/// The range of `cs[lo..hi]` that remains once white space is trimmed off
/// both ends.
pub fn trim_range(cs: &Vec<char>, lo: usize, hi: usize) -> (r: (usize, usize))
    requires
        lo <= hi <= cs@.len(),
    ensures
        lo <= r.0 <= r.1 <= hi,
        cs@.subrange(r.0 as int, r.1 as int) == trim(cs@.subrange(lo as int, hi as int)),
{
    let mut a = lo;
    while a < hi && is_space_char(cs[a])
        invariant
            lo <= a <= hi <= cs@.len(),
            trim_start(cs@.subrange(lo as int, hi as int)) == trim_start(
                cs@.subrange(a as int, hi as int),
            ),
        decreases hi - a,
    {
        assert(cs@.subrange(a as int, hi as int).drop_first() =~= cs@.subrange(
            a + 1,
            hi as int,
        ));
        a = a + 1;
    }
    assert(trim_start(cs@.subrange(a as int, hi as int)) == cs@.subrange(a as int, hi as int));
    let mut b = hi;
    while b > a && is_space_char(cs[b - 1])
        invariant
            lo <= a <= b <= hi <= cs@.len(),
            trim_end(cs@.subrange(a as int, hi as int)) == trim_end(
                cs@.subrange(a as int, b as int),
            ),
        decreases b - a,
    {
        assert(cs@.subrange(a as int, b as int).drop_last() =~= cs@.subrange(
            a as int,
            b - 1,
        ));
        b = b - 1;
    }
    (a, b)
}

/// The first position of `c` in `cs[lo..hi]`, counted from the start of `cs`.
pub fn find_in(cs: &Vec<char>, lo: usize, hi: usize, c: char) -> (r: Option<usize>)
    requires
        lo <= hi <= cs@.len(),
    ensures
        match r {
            Some(k) => lo <= k < hi && find(cs@.subrange(lo as int, hi as int), c) == Some(
                k - lo,
            ),
            None => find(cs@.subrange(lo as int, hi as int), c) is None,
        },
{
    let mut k = lo;
    while k < hi
        invariant
            lo <= k <= hi <= cs@.len(),
            forall|j: int| lo <= j < k ==> cs@[j] != c,
        decreases hi - k,
    {
        if cs[k] == c {
            proof {
                lemma_find_first(cs@.subrange(lo as int, hi as int), c, k - lo);
            }
            return Some(k);
        }
        k = k + 1;
    }
    proof {
        lemma_find_none(cs@.subrange(lo as int, hi as int), c);
    }
    None
}

/// `find` gives the first occurrence.
pub proof fn lemma_find_first(s: Seq<char>, c: char, k: int)
    requires
        0 <= k < s.len(),
        s[k] == c,
        forall|j: int| 0 <= j < k ==> s[j] != c,
    ensures
        find(s, c) == Some(k),
    decreases s.len(),
{
    if k > 0 {
        lemma_find_first(s.drop_first(), c, k - 1);
    }
}

/// `find` gives nothing where `c` does not occur.
pub proof fn lemma_find_none(s: Seq<char>, c: char)
    requires
        forall|j: int| 0 <= j < s.len() ==> s[j] != c,
    ensures
        find(s, c) is None,
    decreases s.len(),
{
    if s.len() > 0 {
        lemma_find_none(s.drop_first(), c);
    }
}

/// What `find` gives is an occurrence, and the first one.
pub proof fn lemma_find_facts(s: Seq<char>, c: char)
    ensures
        match find(s, c) {
            Some(k) => 0 <= k < s.len() && s[k] == c && forall|j: int| 0 <= j < k ==> s[j] != c,
            None => forall|j: int| 0 <= j < s.len() ==> s[j] != c,
        },
    decreases s.len(),
{
    if s.len() > 0 {
        lemma_find_facts(s.drop_first(), c);
        if s[0] != c {
            assert forall|j: int| 0 < j < s.len() implies s[j] == s.drop_first()[j - 1] by {}
        }
    }
}

/// Whether `cs[lo..hi]` holds `c` somewhere.
pub fn contains_in(cs: &Vec<char>, lo: usize, hi: usize, c: char) -> (r: bool)
    requires
        lo <= hi <= cs@.len(),
    ensures
        r == cs@.subrange(lo as int, hi as int).contains(c),
{
    let f = find_in(cs, lo, hi, c);
    proof {
        let s = cs@.subrange(lo as int, hi as int);
        lemma_find_facts(s, c);
        if f is Some {
            assert(s[f->Some_0 - lo] == c);
        }
    }
    f.is_some()
}

/// Whether `cs[lo..hi]` is the single character `c`.
pub fn is_single(cs: &Vec<char>, lo: usize, hi: usize, c: char) -> (r: bool)
    requires
        lo <= hi <= cs@.len(),
    ensures
        r == (cs@.subrange(lo as int, hi as int) == single(c)),
{
    if hi - lo == 1 && cs[lo] == c {
        assert(cs@.subrange(lo as int, hi as int) =~= single(c));
        true
    } else {
        proof {
            let s = cs@.subrange(lo as int, hi as int);
            if s == single(c) {
                assert(s.len() == 1);
                assert(s[0] == cs@[lo as int]);
            }
        }
        false
    }
}

/// Whether `s` is the single character `c`.
pub fn is_single_str(s: &str, c: char) -> (r: bool)
    ensures
        r == (s@ == single(c)),
{
    if s.unicode_len() == 1 && s.get_char(0) == c {
        assert(s@ =~= single(c));
        true
    } else {
        proof {
            if s@ == single(c) {
                assert(s@.len() == 1 && s@[0] == c);
            }
        }
        false
    }
}

/// The ranges of the pieces of `cs[lo..hi]` between occurrences of `sep`.
pub fn split_ranges(cs: &Vec<char>, lo: usize, hi: usize, sep: char) -> (r: Vec<(usize, usize)>)
    requires
        lo <= hi <= cs@.len(),
    ensures
        ranges_within(r@, lo as int, hi as int),
        pieces(cs@, r@) == split(cs@.subrange(lo as int, hi as int), sep),
{
    let mut done: Vec<(usize, usize)> = Vec::new();
    let mut start = lo;
    let mut i = lo;
    assert(cs@.subrange(lo as int, lo as int) =~= Seq::<char>::empty());
    assert(pieces(cs@, done@.push((start, i))) =~~= split(
        cs@.subrange(lo as int, lo as int),
        sep,
    ));
    while i < hi
        invariant
            lo <= start <= i <= hi <= cs@.len(),
            ranges_within(done@, lo as int, start as int),
            pieces(cs@, done@.push((start, i))) == split(cs@.subrange(lo as int, i as int), sep),
        decreases hi - i,
    {
        let ghost before = cs@.subrange(lo as int, i as int);
        let ghost now = cs@.subrange(lo as int, i + 1);
        assert(now.drop_last() =~= before);
        assert(now.last() == cs@[i as int]);
        let ghost init = split(before, sep);
        if cs[i] == sep {
            assert(split(now, sep) == init.push(Seq::<char>::empty()));
            done.push((start, i));
            start = i + 1;
            assert(cs@.subrange(start as int, start as int) =~= Seq::<char>::empty());
            assert(pieces(cs@, done@.push((start, (i + 1) as usize))) =~~= init.push(
                Seq::<char>::empty(),
            ));
        } else {
            assert(split(now, sep) == init.update(init.len() - 1, init.last().push(cs@[i as int])));
            assert(cs@.subrange(start as int, i + 1) =~= cs@.subrange(start as int, i as int).push(
                cs@[i as int],
            ));
            assert(pieces(cs@, done@.push((start, (i + 1) as usize))) =~~= init.update(
                init.len() - 1,
                init.last().push(cs@[i as int]),
            ));
        }
        i = i + 1;
    }
    done.push((start, i));
    done
}


/// Splitting gives at least one piece.
pub proof fn lemma_split_nonempty(s: Seq<char>, sep: char)
    ensures
        split(s, sep).len() >= 1,
    decreases s.len(),
{
    if s.len() > 0 {
        lemma_split_nonempty(s.drop_last(), sep);
    }
}

/// Without a separator, splitting gives the whole sequence.
pub proof fn lemma_split_without(s: Seq<char>, sep: char)
    requires
        !s.contains(sep),
    ensures
        split(s, sep) == seq![s],
    decreases s.len(),
{
    if s.len() == 0 {
        assert(s =~= Seq::<char>::empty());
    } else {
        assert(!s.drop_last().contains(sep)) by {
            if s.drop_last().contains(sep) {
                let i = choose|i: int| 0 <= i < s.drop_last().len() && s.drop_last()[i] == sep;
                assert(s[i] == sep);
            }
        }
        lemma_split_without(s.drop_last(), sep);
        assert(s.last() != sep) by {
            assert(s[s.len() - 1] == s.last());
        }
        assert(s.drop_last().push(s.last()) =~= s);
        assert(split(s, sep) =~= seq![s]);
    }
}

/// With a single separator, at `k`, splitting gives what stands before it
/// and what stands after it.
pub proof fn lemma_split_once(s: Seq<char>, sep: char, k: int)
    requires
        0 <= k < s.len(),
        s[k] == sep,
        forall|i: int| 0 <= i < s.len() && i != k ==> s[i] != sep,
    ensures
        split(s, sep) == seq![s.subrange(0, k), s.subrange(k + 1, s.len() as int)],
    decreases s.len(),
{
    if s.len() == k + 1 {
        assert(s.drop_last() =~= s.subrange(0, k));
        assert(!s.subrange(0, k).contains(sep)) by {
            if s.subrange(0, k).contains(sep) {
                let i = choose|i: int| 0 <= i < k && s.subrange(0, k)[i] == sep;
                assert(s[i] == sep);
            }
        }
        lemma_split_without(s.subrange(0, k), sep);
        assert(s.subrange(k + 1, s.len() as int) =~= Seq::<char>::empty());
        assert(split(s, sep) =~= seq![s.subrange(0, k), s.subrange(k + 1, s.len() as int)]);
    } else {
        let init = s.drop_last();
        assert forall|i: int| 0 <= i < init.len() && i != k implies init[i] != sep by {
            assert(init[i] == s[i]);
        }
        lemma_split_once(init, sep, k);
        assert(s.last() != sep) by {
            assert(s[s.len() - 1] == s.last());
        }
        assert(init.subrange(0, k) =~= s.subrange(0, k));
        assert(init.subrange(k + 1, init.len() as int).push(s.last()) =~= s.subrange(
            k + 1,
            s.len() as int,
        ));
        assert(split(s, sep) =~= seq![s.subrange(0, k), s.subrange(k + 1, s.len() as int)]);
    }
}

/// A sequence that neither starts nor ends with white space is its own trim.
pub proof fn lemma_trim_plain(s: Seq<char>)
    requires
        s.len() > 0,
        !is_space(s[0]),
        !is_space(s.last()),
    ensures
        trim(s) == s,
{
    assert(trim_start(s) == s);
}

} // verus!

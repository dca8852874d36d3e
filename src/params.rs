//! Media type parameters: a list of `key=value` pairs with distinct keys,
//! whose meaning is the map from each key to its value.
use vstd::prelude::*;
use crate::text::{single, is_single_str, chars_of};

verus! {

/// The characters of each key and value of `ps`.
pub open spec fn pairs_view(ps: Seq<(String, String)>) -> Seq<(Seq<char>, Seq<char>)> {
    ps.map_values(|p: (String, String)| (p.0@, p.1@))
}

/// The map that the pairs `ps` give, read in order: a later pair replaces an
/// earlier one with the same key.
pub open spec fn to_map(ps: Seq<(Seq<char>, Seq<char>)>) -> Map<Seq<char>, Seq<char>>
    decreases ps.len(),
{
    if ps.len() == 0 {
        Map::empty()
    } else {
        to_map(ps.drop_last()).insert(ps.last().0, ps.last().1)
    }
}

/// No two pairs of `ps` share a key.
pub open spec fn keys_unique(ps: Seq<(Seq<char>, Seq<char>)>) -> bool {
    forall|i: int, j: int| 0 <= i < j < ps.len() ==> (#[trigger] ps[i]).0 != (#[trigger] ps[j]).0
}

/// The map of pairs with distinct keys holds each pair and nothing else, and
/// has as many keys as there are pairs.
pub proof fn lemma_to_map_unique(ps: Seq<(Seq<char>, Seq<char>)>)
    requires
        keys_unique(ps),
    ensures
        forall|i: int|
            0 <= i < ps.len() ==> to_map(ps).contains_key((#[trigger] ps[i]).0) && to_map(ps)[ps[i].0]
                == ps[i].1,
        forall|k: Seq<char>| #[trigger]
            to_map(ps).contains_key(k) ==> exists|i: int| 0 <= i < ps.len() && (#[trigger] ps[i]).0 == k,
        to_map(ps).dom().finite(),
        to_map(ps).dom().len() == ps.len(),
    decreases ps.len(),
{
    if ps.len() > 0 {
        let init = ps.drop_last();
        assert(keys_unique(init));
        lemma_to_map_unique(init);
        let last = ps.last();
        assert(forall|i: int| 0 <= i < init.len() ==> init[i] == ps[i]);
        assert(!to_map(init).contains_key(last.0)) by {
            if to_map(init).contains_key(last.0) {
                let i = choose|i: int| 0 <= i < init.len() && (#[trigger] init[i]).0 == last.0;
                assert(ps[i].0 == ps[ps.len() - 1].0);
            }
        }
        assert(to_map(ps).dom() == to_map(init).dom().insert(last.0));
        assert forall|k: Seq<char>| #[trigger]
            to_map(ps).contains_key(k) implies exists|i: int| 0 <= i < ps.len() && (#[trigger] ps[i]).0 == k by {
            if k != last.0 {
                let i = choose|i: int| 0 <= i < init.len() && (#[trigger] init[i]).0 == k;
                assert(ps[i].0 == k);
            } else {
                assert(ps[ps.len() - 1].0 == k);
            }
        }
    }
}

/// Two lists of distinct-key pairs give the same map exactly when they are
/// as long and each pair of one stands in the other.
pub proof fn lemma_same_map(a: Seq<(Seq<char>, Seq<char>)>, b: Seq<(Seq<char>, Seq<char>)>)
    requires
        keys_unique(a),
        keys_unique(b),
    ensures
        (to_map(a) == to_map(b)) <==> (a.len() == b.len() && forall|i: int|
            0 <= i < a.len() ==> b.contains(#[trigger] a[i])),
{
    lemma_to_map_unique(a);
    lemma_to_map_unique(b);
    if to_map(a) == to_map(b) {
        assert forall|i: int| 0 <= i < a.len() implies b.contains(#[trigger] a[i]) by {
            assert(to_map(b).contains_key(a[i].0));
            let j = choose|j: int| 0 <= j < b.len() && (#[trigger] b[j]).0 == a[i].0;
            assert(b[j] == a[i]);
        }
    }
    if a.len() == b.len() && forall|i: int| 0 <= i < a.len() ==> b.contains(#[trigger] a[i]) {
        assert(to_map(a).dom().subset_of(to_map(b).dom())) by {
            assert forall|k: Seq<char>| #[trigger] to_map(a).contains_key(k) implies to_map(b).contains_key(k) by {
                let i = choose|i: int| 0 <= i < a.len() && (#[trigger] a[i]).0 == k;
                assert(b.contains(a[i]));
                let j = choose|j: int| 0 <= j < b.len() && b[j] == a[i];
                assert(b[j].0 == k);
            }
        }
        vstd::set_lib::lemma_subset_equality(to_map(a).dom(), to_map(b).dom());
        assert forall|k: Seq<char>| #[trigger] to_map(a).contains_key(k) implies to_map(a)[k] == to_map(b)[k] by {
            let i = choose|i: int| 0 <= i < a.len() && (#[trigger] a[i]).0 == k;
            assert(b.contains(a[i]));
            let j = choose|j: int| 0 <= j < b.len() && b[j] == a[i];
            assert(b[j].0 == k);
        }
        assert(to_map(a) =~= to_map(b));
    }
}

/// Where `ps` gives `key` the value `value`, and the other pairs of `qs` are
/// those of `ps`, the maps agree but for `key`.
proof fn lemma_replace(
    ps: Seq<(Seq<char>, Seq<char>)>,
    qs: Seq<(Seq<char>, Seq<char>)>,
    i: int,
    value: Seq<char>,
)
    requires
        keys_unique(ps),
        0 <= i < ps.len(),
        qs == ps.update(i, (ps[i].0, value)),
    ensures
        keys_unique(qs),
        to_map(qs) == to_map(ps).insert(ps[i].0, value),
{
    assert(keys_unique(qs));
    lemma_to_map_unique(ps);
    lemma_to_map_unique(qs);
    assert forall|k: Seq<char>| #[trigger] to_map(qs).contains_key(k) implies to_map(ps).insert(
        ps[i].0,
        value,
    ).contains_key(k) by {
        let j = choose|j: int| 0 <= j < qs.len() && (#[trigger] qs[j]).0 == k;
        assert(ps[j].0 == k);
    }
    assert forall|k: Seq<char>| #[trigger] to_map(ps).insert(ps[i].0, value).contains_key(
        k,
    ) implies to_map(qs).contains_key(k) && to_map(qs)[k] == to_map(ps).insert(ps[i].0, value)[k] by {
        if k != ps[i].0 {
            let j = choose|j: int| 0 <= j < ps.len() && (#[trigger] ps[j]).0 == k;
            assert(qs[j] == ps[j]);
        } else {
            assert(qs[i].0 == k);
        }
    }
    assert(to_map(qs) =~= to_map(ps).insert(ps[i].0, value));
}

/// Taking out the pair at `i` takes its key out of the map.
proof fn lemma_remove(ps: Seq<(Seq<char>, Seq<char>)>, i: int)
    requires
        keys_unique(ps),
        0 <= i < ps.len(),
    ensures
        keys_unique(ps.remove(i)),
        to_map(ps.remove(i)) == to_map(ps).remove(ps[i].0),
{
    let qs = ps.remove(i);
    assert forall|a: int, b: int| 0 <= a < b < qs.len() implies (#[trigger] qs[a]).0 != (
    #[trigger] qs[b]).0 by {
        let a2 = if a < i {
            a
        } else {
            a + 1
        };
        let b2 = if b < i {
            b
        } else {
            b + 1
        };
        assert(qs[a] == ps[a2] && qs[b] == ps[b2]);
    }
    lemma_to_map_unique(ps);
    lemma_to_map_unique(qs);
    assert forall|k: Seq<char>| #[trigger] to_map(qs).contains_key(k) implies to_map(ps).remove(
        ps[i].0,
    ).contains_key(k) by {
        let j = choose|j: int| 0 <= j < qs.len() && (#[trigger] qs[j]).0 == k;
        let j2 = if j < i {
            j
        } else {
            j + 1
        };
        assert(qs[j] == ps[j2]);
    }
    assert forall|k: Seq<char>| #[trigger] to_map(ps).remove(ps[i].0).contains_key(
        k,
    ) implies to_map(qs).contains_key(k) && to_map(qs)[k] == to_map(ps)[k] by {
        let j = choose|j: int| 0 <= j < ps.len() && (#[trigger] ps[j]).0 == k;
        let j2 = if j < i {
            j
        } else {
            j - 1
        };
        assert(qs[j2] == ps[j]);
    }
    assert(to_map(qs) =~= to_map(ps).remove(ps[i].0));
}

/// The position of the pair whose key is `key`, if any.
pub fn position_of(ps: &Vec<(String, String)>, key: &String) -> (r: Option<usize>)
    ensures
        match r {
            Some(i) => i < ps@.len() && ps@[i as int].0@ == key@,
            None => forall|i: int| 0 <= i < ps@.len() ==> (#[trigger] ps@[i]).0@ != key@,
        },
{
    let mut i: usize = 0;
    while i < ps.len()
        invariant
            i <= ps@.len(),
            forall|j: int| 0 <= j < i ==> (#[trigger] ps@[j]).0@ != key@,
        decreases ps@.len() - i,
    {
        if ps[i].0 == *key {
            return Some(i);
        }
        i = i + 1;
    }
    None
}

/// Character sequences in lexicographic order, a proper prefix first.
pub open spec fn chars_lt(a: Seq<char>, b: Seq<char>) -> bool
    decreases a.len(),
{
    if a.len() == 0 {
        b.len() > 0
    } else if b.len() == 0 {
        false
    } else if a[0] != b[0] {
        a[0] < b[0]
    } else {
        chars_lt(a.drop_first(), b.drop_first())
    }
}

pub proof fn lemma_chars_lt_irreflexive(a: Seq<char>)
    ensures
        !chars_lt(a, a),
    decreases a.len(),
{
    if a.len() > 0 {
        lemma_chars_lt_irreflexive(a.drop_first());
    }
}

pub proof fn lemma_chars_lt_transitive(a: Seq<char>, b: Seq<char>, c: Seq<char>)
    requires
        chars_lt(a, b),
        chars_lt(b, c),
    ensures
        chars_lt(a, c),
    decreases a.len(),
{
    if a.len() > 0 && b.len() > 0 && c.len() > 0 && a[0] == b[0] && b[0] == c[0] {
        lemma_chars_lt_transitive(a.drop_first(), b.drop_first(), c.drop_first());
    }
}

pub proof fn lemma_chars_lt_total(a: Seq<char>, b: Seq<char>)
    ensures
        a == b || chars_lt(a, b) || chars_lt(b, a),
    decreases a.len(),
{
    if a.len() > 0 && b.len() > 0 && a[0] == b[0] {
        lemma_chars_lt_total(a.drop_first(), b.drop_first());
        if a.drop_first() == b.drop_first() {
            assert(a =~= seq![a[0]] + a.drop_first());
            assert(b =~= seq![b[0]] + b.drop_first());
        }
    } else if a.len() == 0 && b.len() == 0 {
        assert(a =~= b);
    }
}

/// The keys of `ps` stand in increasing order.
pub open spec fn keys_sorted(ps: Seq<(Seq<char>, Seq<char>)>) -> bool {
    forall|i: int, j: int| 0 <= i < j < ps.len() ==> chars_lt((#[trigger] ps[i]).0, (#[trigger] ps[j]).0)
}

/// Keys in increasing order are distinct.
pub proof fn lemma_sorted_unique(ps: Seq<(Seq<char>, Seq<char>)>)
    requires
        keys_sorted(ps),
    ensures
        keys_unique(ps),
{
    assert forall|i: int, j: int| 0 <= i < j < ps.len() implies (#[trigger] ps[i]).0 != (
    #[trigger] ps[j]).0 by {
        lemma_chars_lt_irreflexive(ps[i].0);
    }
}

/// Whether `a` comes before `b` in the order of `chars_lt`.
fn key_less(a: &String, b: &String) -> (r: bool)
    ensures
        r == chars_lt(a@, b@),
{
    let x = chars_of(a.as_str());
    let y = chars_of(b.as_str());
    let mut i: usize = 0;
    assert(x@.skip(0) =~= x@ && y@.skip(0) =~= y@);
    while i < x.len() && i < y.len() && x[i] == y[i]
        invariant
            i <= x@.len(),
            i <= y@.len(),
            chars_lt(x@, y@) == chars_lt(x@.skip(i as int), y@.skip(i as int)),
        decreases x@.len() - i,
    {
        assert(x@.skip(i as int).drop_first() =~= x@.skip(i + 1));
        assert(y@.skip(i as int).drop_first() =~= y@.skip(i + 1));
        i = i + 1;
    }
    if i == x.len() {
        i < y.len()
    } else if i == y.len() {
        false
    } else {
        x[i] < y[i]
    }
}

/// Putting a pair with a new key among distinct keys adds it to the map.
proof fn lemma_insert_new(ps: Seq<(Seq<char>, Seq<char>)>, i: int, k: Seq<char>, v: Seq<char>)
    requires
        keys_unique(ps),
        0 <= i <= ps.len(),
        forall|j: int| 0 <= j < ps.len() ==> (#[trigger] ps[j]).0 != k,
    ensures
        keys_unique(ps.insert(i, (k, v))),
        to_map(ps.insert(i, (k, v))) == to_map(ps).insert(k, v),
{
    let qs = ps.insert(i, (k, v));
    assert forall|a: int, b: int| 0 <= a < b < qs.len() implies (#[trigger] qs[a]).0 != (
    #[trigger] qs[b]).0 by {
        if a < i && b < i {
            assert(qs[a] == ps[a] && qs[b] == ps[b]);
        } else if a < i && b == i {
            assert(qs[a] == ps[a]);
        } else if a < i {
            assert(qs[a] == ps[a] && qs[b] == ps[b - 1]);
        } else if a == i {
            assert(qs[b] == ps[b - 1]);
        } else {
            assert(qs[a] == ps[a - 1] && qs[b] == ps[b - 1]);
        }
    }
    lemma_to_map_unique(ps);
    lemma_to_map_unique(qs);
    assert forall|key: Seq<char>| #[trigger] to_map(qs).contains_key(key) implies to_map(ps).insert(
        k,
        v,
    ).contains_key(key) by {
        let j = choose|j: int| 0 <= j < qs.len() && (#[trigger] qs[j]).0 == key;
        if j < i {
            assert(qs[j] == ps[j]);
        } else if j > i {
            assert(qs[j] == ps[j - 1]);
        }
    }
    assert forall|key: Seq<char>| #[trigger] to_map(ps).insert(k, v).contains_key(
        key,
    ) implies to_map(qs).contains_key(key) && to_map(qs)[key] == to_map(ps).insert(k, v)[key] by {
        if key == k {
            assert(qs[i] == (k, v));
        } else {
            let j = choose|j: int| 0 <= j < ps.len() && (#[trigger] ps[j]).0 == key;
            if j < i {
                assert(qs[j] == ps[j]);
            } else {
                assert(qs[j + 1] == ps[j]);
            }
        }
    }
    assert(to_map(qs) =~= to_map(ps).insert(k, v));
}

/// Sets `key` to `value`, in place of any earlier value, keeping the keys in
/// increasing order.
pub fn insert_param(ps: &mut Vec<(String, String)>, key: String, value: String)
    requires
        keys_sorted(pairs_view(old(ps)@)),
    ensures
        keys_sorted(pairs_view(final(ps)@)),
        keys_unique(pairs_view(final(ps)@)),
        to_map(pairs_view(final(ps)@)) == to_map(pairs_view(old(ps)@)).insert(key@, value@),
{
    let ghost before = pairs_view(ps@);
    proof {
        lemma_sorted_unique(before);
    }
    let mut i: usize = 0;
    while i < ps.len() && key_less(&ps[i].0, &key)
        invariant
            i <= ps@.len(),
            before == pairs_view(ps@),
            forall|j: int| 0 <= j < i ==> chars_lt((#[trigger] before[j]).0, key@),
        decreases ps@.len() - i,
    {
        i = i + 1;
    }
    if i < ps.len() && ps[i].0 == key {
        ps.set(i, (key, value));
        proof {
            assert(pairs_view(ps@) =~= before.update(i as int, (before[i as int].0, value@)));
            lemma_replace(before, pairs_view(ps@), i as int, value@);
            assert(keys_sorted(pairs_view(ps@))) by {
                assert forall|a: int, b: int| 0 <= a < b < pairs_view(ps@).len() implies chars_lt(
                    (#[trigger] pairs_view(ps@)[a]).0,
                    (#[trigger] pairs_view(ps@)[b]).0,
                ) by {
                    assert(pairs_view(ps@)[a].0 == before[a].0);
                    assert(pairs_view(ps@)[b].0 == before[b].0);
                }
            }
        }
    } else {
        let ghost k = key@;
        let ghost v = value@;
        proof {
            if i < before.len() {
                lemma_chars_lt_total(before[i as int].0, k);
            }
            assert forall|j: int| i <= j < before.len() implies chars_lt(k, (#[trigger] before[j]).0) by {
                if j > i {
                    lemma_chars_lt_transitive(k, before[i as int].0, before[j].0);
                }
            }
            assert forall|j: int| 0 <= j < before.len() implies (#[trigger] before[j]).0 != k by {
                if j < i {
                    lemma_chars_lt_irreflexive(k);
                } else {
                    lemma_chars_lt_irreflexive(k);
                }
            }
        }
        ps.insert(i, (key, value));
        proof {
            let after = pairs_view(ps@);
            assert(after =~= before.insert(i as int, (k, v)));
            lemma_insert_new(before, i as int, k, v);
            assert forall|a: int, b: int| 0 <= a < b < after.len() implies chars_lt(
                (#[trigger] after[a]).0,
                (#[trigger] after[b]).0,
            ) by {
                if a < i && b < i {
                    assert(after[a] == before[a] && after[b] == before[b]);
                } else if a < i && b == i {
                    assert(after[a] == before[a]);
                } else if a < i {
                    assert(after[a] == before[a] && after[b] == before[b - 1]);
                    lemma_chars_lt_transitive(before[a].0, k, before[b - 1].0);
                } else if a == i {
                    assert(after[b] == before[b - 1]);
                } else {
                    assert(after[a] == before[a - 1] && after[b] == before[b - 1]);
                }
            }
        }
    }
}

/// Takes out the parameter whose key is the single character `c`, and gives
/// its value.
pub fn take_param(ps: &mut Vec<(String, String)>, c: char) -> (r: Option<String>)
    requires
        keys_sorted(pairs_view(old(ps)@)),
    ensures
        keys_sorted(pairs_view(final(ps)@)),
        keys_unique(pairs_view(final(ps)@)),
        to_map(pairs_view(final(ps)@)) == to_map(pairs_view(old(ps)@)).remove(single(c)),
        match r {
            Some(v) => to_map(pairs_view(old(ps)@)).contains_key(single(c)) && v@ == to_map(
                pairs_view(old(ps)@),
            )[single(c)],
            None => !to_map(pairs_view(old(ps)@)).contains_key(single(c)),
        },
{
    let ghost before = pairs_view(ps@);
    proof {
        lemma_sorted_unique(before);
        lemma_to_map_unique(before);
    }
    let mut i: usize = 0;
    while i < ps.len()
        invariant
            i <= ps@.len(),
            before == pairs_view(ps@),
            before == pairs_view(old(ps)@),
            keys_unique(before),
            keys_sorted(before),
            forall|j: int| 0 <= j < i ==> (#[trigger] ps@[j]).0@ != single(c),
        decreases ps@.len() - i,
    {
        if is_single_str(ps[i].0.as_str(), c) {
            let (_, v) = ps.remove(i);
            proof {
                lemma_to_map_unique(before);
                assert(before[i as int].0 == single(c));
                assert(before[i as int].1 == v@);
                assert(pairs_view(ps@) =~= before.remove(i as int));
                lemma_remove(before, i as int);
                let after = before.remove(i as int);
                assert forall|a: int, b: int| 0 <= a < b < after.len() implies chars_lt(
                    (#[trigger] after[a]).0,
                    (#[trigger] after[b]).0,
                ) by {
                    let a2 = if a < i {
                        a
                    } else {
                        a + 1
                    };
                    let b2 = if b < i {
                        b
                    } else {
                        b + 1
                    };
                    assert(after[a] == before[a2] && after[b] == before[b2]);
                }
                assert(to_map(before)[single(c)] == v@);
            }
            return Some(v);
        }
        i = i + 1;
    }
    proof {
        if to_map(before).contains_key(single(c)) {
            let j = choose|j: int| 0 <= j < before.len() && (#[trigger] before[j]).0 == single(c);
            assert(ps@[j].0@ == single(c));
        }
        assert(to_map(before).remove(single(c)) =~= to_map(before));
    }
    None
}

/// Whether the two lists give the same map.
pub fn same_params(a: &Vec<(String, String)>, b: &Vec<(String, String)>) -> (r: bool)
    requires
        keys_unique(pairs_view(a@)),
        keys_unique(pairs_view(b@)),
    ensures
        r == (to_map(pairs_view(a@)) == to_map(pairs_view(b@))),
{
    let ghost av = pairs_view(a@);
    let ghost bv = pairs_view(b@);
    proof {
        lemma_same_map(av, bv);
    }
    if a.len() != b.len() {
        return false;
    }
    let mut i: usize = 0;
    while i < a.len()
        invariant
            i <= a@.len(),
            a@.len() == b@.len(),
            av == pairs_view(a@),
            bv == pairs_view(b@),
            keys_unique(av),
            keys_unique(bv),
            forall|k: int| 0 <= k < i ==> bv.contains(#[trigger] av[k]),
        decreases a@.len() - i,
    {
        match position_of(b, &a[i].0) {
            Some(j) => {
                if b[j].1 != a[i].1 {
                    proof {
                        lemma_to_map_unique(bv);
                        assert forall|j2: int| 0 <= j2 < bv.len() implies #[trigger] bv[j2] != av[i as int] by {
                            if j2 != j {
                                assert(bv[j2].0 != bv[j as int].0);
                            }
                        }
                        assert(!bv.contains(av[i as int]));
                        lemma_same_map(av, bv);
                    }
                    return false;
                }
                assert(bv[j as int] == av[i as int]);
            },
            None => {
                proof {
                    assert forall|j2: int| 0 <= j2 < bv.len() implies #[trigger] bv[j2] != av[i as int] by {
                        assert(b@[j2].0@ != a@[i as int].0@);
                    }
                    assert(!bv.contains(av[i as int]));
                    lemma_same_map(av, bv);
                }
                return false;
            },
        }
        i = i + 1;
    }
    proof {
        lemma_same_map(av, bv);
    }
    true
}

/// Whether some parameter has the single character `c` as its key.
pub fn has_param(ps: &Vec<(String, String)>, c: char) -> (r: bool)
    requires
        keys_unique(pairs_view(ps@)),
    ensures
        r == to_map(pairs_view(ps@)).contains_key(single(c)),
{
    let ghost pv = pairs_view(ps@);
    proof {
        lemma_to_map_unique(pv);
    }
    let mut i: usize = 0;
    while i < ps.len()
        invariant
            i <= ps@.len(),
            pv == pairs_view(ps@),
            keys_unique(pv),
            forall|j: int| 0 <= j < i ==> (#[trigger] ps@[j]).0@ != single(c),
        decreases ps@.len() - i,
    {
        if is_single_str(ps[i].0.as_str(), c) {
            proof {
                lemma_to_map_unique(pv);
                assert(pv[i as int].0 == single(c));
            }
            return true;
        }
        i = i + 1;
    }
    proof {
        lemma_to_map_unique(pv);
        if to_map(pv).contains_key(single(c)) {
            let j = choose|j: int| 0 <= j < pv.len() && (#[trigger] pv[j]).0 == single(c);
            assert(ps@[j].0@ == single(c));
        }
    }
    false
}

} // verus!

//! Quality values (`q=...`), read exactly as decimal numbers and ordered as
//! `f32::total_cmp` orders floats: -NaN < -inf < negative numbers < -0 < +0
//! < positive numbers < +inf < NaN.
//!
//! Every text that `f32`'s parser accepts is accepted here, and nothing else;
//! the value is kept exactly, as a sign, significant digits and a decimal
//! exponent. Where `f32` would round two texts to the same float (or a large
//! number to infinity, a tiny one to zero), they are ordered here by their
//! exact values. An exponent is read up to a magnitude of 10^15, beyond
//! which `f32` gives only zero or infinity.
use vstd::prelude::*;
use crate::text::{find, is_digit, chars_of, find_in, lemma_find_first, lemma_find_none};

verus! {

/// The largest exponent magnitude that is read; larger ones are held at it.
pub const EXPONENT_LIMIT: u64 = 1_000_000_000_000_000;

/// A quality value, held exactly.
#[derive(Clone, Debug, PartialEq)]
pub enum Quality {
    NotANumber { negative: bool },
    Infinite { negative: bool },
    /// `0.d1 d2 ... dn × 10^exponent`; the digits have no leading or
    /// trailing zero, and zero has no digits and exponent 0.
    Finite { negative: bool, digits: Vec<u8>, exponent: i128 },
}

/// What a quality value stands for.
pub enum QualityView {
    NotANumber { negative: bool },
    Infinite { negative: bool },
    Finite { negative: bool, digits: Seq<u8>, exponent: int },
}

impl View for Quality {
    type V = QualityView;

    open spec fn view(&self) -> QualityView {
        match self {
            Quality::NotANumber { negative } => QualityView::NotANumber { negative: *negative },
            Quality::Infinite { negative } => QualityView::Infinite { negative: *negative },
            Quality::Finite { negative, digits, exponent } => QualityView::Finite {
                negative: *negative,
                digits: digits@,
                exponent: *exponent as int,
            },
        }
    }
}

/// The quality of an entry without `q`: 1.
pub open spec fn quality_one() -> QualityView {
    QualityView::Finite { negative: false, digits: seq![1u8], exponent: 1 }
}

/// Where a quality stands among the classes of `total_cmp`: -NaN, -inf,
/// negative numbers, -0, +0, positive numbers, +inf, NaN.
pub open spec fn quality_class(q: QualityView) -> int {
    match q {
        QualityView::NotANumber { negative } => if negative {
            0
        } else {
            7
        },
        QualityView::Infinite { negative } => if negative {
            1
        } else {
            6
        },
        QualityView::Finite { negative, digits, exponent } => if digits.len() == 0 {
            if negative {
                3
            } else {
                4
            }
        } else if negative {
            2
        } else {
            5
        },
    }
}

/// Digit sequences in lexicographic order, a proper prefix first: for
/// significant digits of equal exponent, the smaller magnitude first.
pub open spec fn digits_lt(a: Seq<u8>, b: Seq<u8>) -> bool
    decreases a.len(),
{
    if a.len() == 0 {
        b.len() > 0
    } else if b.len() == 0 {
        false
    } else if a[0] != b[0] {
        a[0] < b[0]
    } else {
        digits_lt(a.drop_first(), b.drop_first())
    }
}

/// The magnitude of `a` is below that of `b` (both numbers, same class).
pub open spec fn magnitude_lt(a: QualityView, b: QualityView) -> bool {
    match (a, b) {
        (
            QualityView::Finite { digits: da, exponent: ea, .. },
            QualityView::Finite { digits: db, exponent: eb, .. },
        ) => ea < eb || (ea == eb && digits_lt(da, db)),
        _ => false,
    }
}

/// `a` comes before `b` in the order of `total_cmp`.
pub open spec fn quality_lt(a: QualityView, b: QualityView) -> bool {
    let ca = quality_class(a);
    let cb = quality_class(b);
    if ca != cb {
        ca < cb
    } else if ca == 2 {
        magnitude_lt(b, a)
    } else {
        magnitude_lt(a, b)
    }
}

pub proof fn lemma_digits_lt_irreflexive(a: Seq<u8>)
    ensures
        !digits_lt(a, a),
    decreases a.len(),
{
    if a.len() > 0 {
        lemma_digits_lt_irreflexive(a.drop_first());
    }
}

pub proof fn lemma_digits_lt_transitive(a: Seq<u8>, b: Seq<u8>, c: Seq<u8>)
    requires
        digits_lt(a, b),
        digits_lt(b, c),
    ensures
        digits_lt(a, c),
    decreases a.len(),
{
    if a.len() > 0 && b.len() > 0 && c.len() > 0 && a[0] == b[0] && b[0] == c[0] {
        lemma_digits_lt_transitive(a.drop_first(), b.drop_first(), c.drop_first());
    }
}

pub proof fn lemma_digits_lt_total(a: Seq<u8>, b: Seq<u8>)
    ensures
        a == b || digits_lt(a, b) || digits_lt(b, a),
    decreases a.len(),
{
    if a.len() > 0 && b.len() > 0 && a[0] == b[0] {
        lemma_digits_lt_total(a.drop_first(), b.drop_first());
        if a.drop_first() == b.drop_first() {
            assert(a =~= seq![a[0]] + a.drop_first());
            assert(b =~= seq![b[0]] + b.drop_first());
        }
    } else if a.len() == 0 && b.len() == 0 {
        assert(a =~= b);
    }
}

/// The order on qualities is a strict total order.
pub proof fn lemma_quality_order(a: QualityView, b: QualityView, c: QualityView)
    ensures
        !quality_lt(a, a),
        quality_lt(a, b) && quality_lt(b, c) ==> quality_lt(a, c),
        a == b || quality_lt(a, b) || quality_lt(b, a),
{
    if let QualityView::Finite { digits, .. } = a {
        lemma_digits_lt_irreflexive(digits);
    }
    if let (QualityView::Finite { digits: da, .. }, QualityView::Finite { digits: db, .. }) = (
        a,
        b,
    ) {
        lemma_digits_lt_total(da, db);
        if let QualityView::Finite { digits: dc, .. } = c {
            if digits_lt(da, db) && digits_lt(db, dc) {
                lemma_digits_lt_transitive(da, db, dc);
            }
            if digits_lt(dc, db) && digits_lt(db, da) {
                lemma_digits_lt_transitive(dc, db, da);
            }
        }
    }
}

/// Whether `a` comes before `b` in the order of `total_cmp`.
pub fn quality_less(a: &Quality, b: &Quality) -> (r: bool)
    ensures
        r == quality_lt(a@, b@),
{
    let ca = class_of(a);
    let cb = class_of(b);
    if ca != cb {
        return ca < cb;
    }
    if ca == 2 {
        magnitude_less(b, a)
    } else {
        magnitude_less(a, b)
    }
}

fn class_of(q: &Quality) -> (r: u8)
    ensures
        r as int == quality_class(q@),
{
    match q {
        Quality::NotANumber { negative } => if *negative {
            0
        } else {
            7
        },
        Quality::Infinite { negative } => if *negative {
            1
        } else {
            6
        },
        Quality::Finite { negative, digits, .. } => if digits.len() == 0 {
            if *negative {
                3
            } else {
                4
            }
        } else if *negative {
            2
        } else {
            5
        },
    }
}

fn magnitude_less(a: &Quality, b: &Quality) -> (r: bool)
    ensures
        r == magnitude_lt(a@, b@),
{
    match (a, b) {
        (
            Quality::Finite { digits: da, exponent: ea, .. },
            Quality::Finite { digits: db, exponent: eb, .. },
        ) => *ea < *eb || (*ea == *eb && digits_less(da, db)),
        _ => false,
    }
}

fn digits_less(a: &Vec<u8>, b: &Vec<u8>) -> (r: bool)
    ensures
        r == digits_lt(a@, b@),
{
    let mut i: usize = 0;
    assert(a@.skip(0) =~= a@ && b@.skip(0) =~= b@);
    while i < a.len() && i < b.len() && a[i] == b[i]
        invariant
            i <= a@.len(),
            i <= b@.len(),
            digits_lt(a@, b@) == digits_lt(a@.skip(i as int), b@.skip(i as int)),
        decreases a@.len() - i,
    {
        assert(a@.skip(i as int).drop_first() =~= a@.skip(i + 1));
        assert(b@.skip(i as int).drop_first() =~= b@.skip(i + 1));
        i = i + 1;
    }
    if i == a.len() {
        i < b.len()
    } else if i == b.len() {
        false
    } else {
        a[i] < b[i]
    }
}

/// Whether `a` and `b` are the same quality.
pub fn quality_equal(a: &Quality, b: &Quality) -> (r: bool)
    ensures
        r == (a@ == b@),
{
    match (a, b) {
        (Quality::NotANumber { negative: x }, Quality::NotANumber { negative: y }) => *x == *y,
        (Quality::Infinite { negative: x }, Quality::Infinite { negative: y }) => *x == *y,
        (
            Quality::Finite { negative: x, digits: da, exponent: ea },
            Quality::Finite { negative: y, digits: db, exponent: eb },
        ) => {
            if *x != *y || *ea != *eb || da.len() != db.len() {
                proof {
                    if a@ == b@ {
                        assert(a@->Finite_digits == b@->Finite_digits);
                        assert(a@->Finite_exponent == b@->Finite_exponent);
                    }
                }
                return false;
            }
            let mut i: usize = 0;
            while i < da.len()
                invariant
                    i <= da@.len(),
                    da@.len() == db@.len(),
                    a@ is Finite && b@ is Finite,
                    a@->Finite_digits == da@,
                    b@->Finite_digits == db@,
                    forall|j: int| 0 <= j < i ==> da@[j] == db@[j],
                decreases da@.len() - i,
            {
                if da[i] != db[i] {
                    assert(da@[i as int] != db@[i as int]);
                    return false;
                }
                i = i + 1;
            }
            assert(da@ =~= db@);
            true
        },
        _ => false,
    }
}

/// `s` with `E` written `e`, for finding the exponent marker.
pub open spec fn lower_e(s: Seq<char>) -> Seq<char> {
    s.map_values(|c: char| if c == 'E' { 'e' } else { c })
}

/// Every character of `s` is a decimal digit.
pub open spec fn all_digits(s: Seq<char>) -> bool {
    forall|i: int| 0 <= i < s.len() ==> is_digit(#[trigger] s[i])
}

/// The values of the decimal digits `s`.
pub open spec fn digit_values(s: Seq<char>) -> Seq<u8> {
    s.map_values(|c: char| (c as int - '0' as int) as u8)
}

/// How many zeros `d` starts with.
pub open spec fn leading_zeros(d: Seq<u8>) -> int
    decreases d.len(),
{
    if d.len() > 0 && d[0] == 0 {
        1 + leading_zeros(d.drop_first())
    } else {
        0
    }
}

/// `d` without the zeros it ends with.
pub open spec fn without_trailing_zeros(d: Seq<u8>) -> Seq<u8>
    decreases d.len(),
{
    if d.len() > 0 && d.last() == 0 {
        without_trailing_zeros(d.drop_last())
    } else {
        d
    }
}

/// The number that the digits `d` spell, held at `EXPONENT_LIMIT`.
pub open spec fn exponent_of(d: Seq<u8>) -> int
    decreases d.len(),
{
    if d.len() == 0 {
        0
    } else {
        let v = exponent_of(d.drop_last()) * 10 + d.last() as int;
        if v > EXPONENT_LIMIT as int {
            EXPONENT_LIMIT as int
        } else {
            v
        }
    }
}

/// The exponent written after `e`: an optional sign, then one digit or more.
pub open spec fn signed_exponent(x: Seq<char>) -> Option<int> {
    let signed = x.len() > 0 && (x[0] == '+' || x[0] == '-');
    let ds = if signed {
        x.subrange(1, x.len() as int)
    } else {
        x
    };
    if ds.len() > 0 && all_digits(ds) {
        let e = exponent_of(digit_values(ds));
        Some(
            if signed && x[0] == '-' {
                -e
            } else {
                e
            },
        )
    } else {
        None
    }
}

/// The number `s` spells without its sign: digits with an optional point,
/// at least one digit in all, then an optional exponent.
pub open spec fn number_value(s: Seq<char>, negative: bool) -> Option<QualityView> {
    let marker = find(lower_e(s), 'e');
    let mantissa = match marker {
        Some(k) => s.subrange(0, k),
        None => s,
    };
    let exp = match marker {
        Some(k) => signed_exponent(s.subrange(k + 1, s.len() as int)),
        None => Some(0),
    };
    let whole = match find(mantissa, '.') {
        Some(p) => mantissa.subrange(0, p),
        None => mantissa,
    };
    let frac = match find(mantissa, '.') {
        Some(p) => mantissa.subrange(p + 1, mantissa.len() as int),
        None => Seq::<char>::empty(),
    };
    if all_digits(whole) && all_digits(frac) && whole.len() + frac.len() > 0 && exp is Some {
        let ds = digit_values(whole + frac);
        let lz = leading_zeros(ds);
        if lz == ds.len() {
            Some(QualityView::Finite { negative, digits: Seq::empty(), exponent: 0 })
        } else {
            Some(
                QualityView::Finite {
                    negative,
                    digits: without_trailing_zeros(ds.subrange(lz, ds.len() as int)),
                    exponent: whole.len() - lz + exp->Some_0,
                },
            )
        }
    } else {
        None
    }
}

/// The capital of each letter of `inf`, `infinity` and `nan`.
pub open spec fn capital(c: char) -> char {
    if c == 'i' {
        'I'
    } else if c == 'n' {
        'N'
    } else if c == 'f' {
        'F'
    } else if c == 't' {
        'T'
    } else if c == 'y' {
        'Y'
    } else if c == 'a' {
        'A'
    } else {
        c
    }
}

fn capital_of(c: char) -> (r: char)
    ensures
        r == capital(c),
{
    if c == 'i' {
        'I'
    } else if c == 'n' {
        'N'
    } else if c == 'f' {
        'F'
    } else if c == 't' {
        'T'
    } else if c == 'y' {
        'Y'
    } else if c == 'a' {
        'A'
    } else {
        c
    }
}

/// `s` is the lower-case word `w`, each letter in either case.
pub open spec fn same_word(s: Seq<char>, w: Seq<char>) -> bool {
    s.len() == w.len() && forall|i: int| 0 <= i < s.len() ==> s[i] == w[i] || s[i] == capital(w[i])
}

pub open spec fn word_inf() -> Seq<char> {
    seq!['i', 'n', 'f']
}

pub open spec fn word_infinity() -> Seq<char> {
    seq!['i', 'n', 'f', 'i', 'n', 'i', 't', 'y']
}

pub open spec fn word_nan() -> Seq<char> {
    seq!['n', 'a', 'n']
}

/// What the text `v` of a `q` parameter is worth, on the grammar of `f32`'s
/// parser: an optional sign, then `inf`, `infinity` or `nan` in any case,
/// or a number; nothing where `v` follows none of these.
pub open spec fn quality_value(v: Seq<char>) -> Option<QualityView> {
    let signed = v.len() > 0 && (v[0] == '+' || v[0] == '-');
    let negative = v.len() > 0 && v[0] == '-';
    let rest = if signed {
        v.subrange(1, v.len() as int)
    } else {
        v
    };
    if same_word(rest, word_inf()) || same_word(rest, word_infinity()) {
        Some(QualityView::Infinite { negative })
    } else if same_word(rest, word_nan()) {
        Some(QualityView::NotANumber { negative })
    } else {
        number_value(rest, negative)
    }
}

/// Whether `cs[lo..hi]` is the word `w`, in any case.
fn same_word_in(cs: &Vec<char>, lo: usize, hi: usize, w: &str) -> (r: bool)
    requires
        lo <= hi <= cs@.len(),
    ensures
        r == same_word(cs@.subrange(lo as int, hi as int), w@),
{
    let n = w.unicode_len();
    if hi - lo != n {
        return false;
    }
    let mut i: usize = 0;
    while i < n
        invariant
            i <= n,
            n == w@.len(),
            hi - lo == n,
            lo <= hi <= cs@.len(),
            forall|j: int| 0 <= j < i ==> cs@[lo + j] == w@[j] || cs@[lo + j] == capital(w@[j]),
        decreases n - i,
    {
        let c = cs[lo + i];
        let d = w.get_char(i);
        if c != d && c != capital_of(d) {
            assert(cs@.subrange(lo as int, hi as int)[i as int] == c);
            return false;
        }
        i = i + 1;
    }
    true
}

/// Whether every character of `cs[lo..hi]` is a decimal digit.
fn all_digits_in(cs: &Vec<char>, lo: usize, hi: usize) -> (r: bool)
    requires
        lo <= hi <= cs@.len(),
    ensures
        r == all_digits(cs@.subrange(lo as int, hi as int)),
{
    let mut i = lo;
    while i < hi
        invariant
            lo <= i <= hi <= cs@.len(),
            forall|j: int| lo <= j < i ==> is_digit(cs@[j]),
        decreases hi - i,
    {
        if cs[i] < '0' || cs[i] > '9' {
            assert(cs@.subrange(lo as int, hi as int)[i - lo] == cs@[i as int]);
            return false;
        }
        i = i + 1;
    }
    true
}

/// Appends the values of the digits `cs[lo..hi]` to `ds`.
fn push_digits(ds: &mut Vec<u8>, cs: &Vec<char>, lo: usize, hi: usize)
    requires
        lo <= hi <= cs@.len(),
        all_digits(cs@.subrange(lo as int, hi as int)),
    ensures
        final(ds)@ == old(ds)@ + digit_values(cs@.subrange(lo as int, hi as int)),
{
    let mut i = lo;
    while i < hi
        invariant
            lo <= i <= hi <= cs@.len(),
            all_digits(cs@.subrange(lo as int, hi as int)),
            ds@ == old(ds)@ + digit_values(cs@.subrange(lo as int, i as int)),
        decreases hi - i,
    {
        assert(cs@.subrange(lo as int, hi as int)[i - lo] == cs@[i as int]);
        let d = (cs[i] as u32 - '0' as u32) as u8;
        ds.push(d);
        assert(digit_values(cs@.subrange(lo as int, i + 1)) =~= digit_values(
            cs@.subrange(lo as int, i as int),
        ).push(d));
        i = i + 1;
    }
}

/// The exponent written in `cs[lo..hi]`, as `signed_exponent` states.
fn read_exponent(cs: &Vec<char>, lo: usize, hi: usize) -> (r: Option<i128>)
    requires
        lo <= hi <= cs@.len(),
    ensures
        match r {
            Some(e) => signed_exponent(cs@.subrange(lo as int, hi as int)) == Some(e as int)
                && -(EXPONENT_LIMIT as int) <= e <= EXPONENT_LIMIT,
            None => signed_exponent(cs@.subrange(lo as int, hi as int)) is None,
        },
{
    let ghost x = cs@.subrange(lo as int, hi as int);
    let signed = lo < hi && (cs[lo] == '+' || cs[lo] == '-');
    let minus = signed && cs[lo] == '-';
    let start = if signed {
        lo + 1
    } else {
        lo
    };
    assert(cs@.subrange(start as int, hi as int) =~= if signed {
        x.subrange(1, x.len() as int)
    } else {
        x
    });
    if start == hi || !all_digits_in(cs, start, hi) {
        return None;
    }
    let mut ds: Vec<u8> = Vec::new();
    push_digits(&mut ds, cs, start, hi);
    assert(ds@ =~= digit_values(cs@.subrange(start as int, hi as int)));
    let mut e: u64 = 0;
    let mut i: usize = 0;
    assert(ds@.subrange(0, 0) =~= Seq::<u8>::empty());
    while i < ds.len()
        invariant
            i <= ds@.len(),
            e as int == exponent_of(ds@.subrange(0, i as int)),
            e <= EXPONENT_LIMIT,
            forall|j: int| 0 <= j < ds@.len() ==> #[trigger] ds@[j] <= 9,
        decreases ds@.len() - i,
    {
        assert(ds@.subrange(0, i + 1).drop_last() =~= ds@.subrange(0, i as int));
        let v = e * 10 + ds[i] as u64;
        e = if v > EXPONENT_LIMIT {
            EXPONENT_LIMIT
        } else {
            v
        };
        i = i + 1;
    }
    assert(ds@.subrange(0, ds@.len() as int) =~= ds@);
    if minus {
        Some(-(e as i128))
    } else {
        Some(e as i128)
    }
}

/// The leading zeros of `ds`, counted, and the digits that follow them
/// without the trailing zeros.
fn significant_digits(ds: &Vec<u8>) -> (r: (usize, Vec<u8>))
    ensures
        r.0 as int == leading_zeros(ds@),
        r.0 <= ds@.len(),
        r.0 < ds@.len() ==> r.1@ == without_trailing_zeros(ds@.subrange(r.0 as int, ds@.len() as int)),
{
    let ghost all = ds@;
    let mut lz: usize = 0;
    assert(all.skip(0) =~= all);
    while lz < ds.len() && ds[lz] == 0
        invariant
            lz <= ds@.len(),
            ds@ == all,
            leading_zeros(all) == lz + leading_zeros(all.skip(lz as int)),
        decreases ds@.len() - lz,
    {
        assert(all.skip(lz as int).drop_first() =~= all.skip(lz + 1));
        lz = lz + 1;
    }
    if lz == ds.len() {
        assert(all.skip(lz as int).len() == 0);
        return (lz, Vec::new());
    }
    assert(all.skip(lz as int)[0] == all[lz as int]);
    let mut end = ds.len();
    while end > lz + 1 && ds[end - 1] == 0
        invariant
            lz < end <= ds@.len(),
            ds@ == all,
            without_trailing_zeros(all.subrange(lz as int, all.len() as int))
                == without_trailing_zeros(all.subrange(lz as int, end as int)),
        decreases end - lz,
    {
        assert(all.subrange(lz as int, end as int).drop_last() =~= all.subrange(
            lz as int,
            end - 1,
        ));
        end = end - 1;
    }
    assert(all.subrange(lz as int, end as int).last() == all[end - 1]);
    assert(all.subrange(lz as int, end as int).len() == 1 ==> all.subrange(lz as int, end as int).last() == all[lz as int]);
    let mut digits: Vec<u8> = Vec::new();
    let mut i = lz;
    while i < end
        invariant
            lz <= i <= end <= ds@.len(),
            ds@ == all,
            digits@ == all.subrange(lz as int, i as int),
        decreases end - i,
    {
        digits.push(ds[i]);
        assert(all.subrange(lz as int, i + 1) =~= all.subrange(lz as int, i as int).push(
            all[i as int],
        ));
        i = i + 1;
    }
    (lz, digits)
}

/// Reads the number `cs[lo..hi]`, without its sign, as `number_value`
/// states.
fn read_number(cs: &Vec<char>, lo: usize, hi: usize, negative: bool) -> (r: Option<Quality>)
    requires
        lo <= hi <= cs@.len(),
    ensures
        match r {
            Some(q) => number_value(cs@.subrange(lo as int, hi as int), negative) == Some(q@),
            None => number_value(cs@.subrange(lo as int, hi as int), negative) is None,
        },
{
    let ghost s = cs@.subrange(lo as int, hi as int);
    let mut k = lo;
    while k < hi && cs[k] != 'e' && cs[k] != 'E'
        invariant
            lo <= k <= hi <= cs@.len(),
            forall|j: int| lo <= j < k ==> cs@[j] != 'e' && cs@[j] != 'E',
        decreases hi - k,
    {
        k = k + 1;
    }
    proof {
        let l = lower_e(s);
        assert forall|j: int| 0 <= j < k - lo implies l[j] != 'e' by {
            assert(s[j] == cs@[lo + j]);
        }
        if k < hi {
            assert(s[k - lo] == cs@[k as int]);
            lemma_find_first(l, 'e', k - lo);
            assert(s.subrange(0, k - lo) =~= cs@.subrange(lo as int, k as int));
            assert(s.subrange(k - lo + 1, s.len() as int) =~= cs@.subrange(k + 1, hi as int));
        } else {
            lemma_find_none(l, 'e');
            assert(s =~= cs@.subrange(lo as int, k as int));
        }
    }
    let e = if k < hi {
        match read_exponent(cs, k + 1, hi) {
            Some(e) => e,
            None => return None,
        }
    } else {
        0
    };
    let ghost mantissa = cs@.subrange(lo as int, k as int);
    let (wend, fstart) = match find_in(cs, lo, k, '.') {
        Some(p) => (p, p + 1),
        None => (k, k),
    };
    proof {
        if wend < k {
            assert(mantissa.subrange(0, wend - lo) =~= cs@.subrange(lo as int, wend as int));
            assert(mantissa.subrange(wend - lo + 1, mantissa.len() as int) =~= cs@.subrange(
                fstart as int,
                k as int,
            ));
        } else {
            assert(mantissa =~= cs@.subrange(lo as int, wend as int));
            assert(cs@.subrange(fstart as int, k as int) =~= Seq::<char>::empty());
        }
    }
    if !all_digits_in(cs, lo, wend) || !all_digits_in(cs, fstart, k) || (wend - lo) + (k - fstart)
        == 0 {
        return None;
    }
    let ghost whole = cs@.subrange(lo as int, wend as int);
    let ghost frac = cs@.subrange(fstart as int, k as int);
    let mut ds: Vec<u8> = Vec::new();
    push_digits(&mut ds, cs, lo, wend);
    push_digits(&mut ds, cs, fstart, k);
    assert(ds@ =~= digit_values(whole + frac));
    let (lz, digits) = significant_digits(&ds);
    if lz == ds.len() {
        return Some(Quality::Finite { negative, digits: Vec::new(), exponent: 0 });
    }
    let exponent = (wend - lo) as i128 - lz as i128 + e;
    Some(Quality::Finite { negative, digits, exponent })
}

/// Reads the quality value `cs[lo..hi]`, as `quality_value` states.
pub fn parse_quality(cs: &Vec<char>, lo: usize, hi: usize) -> (r: Option<Quality>)
    requires
        lo <= hi <= cs@.len(),
    ensures
        match r {
            Some(q) => quality_value(cs@.subrange(lo as int, hi as int)) == Some(q@),
            None => quality_value(cs@.subrange(lo as int, hi as int)) is None,
        },
{
    let ghost v = cs@.subrange(lo as int, hi as int);
    let signed = lo < hi && (cs[lo] == '+' || cs[lo] == '-');
    let negative = lo < hi && cs[lo] == '-';
    let start = if signed {
        lo + 1
    } else {
        lo
    };
    assert(cs@.subrange(start as int, hi as int) =~= if signed {
        v.subrange(1, v.len() as int)
    } else {
        v
    });
    proof {
        reveal_strlit("inf");
        reveal_strlit("infinity");
        reveal_strlit("nan");
    }
    assert("inf"@ =~= word_inf());
    assert("infinity"@ =~= word_infinity());
    assert("nan"@ =~= word_nan());
    if same_word_in(cs, start, hi, "inf") || same_word_in(cs, start, hi, "infinity") {
        return Some(Quality::Infinite { negative });
    }
    if same_word_in(cs, start, hi, "nan") {
        return Some(Quality::NotANumber { negative });
    }
    read_number(cs, start, hi, negative)
}

/// The quality value that `s` spells, if any: the text of a `q` parameter.
pub fn parse_quality_str(s: &str) -> (r: Option<Quality>)
    ensures
        match r {
            Some(q) => quality_value(s@) == Some(q@),
            None => quality_value(s@) is None,
        },
{
    let cs = chars_of(s);
    assert(cs@.subrange(0, cs@.len() as int) =~= s@);
    parse_quality(&cs, 0, cs.len())
}

impl Quality {
    /// The quality 1, that of an entry without `q`.
    pub fn one() -> (r: Quality)
        ensures
            r@ == quality_one(),
    {
        let mut digits: Vec<u8> = Vec::new();
        digits.push(1u8);
        assert(digits@ =~= seq![1u8]);
        Quality::Finite { negative: false, digits, exponent: 1 }
    }
}

} // verus!

//! Header entries made of one token and at most one parameter, `q`: the
//! shape of `Accept-Encoding` and `Accept-Language` entries.
use vstd::prelude::*;
use crate::error::Error;
use crate::text::{
    split, trim, find, single, pieces, ranges_within, chars_of, string_of, split_ranges,
    trim_range, find_in, is_single, lemma_split_nonempty,
};
use crate::quality::{Quality, QualityView, quality_one, quality_value, parse_quality};

verus! {

/// The quality that the parameter pieces `params` give: 1 where there are
/// none; otherwise there must be exactly one, `q=value`.
pub open spec fn q_only_spec(params: Seq<Seq<char>>) -> Result<QualityView, Error> {
    if params.len() == 0 {
        Ok(quality_one())
    } else {
        let first = trim(params[0]);
        match find(first, '=') {
            None => Err(Error::InvalidHeader),
            Some(k) => if first.subrange(0, k) != single('q') || params.len() > 1 {
                Err(Error::ParamsNotAllowed)
            } else {
                match quality_value(first.subrange(k + 1, first.len() as int)) {
                    Some(q) => Ok(q),
                    None => Err(Error::InvalidQuality),
                }
            },
        }
    }
}

/// What reading the entry `raw` gives: its token, trimmed and not empty,
/// and its quality.
pub open spec fn token_entry_spec(raw: Seq<char>) -> Result<(Seq<char>, QualityView), Error> {
    let parts = split(raw, ';');
    let token = trim(parts[0]);
    if token.len() == 0 {
        Err(Error::InvalidHeader)
    } else {
        match q_only_spec(parts.subrange(1, parts.len() as int)) {
            Ok(q) => Ok((token, q)),
            Err(e) => Err(e),
        }
    }
}

/// Reads the entry `raw`, as `token_entry_spec` states.
pub fn parse_token_entry(raw: &str) -> (r: Result<(String, Quality), Error>)
    ensures
        match r {
            Ok((t, q)) => token_entry_spec(raw@) == Ok::<(Seq<char>, QualityView), Error>((t@, q@)),
            Err(e) => token_entry_spec(raw@) == Err::<(Seq<char>, QualityView), Error>(e),
        },
{
    let cs = chars_of(raw);
    let ghost parts = split(raw@, ';');
    assert(cs@.subrange(0, cs@.len() as int) =~= raw@);
    let ranges = split_ranges(&cs, 0, cs.len(), ';');
    proof {
        lemma_split_nonempty(raw@, ';');
        assert(ranges_within(ranges@, 0, cs@.len() as int));
        assert(pieces(cs@, ranges@)[0] == parts[0]);
    }
    let (lo, hi) = ranges[0];
    let (a, b) = trim_range(&cs, lo, hi);
    if a == b {
        return Err(Error::InvalidHeader);
    }
    let token = string_of(raw, a, b);
    let ghost params = parts.subrange(1, parts.len() as int);
    if ranges.len() == 1 {
        assert(params.len() == 0);
        return Ok((token, Quality::one()));
    }
    let (plo, phi) = ranges[1];
    proof {
        assert(ranges@[1] == (plo, phi));
        assert(cs@.subrange(plo as int, phi as int) == params[0]);
    }
    let (pa, pb) = trim_range(&cs, plo, phi);
    let eq = match find_in(&cs, pa, pb, '=') {
        Some(e) => e,
        None => return Err(Error::InvalidHeader),
    };
    let ghost first = trim(params[0]);
    assert(cs@.subrange(pa as int, eq as int) =~= first.subrange(0, eq - pa));
    assert(cs@.subrange(eq + 1, pb as int) =~= first.subrange(eq - pa + 1, first.len() as int));
    if !is_single(&cs, pa, eq, 'q') || ranges.len() > 2 {
        return Err(Error::ParamsNotAllowed);
    }
    match parse_quality(&cs, eq + 1, pb) {
        Some(q) => Ok((token, q)),
        None => Err(Error::InvalidQuality),
    }
}

/// Whether the parameter piece `p` is `q=...`: its key, trimmed, is `q`.
pub open spec fn is_q_param(p: Seq<char>) -> bool {
    let t = trim(p);
    match find(t, '=') {
        Some(k) => trim(t.subrange(0, k)) == single('q'),
        None => false,
    }
}

/// The error for a supported token that carries parameters: a lone `q`
/// is a quality, which a supported value may not have; anything else is a
/// parameter, which it may not have either.
pub open spec fn supported_params_error(raw: Seq<char>) -> Error {
    let parts = split(raw, ';');
    if parts.len() == 2 && is_q_param(parts[1]) {
        Error::QualityNotAllowed
    } else {
        Error::ParamsNotAllowed
    }
}

/// The error for the supported token `raw` that carries parameters, as
/// `supported_params_error` states.
pub fn supported_params_error_of(raw: &str) -> (r: Error)
    ensures
        r == supported_params_error(raw@),
{
    let cs = chars_of(raw);
    let ghost parts = split(raw@, ';');
    assert(cs@.subrange(0, cs@.len() as int) =~= raw@);
    let ranges = split_ranges(&cs, 0, cs.len(), ';');
    if ranges.len() != 2 {
        return Error::ParamsNotAllowed;
    }
    let (plo, phi) = ranges[1];
    proof {
        assert(ranges_within(ranges@, 0, cs@.len() as int));
        assert(ranges@[1] == (plo, phi));
        assert(cs@.subrange(plo as int, phi as int) == parts[1]);
    }
    let (a, b) = trim_range(&cs, plo, phi);
    let ghost t = trim(parts[1]);
    match find_in(&cs, a, b, '=') {
        None => Error::ParamsNotAllowed,
        Some(e) => {
            assert(cs@.subrange(a as int, e as int) =~= t.subrange(0, e - a));
            let (ka, kb) = trim_range(&cs, a, e);
            if is_single(&cs, ka, kb, 'q') {
                Error::QualityNotAllowed
            } else {
                Error::ParamsNotAllowed
            }
        },
    }
}

} // verus!

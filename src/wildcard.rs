//! A header-side value that is either a specific token or the wildcard `*`.
use vstd::prelude::*;
use crate::text::{single, is_single_str};

verus! {

/// A specific value, or the wildcard `*` that stands for any value.
#[derive(Clone, Debug, PartialEq)]
pub enum MaybeWildcard<T> {
    Specific(T),
    Wildcard,
}

impl<T: View> View for MaybeWildcard<T> {
    type V = MaybeWildcard<T::V>;

    open spec fn view(&self) -> MaybeWildcard<T::V> {
        match self {
            MaybeWildcard::Specific(t) => MaybeWildcard::Specific(t@),
            MaybeWildcard::Wildcard => MaybeWildcard::Wildcard,
        }
    }
}

/// The token `*` is the wildcard; any other token stands for itself.
pub open spec fn wildcard_of(s: Seq<char>) -> MaybeWildcard<Seq<char>> {
    if s == single('*') {
        MaybeWildcard::Wildcard
    } else {
        MaybeWildcard::Specific(s)
    }
}

/// A specific value matches itself alone; the wildcard matches anything.
pub open spec fn wildcard_matches(w: MaybeWildcard<Seq<char>>, s: Seq<char>) -> bool {
    match w {
        MaybeWildcard::Specific(t) => t == s,
        MaybeWildcard::Wildcard => true,
    }
}

impl MaybeWildcard<String> {
    /// Reads a token: `*` gives the wildcard.
    pub fn from_str(input: String) -> (r: MaybeWildcard<String>)
        ensures
            r@ == wildcard_of(input@),
    {
        if is_single_str(input.as_str(), '*') {
            MaybeWildcard::Wildcard
        } else {
            MaybeWildcard::Specific(input)
        }
    }

    /// Whether `other` is accepted: it equals the specific value, or this is
    /// the wildcard.
    pub fn matches(&self, other: &String) -> (r: bool)
        ensures
            r == wildcard_matches(self@, other@),
    {
        match self {
            MaybeWildcard::Specific(s) => *s == *other,
            MaybeWildcard::Wildcard => true,
        }
    }

    /// Whether this is the wildcard.
    pub fn is_wildcard(&self) -> (r: bool)
        ensures
            r == (self@ is Wildcard),
    {
        match self {
            MaybeWildcard::Specific(_) => false,
            MaybeWildcard::Wildcard => true,
        }
    }
}

} // verus!

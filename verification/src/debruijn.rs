//! Two ways of naming a variable: a de Bruijn index counts outward from the
//! nearest binder; a de Bruijn level counts inward from the outermost
//! variable of a context.
use vstd::prelude::*;
use std::cmp::Ordering;

verus! {

/// A de Bruijn index: zero names the nearest enclosing binder.
#[derive(Clone, Copy, Debug, PartialEq, Eq, Hash, Structural)]
pub struct DeBruijnIndex(pub(crate) usize);

/// A de Bruijn level: zero names the outermost variable in a context.
/// Levels are ordered by their numbers.
#[derive(Clone, Copy, Debug, PartialEq, Eq, Hash, Structural, Ord)]
pub struct DeBruijnLevel(pub(crate) usize);

impl View for DeBruijnIndex {
    type V = usize;

    closed spec fn view(&self) -> usize {
        self.0
    }
}

impl View for DeBruijnLevel {
    type V = usize;

    closed spec fn view(&self) -> usize {
        self.0
    }
}

impl DeBruijnIndex {
    pub fn new(index: usize) -> (r: Self)
        ensures
            r@ == index,
    {
        DeBruijnIndex(index)
    }

    pub fn get(self) -> (r: usize)
        ensures
            r == self@,
    {
        self.0
    }

    /// The level that this index names in a context of `context_len`
    /// variables, if the index lies inside that context.
    pub fn to_level(self, context_len: usize) -> (r: Option<DeBruijnLevel>)
        ensures
            r is Some <==> self@ < context_len,
            r matches Some(level) ==> level@ == context_len - 1 - self@,
    {
        let next = self.0.checked_add(1);
        match next {
            None => None,
            Some(n) => match context_len.checked_sub(n) {
                None => None,
                Some(level) => Some(DeBruijnLevel(level)),
            },
        }
    }
}

/// An index is its number.
pub proof fn lemma_index_view_injective(a: DeBruijnIndex, b: DeBruijnIndex)
    requires
        a@ == b@,
    ensures
        a == b,
{
}

/// A level is its number.
pub proof fn lemma_level_view_injective(a: DeBruijnLevel, b: DeBruijnLevel)
    requires
        a@ == b@,
    ensures
        a == b,
{
}

impl PartialOrd for DeBruijnLevel {
    fn partial_cmp(&self, other: &Self) -> (r: Option<Ordering>) {
        if self.0 < other.0 {
            Some(Ordering::Less)
        } else if self.0 == other.0 {
            Some(Ordering::Equal)
        } else {
            Some(Ordering::Greater)
        }
    }
}

impl vstd::std_specs::cmp::PartialOrdSpecImpl for DeBruijnLevel {
    open spec fn obeys_partial_cmp_spec() -> bool {
        true
    }

    open spec fn partial_cmp_spec(&self, other: &Self) -> Option<Ordering> {
        if self@ < other@ {
            Some(Ordering::Less)
        } else if self@ == other@ {
            Some(Ordering::Equal)
        } else {
            Some(Ordering::Greater)
        }
    }
}

impl DeBruijnLevel {
    pub fn new(level: usize) -> (r: Self)
        ensures
            r@ == level,
    {
        DeBruijnLevel(level)
    }

    pub fn get(self) -> (r: usize)
        ensures
            r == self@,
    {
        self.0
    }
}

impl From<usize> for DeBruijnIndex {
    fn from(index: usize) -> (r: Self)
        ensures
            r@ == index,
    {
        DeBruijnIndex(index)
    }
}

impl vstd::std_specs::convert::FromSpecImpl<usize> for DeBruijnIndex {
    open spec fn obeys_from_spec() -> bool {
        true
    }

    closed spec fn from_spec(index: usize) -> Self {
        DeBruijnIndex(index)
    }
}

impl From<usize> for DeBruijnLevel {
    fn from(level: usize) -> (r: Self)
        ensures
            r@ == level,
    {
        DeBruijnLevel(level)
    }
}

impl vstd::std_specs::convert::FromSpecImpl<usize> for DeBruijnLevel {
    open spec fn obeys_from_spec() -> bool {
        true
    }

    closed spec fn from_spec(level: usize) -> Self {
        DeBruijnLevel(level)
    }
}

} // verus!

//! Inline storage of a state set's variables, kept in a `smallvec::SmallVec`.
use vstd::prelude::*;
use crate::var::Var;
use smallvec::SmallVec;

verus! {

/// The variables of a state set, held in a `SmallVec` with room for sixteen
/// of them inline. Contracts speak only of the sequence of variables it holds.
#[verifier::external_body]
pub struct VarStore {
    inner: SmallVec<[Var; 16]>,
}

/// The variables that a `VarStore` holds, in order.
pub uninterp spec fn var_store_contents(store: VarStore) -> Seq<Var>;

impl View for VarStore {
    type V = Seq<Var>;

    open spec fn view(&self) -> Seq<Var> {
        var_store_contents(*self)
    }
}

impl VarStore {
    /// `SmallVec::from_slice`: a store holding a copy of the given slice.
    #[verifier::external_body]
    pub(crate) fn from_slice(vars: &[Var]) -> (r: VarStore)
        ensures
            var_store_contents(r) == vars@,
    {
        VarStore { inner: SmallVec::from_slice(vars) }
    }

    /// `SmallVec::len`: the number of variables held.
    #[verifier::external_body]
    pub(crate) fn len(&self) -> (r: usize)
        ensures
            r == var_store_contents(*self).len(),
    {
        self.inner.len()
    }

    /// Indexing a `SmallVec`: the variable at `index`.
    #[verifier::external_body]
    pub(crate) fn get(&self, index: usize) -> (r: Var)
        requires
            index < self@.len(),
        ensures
            r == var_store_contents(*self)[index as int],
    {
        self.inner[index]
    }

    /// Assignment through `IndexMut` of a `SmallVec`.
    #[verifier::external_body]
    pub(crate) fn set(&mut self, index: usize, value: Var)
        requires
            index < old(self)@.len(),
        ensures
            var_store_contents(*final(self)) == var_store_contents(*old(self)).update(index as int, value),
    {
        self.inner[index] = value;
    }

    /// `SmallVec::clone`: a store holding the same variables.
    #[verifier::external_body]
    pub(crate) fn duplicate(&self) -> (r: VarStore)
        ensures
            var_store_contents(r) == var_store_contents(*self),
    {
        VarStore { inner: self.inner.clone() }
    }

    /// `==` on `SmallVec`s: the same length and equal variables at each index.
    #[verifier::external_body]
    pub(crate) fn same_as(&self, other: &VarStore) -> (r: bool)
        ensures
            r == (var_store_contents(*self) == var_store_contents(*other)),
    {
        self.inner == other.inner
    }
}

} // verus!

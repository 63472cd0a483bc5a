//! State sets: predicates over the memory variables of a protocol, one
//! three-valued variable per memory cell.
use vstd::prelude::*;
use crate::var::{Var, Order, var_order, var_neg};
use core::ops::Neg;
use crate::var_store::VarStore;

verus! {

/// Number of memory variables that a rule-based port automaton tracks.
pub const STATE_LEN: usize = 3;

/// A set of memory states, written as one `Var` per memory cell.
pub struct StateSet {
    predicate: VarStore,
}

impl View for StateSet {
    type V = Seq<Var>;

    closed spec fn view(&self) -> Seq<Var> {
        self.predicate@
    }
}

pub open spec fn min_len(a: int, b: int) -> int {
    if a <= b { a } else { b }
}

/// Some position below `k` of the common prefix holds incomparable variables.
pub open spec fn has_incomparable(a: Seq<Var>, b: Seq<Var>, k: int) -> bool {
    exists|i: int| 0 <= i < k && #[trigger] var_order(a[i], b[i]) is None
}

/// Some position below `k` holds a strictly less specific variable in `a` than in `b`.
pub open spec fn has_less(a: Seq<Var>, b: Seq<Var>, k: int) -> bool {
    exists|i: int| 0 <= i < k && #[trigger] var_order(a[i], b[i]) == Some(Order::Less)
}

/// Some position below `k` holds a strictly more specific variable in `a` than in `b`.
pub open spec fn has_greater(a: Seq<Var>, b: Seq<Var>, k: int) -> bool {
    exists|i: int| 0 <= i < k && #[trigger] var_order(a[i], b[i]) == Some(Order::Greater)
}

/// The specificity order of the first `k` positions of two state sets:
/// `Less` when `a` is nowhere more specific and somewhere less specific, and so on;
/// `None` when some position is incomparable or the two directions both occur.
pub open spec fn prefix_order(a: Seq<Var>, b: Seq<Var>, k: int) -> Option<Order> {
    if has_incomparable(a, b, k) || (has_less(a, b, k) && has_greater(a, b, k)) {
        None
    } else if has_less(a, b, k) {
        Some(Order::Less)
    } else if has_greater(a, b, k) {
        Some(Order::Greater)
    } else {
        Some(Order::Equal)
    }
}

/// The specificity order of two state sets over the positions they share.
pub open spec fn state_order(a: Seq<Var>, b: Seq<Var>) -> Option<Order> {
    prefix_order(a, b, min_len(a.len() as int, b.len() as int))
}

/// `s` with every generic position that `other` specifies taken from `other`.
pub open spec fn specific_wrt(s: Seq<Var>, other: Seq<Var>) -> Seq<Var> {
    Seq::new(
        s.len(),
        |i: int| if i < other.len() && s[i] == Var::X { other[i] } else { s[i] },
    )
}

/// The sister sets of `s` among its first `k` positions: for each specific
/// position, `s` with that variable negated, in order of position.
pub open spec fn sisters_upto(s: Seq<Var>, k: nat) -> Seq<Seq<Var>>
    decreases k,
{
    if k == 0 {
        Seq::empty()
    } else {
        let prev = sisters_upto(s, (k - 1) as nat);
        let i = k - 1;
        if s[i] == Var::X {
            prev
        } else {
            prev.push(s.update(i, var_neg(s[i])))
        }
    }
}

proof fn lemma_prefix_none_stays(a: Seq<Var>, b: Seq<Var>, k: int, m: int)
    requires
        0 <= k <= m,
        prefix_order(a, b, k) is None,
    ensures
        prefix_order(a, b, m) is None,
{
    if has_incomparable(a, b, k) {
        let i = choose|i: int| 0 <= i < k && #[trigger] var_order(a[i], b[i]) is None;
        assert(0 <= i < m && var_order(a[i], b[i]) is None);
    } else {
        let i = choose|i: int| 0 <= i < k && #[trigger] var_order(a[i], b[i]) == Some(Order::Less);
        let j = choose|j: int| 0 <= j < k && #[trigger] var_order(a[j], b[j]) == Some(Order::Greater);
        assert(0 <= i < m && var_order(a[i], b[i]) == Some(Order::Less));
        assert(0 <= j < m && var_order(a[j], b[j]) == Some(Order::Greater));
    }
}

impl Clone for StateSet {
    fn clone(&self) -> (r: Self)
        ensures
            r@ == self@,
    {
        self.duplicate()
    }
}

impl StateSet {
    /// A state set with the given variables.
    pub fn from_vars(vars: &[Var]) -> (r: StateSet)
        ensures
            r@ == vars@,
    {
        StateSet { predicate: VarStore::from_slice(vars) }
    }

    /// Number of variables in the set's predicate.
    pub fn len(&self) -> (r: usize)
        ensures
            r == self@.len(),
    {
        self.predicate.len()
    }

    /// The variable at `index`.
    pub fn get(&self, index: usize) -> (r: Var)
        requires
            index < self@.len(),
        ensures
            r == self@[index as int],
    {
        self.predicate.get(index)
    }

    /// Overwrites the variable at `index`.
    pub fn set(&mut self, index: usize, value: Var)
        requires
            index < old(self)@.len(),
        ensures
            final(self)@ == old(self)@.update(index as int, value),
    {
        self.predicate.set(index, value);
    }

    /// A copy of this state set.
    pub fn duplicate(&self) -> (r: StateSet)
        ensures
            r@ == self@,
    {
        StateSet { predicate: self.predicate.duplicate() }
    }

    /// Whether the two sets have the same predicate.
    pub fn same_as(&self, other: &StateSet) -> (r: bool)
        ensures
            r == (self@ == other@),
    {
        self.predicate.same_as(&other.predicate)
    }

    /// The variables of the predicate, in order.
    pub fn iter(&self) -> (r: Vec<Var>)
        ensures
            r@ == self@,
    {
        let n = self.len();
        let mut out: Vec<Var> = Vec::new();
        for i in 0..n
            invariant
                n == self@.len(),
                out@ == self@.subrange(0, i as int),
        {
            out.push(self.get(i));
            assert(out@ == self@.subrange(0, i + 1));
        }
        assert(self@.subrange(0, n as int) == self@);
        out
    }

    /// Compares two state sets by specificity over their common positions.
    pub fn compare(&self, rhs: &StateSet) -> (r: Option<Order>)
        ensures
            r == state_order(self@, rhs@),
    {
        let n = if self.len() <= rhs.len() { self.len() } else { rhs.len() };
        let mut o = Order::Equal;
        let mut i: usize = 0;
        while i < n
            invariant
                n == min_len(self@.len() as int, rhs@.len() as int),
                0 <= i <= n,
                prefix_order(self@, rhs@, i as int) == Some(o),
            decreases n - i,
        {
            let a = self.get(i);
            let b = rhs.get(i);
            let c = a.order(b);
            assert(c == var_order(a, b));
            let ghost a_s = self@;
            let ghost b_s = rhs@;
            match c {
                None => {
                    assert(has_incomparable(a_s, b_s, i + 1));
                    proof { lemma_prefix_none_stays(a_s, b_s, i + 1, n as int); }
                    return None;
                },
                Some(Order::Less) => {
                    assert(has_less(a_s, b_s, i + 1));
                    match o {
                        Order::Equal => {
                            o = Order::Less;
                        },
                        Order::Less => {},
                        Order::Greater => {
                            let ghost j = choose|j: int| 0 <= j < i && #[trigger] var_order(a_s[j], b_s[j]) == Some(Order::Greater);
                            assert(0 <= j < i + 1 && var_order(a_s[j], b_s[j]) == Some(Order::Greater));
                            proof { lemma_prefix_none_stays(a_s, b_s, i + 1, n as int); }
                            return None;
                        },
                    }
                },
                Some(Order::Greater) => {
                    assert(has_greater(a_s, b_s, i + 1));
                    match o {
                        Order::Equal => {
                            o = Order::Greater;
                        },
                        Order::Greater => {},
                        Order::Less => {
                            let ghost j = choose|j: int| 0 <= j < i && #[trigger] var_order(a_s[j], b_s[j]) == Some(Order::Less);
                            assert(0 <= j < i + 1 && var_order(a_s[j], b_s[j]) == Some(Order::Less));
                            proof { lemma_prefix_none_stays(a_s, b_s, i + 1, n as int); }
                            return None;
                        },
                    }
                },
                Some(Order::Equal) => {},
            }
            proof {
                assert forall|j: int| 0 <= j < i + 1 implies
                    (var_order(a_s[j], b_s[j]) is None ==> j < i)
                    && (var_order(a_s[j], b_s[j]) == Some(Order::Less) ==> (j < i || c == Some(Order::Less)))
                    && (var_order(a_s[j], b_s[j]) == Some(Order::Greater) ==> (j < i || c == Some(Order::Greater)))
                by {}
                if has_less(a_s, b_s, i + 1) && !has_less(a_s, b_s, i as int) {
                    assert(c == Some(Order::Less));
                }
                if has_greater(a_s, b_s, i + 1) && !has_greater(a_s, b_s, i as int) {
                    assert(c == Some(Order::Greater));
                }
                if has_incomparable(a_s, b_s, i + 1) {
                    let j = choose|j: int| 0 <= j < i + 1 && #[trigger] var_order(a_s[j], b_s[j]) is None;
                    assert(0 <= j < i && var_order(a_s[j], b_s[j]) is None);
                }
                if has_less(a_s, b_s, i as int) {
                    let j = choose|j: int| 0 <= j < i && #[trigger] var_order(a_s[j], b_s[j]) == Some(Order::Less);
                    assert(0 <= j < i + 1 && var_order(a_s[j], b_s[j]) == Some(Order::Less));
                }
                if has_greater(a_s, b_s, i as int) {
                    let j = choose|j: int| 0 <= j < i && #[trigger] var_order(a_s[j], b_s[j]) == Some(Order::Greater);
                    assert(0 <= j < i + 1 && var_order(a_s[j], b_s[j]) == Some(Order::Greater));
                }
                if has_less(a_s, b_s, i + 1) && c != Some(Order::Less) {
                    let j = choose|j: int| 0 <= j < i + 1 && #[trigger] var_order(a_s[j], b_s[j]) == Some(Order::Less);
                    assert(0 <= j < i && var_order(a_s[j], b_s[j]) == Some(Order::Less));
                }
                if has_greater(a_s, b_s, i + 1) && c != Some(Order::Greater) {
                    let j = choose|j: int| 0 <= j < i + 1 && #[trigger] var_order(a_s[j], b_s[j]) == Some(Order::Greater);
                    assert(0 <= j < i && var_order(a_s[j], b_s[j]) == Some(Order::Greater));
                }
            }
            i = i + 1;
        }
        Some(o)
    }

    /// Where this set is generic and `other` is specific, copies `other`'s value.
    pub fn make_specific_wrt(&mut self, other: &StateSet)
        ensures
            final(self)@ == specific_wrt(old(self)@, other@),
    {
        let n = if self.len() <= other.len() { self.len() } else { other.len() };
        let ghost start = self@;
        let mut i: usize = 0;
        while i < n
            invariant
                n == min_len(start.len() as int, other@.len() as int),
                0 <= i <= n,
                self@.len() == start.len(),
                forall|j: int| 0 <= j < i ==> #[trigger] self@[j] == specific_wrt(start, other@)[j],
                forall|j: int| i <= j < start.len() ==> #[trigger] self@[j] == start[j],
            decreases n - i,
        {
            let s = self.get(i);
            let o = other.get(i);
            if s == Var::X && o != Var::X {
                self.set(i, o);
            }
            i = i + 1;
        }
        assert(self@ == specific_wrt(start, other@));
    }

    /// For each specific position among the first `STATE_LEN`, this set with
    /// that variable negated.
    pub fn sisters(&self) -> (r: Vec<StateSet>)
        requires
            self@.len() >= STATE_LEN,
        ensures
            r@.len() == sisters_upto(self@, STATE_LEN as nat).len(),
            forall|k: int| 0 <= k < r@.len() ==> #[trigger] r@[k]@ == sisters_upto(self@, STATE_LEN as nat)[k],
    {
        let mut out: Vec<StateSet> = Vec::new();
        for i in 0..STATE_LEN
            invariant
                self@.len() >= STATE_LEN,
                out@.len() == sisters_upto(self@, i as nat).len(),
                forall|k: int| 0 <= k < out@.len() ==> #[trigger] out@[k]@ == sisters_upto(self@, i as nat)[k],
        {
            let v = self.get(i).neg();
            match v {
                Var::X => {},
                _ => {
                    let mut x = self.duplicate();
                    x.set(i, v);
                    out.push(x);
                },
            }
        }
        out
    }
}

} // verus!

//! Abstract rules of a rule-based port automaton: a guard on the memory
//! state, an optional port, and an assignment to the memory state.
use vstd::prelude::*;
use crate::{PortId, AbstractRuleId};
use crate::var::{Var, Order, var_order, var_le};
use crate::state_set::{StateSet, state_order, specific_wrt, min_len};

verus! {

/// The mathematical content of an abstract rule.
#[verifier::ext_equal]
pub struct RuleView {
    pub guard: Seq<Var>,
    pub port: Option<PortId>,
    pub assign: Seq<Var>,
    pub ids: Seq<AbstractRuleId>,
}

/// A transition of a port automaton. Invariant (kept by `new` and by every
/// operation of this crate): an `X` in the assignment implies an `X` in the
/// guard at the same position.
pub struct AbstractRule {
    guard: StateSet,
    port: Option<PortId>,
    assign: StateSet,
    ids: Vec<AbstractRuleId>,
}

impl View for AbstractRule {
    type V = RuleView;

    closed spec fn view(&self) -> RuleView {
        RuleView { guard: self.guard@, port: self.port, assign: self.assign@, ids: self.ids@ }
    }
}

pub open spec fn min3(a: int, b: int, c: int) -> int {
    min_len(min_len(a, b), c)
}

/// The rule invariant: wherever both are defined, a generic assignment
/// comes with a generic guard.
pub open spec fn rule_wf(r: RuleView) -> bool {
    forall|i: int|
        0 <= i < min_len(r.guard.len() as int, r.assign.len() as int) && #[trigger] r.assign[i] == Var::X
            ==> r.guard[i] == Var::X
}

/// The rule that `AbstractRule::new` builds.
pub open spec fn rule_new(guard: Seq<Var>, port: Option<PortId>, assign: Seq<Var>, ids: Seq<AbstractRuleId>) -> RuleView {
    RuleView { guard, port, assign: specific_wrt(assign, guard), ids }
}

/// The new value of one variable when a rule with guard `g` and assignment
/// `a` fires on a state where the variable is `r`.
pub open spec fn apply_var(g: Var, a: Var, r: Var) -> Var {
    if a != Var::X {
        a
    } else if g != Var::X {
        g
    } else {
        r
    }
}

/// Number of positions a rule and a state set share.
pub open spec fn apply_len(r: RuleView, s: Seq<Var>) -> int {
    min3(r.guard.len() as int, r.assign.len() as int, s.len() as int)
}

/// The guard of `r` is satisfied by `s` on the shared positions.
pub open spec fn guard_admits(r: RuleView, s: Seq<Var>) -> bool {
    forall|i: int| 0 <= i < apply_len(r, s) ==> var_order(#[trigger] r.guard[i], s[i]) is Some
}

/// The state set that results from firing `r` on `s`, or `None` where the
/// guard is not satisfied.
pub open spec fn rule_apply(r: RuleView, s: Seq<Var>) -> Option<Seq<Var>> {
    if guard_admits(r, s) {
        Some(Seq::new(s.len(), |i: int| if i < apply_len(r, s) { apply_var(r.guard[i], r.assign[i], s[i]) } else { s[i] }))
    } else {
        None
    }
}

/// The rule leaves memory unchanged and involves no port.
pub open spec fn rule_no_effect(r: RuleView) -> bool {
    &&& r.port is None
    &&& forall|i: int| 0 <= i < min_len(r.guard.len() as int, r.assign.len() as int)
            ==> var_le(#[trigger] r.assign[i], r.guard[i])
}

/// `first` can be followed by `second`: the assignment of `first` does not
/// contradict the guard of `second`, and at most one of them has a port.
pub open spec fn rule_can_precede(first: RuleView, second: RuleView) -> bool {
    &&& forall|i: int| 0 <= i < min_len(first.assign.len() as int, second.guard.len() as int)
            ==> var_order(#[trigger] first.assign[i], second.guard[i]) is Some
    &&& !(first.port is Some && second.port is Some)
}

/// The guard of the composition: the first guard, specified where the first
/// rule leaves a variable generic and the second specifies it.
pub open spec fn compose_guard(first: RuleView, second: RuleView) -> Seq<Var> {
    let n = min3(first.assign.len() as int, second.guard.len() as int, first.guard.len() as int);
    Seq::new(first.guard.len(), |i: int|
        if i < n && first.guard[i] == Var::X && first.assign[i] == Var::X && second.guard[i] != Var::X {
            second.guard[i]
        } else {
            first.guard[i]
        })
}

/// The assignment of the composition: the second assignment, specified from
/// the first rule where the second rule leaves a variable generic.
pub open spec fn compose_assign(first: RuleView, second: RuleView) -> Seq<Var> {
    let n = min_len(
        min3(second.assign.len() as int, first.guard.len() as int, first.assign.len() as int),
        second.guard.len() as int,
    );
    Seq::new(second.assign.len(), |i: int|
        if i < n && second.guard[i] == Var::X && second.assign[i] == Var::X {
            if first.assign[i] != Var::X {
                first.assign[i]
            } else if first.guard[i] != Var::X {
                first.guard[i]
            } else {
                second.assign[i]
            }
        } else {
            second.assign[i]
        })
}

pub open spec fn port_or(a: Option<PortId>, b: Option<PortId>) -> Option<PortId> {
    match a {
        Some(p) => Some(p),
        None => b,
    }
}

/// The rule that stands for `first` followed by `second`, where they can be composed.
pub open spec fn rule_compose(first: RuleView, second: RuleView) -> Option<RuleView> {
    if rule_can_precede(first, second) {
        Some(rule_new(
            compose_guard(first, second),
            port_or(first.port, second.port),
            compose_assign(first, second),
            second.ids,
        ))
    } else {
        None
    }
}

/// Number of positions two guards share.
pub open spec fn guard_len(g1: Seq<Var>, g2: Seq<Var>) -> int {
    min_len(g1.len() as int, g2.len() as int)
}

/// The two guards differ at two or more shared positions.
pub open spec fn guards_differ_twice(g1: Seq<Var>, g2: Seq<Var>) -> bool {
    exists|i: int, j: int|
        0 <= i < j < guard_len(g1, g2) && #[trigger] g1[i] != g2[i] && #[trigger] g1[j] != g2[j]
}

/// `g1` made generic wherever it differs from `g2`.
pub open spec fn joined_guard(g1: Seq<Var>, g2: Seq<Var>) -> Seq<Var> {
    Seq::new(g1.len(), |i: int| if i < guard_len(g1, g2) && g1[i] != g2[i] { Var::X } else { g1[i] })
}

/// Number of positions two rules share in both guard and assignment.
pub open spec fn shared_len(r1: RuleView, r2: RuleView) -> int {
    min_len(
        min_len(r1.guard.len() as int, r1.assign.len() as int),
        min_len(r2.guard.len() as int, r2.assign.len() as int),
    )
}

/// At one position, a rule with guard `g1` and assignment `a1` does
/// whatever a rule with guard `g2` and assignment `a2` does: its guard is
/// no more specific, and it assigns the same value, or leaves the variable
/// alone where the other rule's guard already fixes it to that value.
pub open spec fn covers_at(g1: Var, a1: Var, g2: Var, a2: Var) -> bool {
    &&& var_le(g1, g2)
    &&& (a1 == a2 || (a1 == Var::X && a2 == g2))
}

/// `r1` has every transition of `r2`: the same port, and at each shared
/// position a guard that is no more specific with the same effect.
pub open spec fn rule_covers(r1: RuleView, r2: RuleView) -> bool {
    &&& r1.port == r2.port
    &&& forall|i: int| 0 <= i < shared_len(r1, r2)
            ==> #[trigger] covers_at(r1.guard[i], r1.assign[i], r2.guard[i], r2.assign[i])
}

/// The single rule that stands for both rules, where there is one: the
/// rule that has every transition of the other, or, for two rules on the
/// same port with one assignment whose guards differ in one variable that
/// one fixes true and the other false, the rule with that variable generic.
pub open spec fn rule_try_merge(r1: RuleView, r2: RuleView) -> Option<RuleView> {
    if r1.port != r2.port {
        None
    } else if rule_covers(r1, r2) {
        Some(r1)
    } else if rule_covers(r2, r1) {
        Some(r2)
    } else if state_order(r1.guard, r2.guard) is None && state_order(r1.assign, r2.assign) == Some(Order::Equal)
        && !guards_differ_twice(r1.guard, r2.guard) {
        Some(rule_new(joined_guard(r1.guard, r2.guard), r1.port, r1.assign, r1.ids + r2.ids))
    } else {
        None
    }
}

pub open spec fn opt_set_view(o: Option<StateSet>) -> Option<Seq<Var>> {
    match o {
        Some(s) => Some(s@),
        None => None,
    }
}

pub open spec fn opt_rule_view(o: Option<AbstractRule>) -> Option<RuleView> {
    match o {
        Some(r) => Some(r@),
        None => None,
    }
}

fn copy_ids(ids: &Vec<AbstractRuleId>) -> (r: Vec<AbstractRuleId>)
    ensures
        r@ == ids@,
{
    let mut out: Vec<AbstractRuleId> = Vec::new();
    for i in 0..ids.len()
        invariant
            out@ == ids@.subrange(0, i as int),
    {
        out.push(ids[i]);
        assert(out@ == ids@.subrange(0, i + 1));
    }
    assert(ids@.subrange(0, ids@.len() as int) == ids@);
    out
}

impl Clone for AbstractRule {
    fn clone(&self) -> (r: Self)
        ensures
            r@ == self@,
    {
        self.duplicate()
    }
}

impl AbstractRule {
    /// Builds a rule, making the assignment specific wherever the guard is.
    pub fn new(guard: StateSet, port: Option<PortId>, assign: StateSet, ids: Vec<AbstractRuleId>) -> (r: AbstractRule)
        ensures
            r@ == rule_new(guard@, port, assign@, ids@),
            rule_wf(r@),
    {
        let mut assign = assign;
        assign.make_specific_wrt(&guard);
        AbstractRule { guard, port, assign, ids }
    }

    /// A copy of this rule.
    pub fn duplicate(&self) -> (r: AbstractRule)
        ensures
            r@ == self@,
    {
        AbstractRule {
            guard: self.guard.duplicate(),
            port: self.port,
            assign: self.assign.duplicate(),
            ids: copy_ids(&self.ids),
        }
    }

    pub fn guard(&self) -> (r: &StateSet)
        ensures
            r@ == self@.guard,
    {
        &self.guard
    }

    pub fn assign(&self) -> (r: &StateSet)
        ensures
            r@ == self@.assign,
    {
        &self.assign
    }

    pub fn port(&self) -> (r: Option<PortId>)
        ensures
            r == self@.port,
    {
        self.port
    }

    pub fn ids(&self) -> (r: &Vec<AbstractRuleId>)
        ensures
            r@ == self@.ids,
    {
        &self.ids
    }

    /// Applies this rule to the given state set, giving the new state set,
    /// or `None` when the guard is not satisfied.
    pub fn apply(&self, set: &StateSet) -> (r: Option<StateSet>)
        ensures
            opt_set_view(r) == rule_apply(self@, set@),
    {
        let mut res = set.duplicate();
        let n0 = if self.guard.len() <= self.assign.len() { self.guard.len() } else { self.assign.len() };
        let n = if n0 <= res.len() { n0 } else { res.len() };
        let ghost s = set@;
        let ghost rv = self@;
        let mut i: usize = 0;
        while i < n
            invariant
                n == apply_len(rv, s),
                rv == self@,
                s == set@,
                0 <= i <= n,
                res@.len() == s.len(),
                forall|j: int| 0 <= j < i ==> var_order(#[trigger] rv.guard[j], s[j]) is Some,
                forall|j: int| 0 <= j < i ==> #[trigger] res@[j] == apply_var(rv.guard[j], rv.assign[j], s[j]),
                forall|j: int| i <= j < s.len() ==> #[trigger] res@[j] == s[j],
            decreases n - i,
        {
            let g = self.guard.get(i);
            let a = self.assign.get(i);
            let r = res.get(i);
            if g.mismatches(r) {
                assert(!guard_admits(rv, s));
                return None;
            } else if a.is_specific() {
                res.set(i, a);
            } else if g.is_specific() {
                res.set(i, g);
            }
            i = i + 1;
        }
        assert(guard_admits(rv, s));
        assert(res@ == rule_apply(rv, s)->0);
        Some(res)
    }

    /// Whether the rule does not affect memory and involves no port.
    pub fn no_effect(&self) -> (r: bool)
        ensures
            r == rule_no_effect(self@),
    {
        if self.port.is_some() {
            return false;
        }
        let n = if self.guard.len() <= self.assign.len() { self.guard.len() } else { self.assign.len() };
        let mut i: usize = 0;
        while i < n
            invariant
                n == min_len(self@.guard.len() as int, self@.assign.len() as int),
                self@.port is None,
                0 <= i <= n,
                forall|j: int| 0 <= j < i ==> var_le(#[trigger] self@.assign[j], self@.guard[j]),
            decreases n - i,
        {
            let g = self.guard.get(i);
            let a = self.assign.get(i);
            if g.mismatches(a) || (g == Var::X && a != Var::X) {
                assert(!var_le(self@.assign[i as int], self@.guard[i as int]));
                return false;
            }
            i = i + 1;
        }
        true
    }

    /// Makes position `index` of both guard and assignment generic.
    pub fn make_generic_at(&mut self, index: usize)
        requires
            index < old(self)@.guard.len(),
            index < old(self)@.assign.len(),
        ensures
            final(self)@.guard == old(self)@.guard.update(index as int, Var::X),
            final(self)@.assign == old(self)@.assign.update(index as int, Var::X),
            final(self)@.port == old(self)@.port,
            final(self)@.ids == old(self)@.ids,
    {
        self.guard.set(index, Var::X);
        self.assign.set(index, Var::X);
    }

    /// Makes the rule silent.
    pub fn hide_port(&mut self)
        ensures
            final(self)@ == (RuleView { port: None, ..old(self)@ }),
    {
        self.port = None;
    }

    /// Whether the rule involves no port.
    pub fn is_silent(&self) -> (r: bool)
        ensures
            r == (self@.port is None),
    {
        self.port.is_none()
    }

    /// Whether this rule can be followed by `other`.
    pub fn can_precede(&self, other: &Self) -> (r: bool)
        ensures
            r == rule_can_precede(self@, other@),
    {
        let n = if self.assign.len() <= other.guard.len() { self.assign.len() } else { other.guard.len() };
        let mut i: usize = 0;
        while i < n
            invariant
                n == min_len(self@.assign.len() as int, other@.guard.len() as int),
                0 <= i <= n,
                forall|j: int| 0 <= j < i ==> var_order(#[trigger] self@.assign[j], other@.guard[j]) is Some,
            decreases n - i,
        {
            let a = self.assign.get(i);
            let g = other.guard.get(i);
            if a.mismatches(g) {
                return false;
            }
            i = i + 1;
        }
        if self.port.is_some() && other.port.is_some() {
            return false;
        }
        true
    }

    /// A rule that stands for this rule followed by `other`, or `None` where
    /// they cannot be composed.
    pub fn compose(&self, other: &Self) -> (r: Option<AbstractRule>)
        ensures
            opt_rule_view(r) == rule_compose(self@, other@),
    {
        if !self.can_precede(other) {
            return None;
        }
        let port: Option<PortId> = match self.port {
            Some(p) => Some(p),
            None => other.port,
        };
        let ghost first = self@;
        let ghost second = other@;
        let mut guard = self.guard.duplicate();
        let n1a = if self.assign.len() <= other.guard.len() { self.assign.len() } else { other.guard.len() };
        let n1 = if n1a <= guard.len() { n1a } else { guard.len() };
        let mut i: usize = 0;
        while i < n1
            invariant
                first == self@,
                second == other@,
                n1 == min3(first.assign.len() as int, second.guard.len() as int, first.guard.len() as int),
                0 <= i <= n1,
                guard@.len() == first.guard.len(),
                forall|j: int| 0 <= j < i ==> #[trigger] guard@[j] == compose_guard(first, second)[j],
                forall|j: int| i <= j < first.guard.len() ==> #[trigger] guard@[j] == first.guard[j],
            decreases n1 - i,
        {
            let a1 = self.assign.get(i);
            let g2 = other.guard.get(i);
            let g = guard.get(i);
            if g.is_generic() && a1.is_generic() && g2.is_specific() {
                guard.set(i, g2);
            }
            i = i + 1;
        }
        assert(guard@ == compose_guard(first, second));
        let mut assign = other.assign.duplicate();
        let n2a = if assign.len() <= self.guard.len() { assign.len() } else { self.guard.len() };
        let n2b = if n2a <= self.assign.len() { n2a } else { self.assign.len() };
        let n2 = if n2b <= other.guard.len() { n2b } else { other.guard.len() };
        let mut k: usize = 0;
        while k < n2
            invariant
                first == self@,
                second == other@,
                n2 == min_len(
                    min3(second.assign.len() as int, first.guard.len() as int, first.assign.len() as int),
                    second.guard.len() as int,
                ),
                0 <= k <= n2,
                assign@.len() == second.assign.len(),
                forall|j: int| 0 <= j < k ==> #[trigger] assign@[j] == compose_assign(first, second)[j],
                forall|j: int| k <= j < second.assign.len() ==> #[trigger] assign@[j] == second.assign[j],
            decreases n2 - k,
        {
            let a = assign.get(k);
            let g1 = self.guard.get(k);
            let a1 = self.assign.get(k);
            let g2 = other.guard.get(k);
            let latter_is_generic = g2.is_generic() && a.is_generic();
            if latter_is_generic {
                if a1.is_specific() {
                    assign.set(k, a1);
                } else if g1.is_specific() {
                    assign.set(k, g1);
                }
            }
            k = k + 1;
        }
        assert(assign@ == compose_assign(first, second));
        Some(AbstractRule::new(guard, port, assign, copy_ids(&other.ids)))
    }

    /// Whether this rule has every transition of `other`.
    pub fn covers(&self, other: &Self) -> (r: bool)
        ensures
            r == rule_covers(self@, other@),
    {
        match (self.port, other.port) {
            (Some(p), Some(q)) => {
                if p != q {
                    return false;
                }
            },
            (None, None) => {},
            _ => {
                return false;
            },
        }
        let n1 = if self.guard.len() <= self.assign.len() { self.guard.len() } else { self.assign.len() };
        let n2 = if other.guard.len() <= other.assign.len() { other.guard.len() } else { other.assign.len() };
        let n = if n1 <= n2 { n1 } else { n2 };
        let mut i: usize = 0;
        while i < n
            invariant
                n == shared_len(self@, other@),
                self@.port == other@.port,
                0 <= i <= n,
                forall|j: int| 0 <= j < i ==> #[trigger] covers_at(self@.guard[j], self@.assign[j], other@.guard[j], other@.assign[j]),
            decreases n - i,
        {
            let g1 = self.guard.get(i);
            let a1 = self.assign.get(i);
            let g2 = other.guard.get(i);
            let a2 = other.assign.get(i);
            let guard_ok = g1 == g2 || g1 == Var::X;
            let assign_ok = a1 == a2 || (a1 == Var::X && a2 == g2);
            if !(guard_ok && assign_ok) {
                assert(!covers_at(self@.guard[i as int], self@.assign[i as int], other@.guard[i as int], other@.assign[i as int]));
                return false;
            }
            i = i + 1;
        }
        true
    }

    /// If the two rules can be represented by one, that rule.
    pub fn try_merge(&self, other: &Self) -> (r: Option<AbstractRule>)
        ensures
            opt_rule_view(r) == rule_try_merge(self@, other@),
    {
        let same_port = match (self.port, other.port) {
            (Some(p), Some(q)) => p == q,
            (None, None) => true,
            _ => false,
        };
        if !same_port {
            return None;
        }
        if self.covers(other) {
            // the first rule has every transition of the second
            return Some(self.duplicate());
        }
        if other.covers(self) {
            // the second rule has every transition of the first
            return Some(other.duplicate());
        }
        let g_ord = self.guard.compare(&other.guard);
        let a_ord = self.assign.compare(&other.assign);
        match (g_ord, a_ord) {
            (None, Some(Order::Equal)) => {
                // a rule split in half by these two: eg {T->T, F->T} give X->T
                let ghost g1 = self@.guard;
                let ghost g2 = other@.guard;
                let mut guard = self.guard.duplicate();
                let n = if guard.len() <= other.guard.len() { guard.len() } else { other.guard.len() };
                let mut equal_so_far = true;
                let mut i: usize = 0;
                while i < n
                    invariant
                        g1 == self@.guard,
                        g2 == other@.guard,
                        self@.port == other@.port,
                        !rule_covers(self@, other@),
                        !rule_covers(other@, self@),
                        state_order(g1, g2) is None,
                        state_order(self@.assign, other@.assign) == Some(Order::Equal),
                        n == guard_len(g1, g2),
                        0 <= i <= n,
                        guard@.len() == g1.len(),
                        forall|j: int| 0 <= j < i ==> #[trigger] guard@[j] == joined_guard(g1, g2)[j],
                        forall|j: int| i <= j < g1.len() ==> #[trigger] guard@[j] == g1[j],
                        equal_so_far == (forall|j: int| 0 <= j < i ==> #[trigger] g1[j] == g2[j]),
                        !exists|p: int, q: int| 0 <= p < q < i && #[trigger] g1[p] != g2[p] && #[trigger] g1[q] != g2[q],
                    decreases n - i,
                {
                    let g = guard.get(i);
                    let g2v = other.guard.get(i);
                    if g != g2v {
                        if !equal_so_far {
                            let ghost p = choose|p: int| 0 <= p < i && #[trigger] g1[p] != g2[p];
                            assert(0 <= p < i && g1[p] != g2[p] && g1[i as int] != g2[i as int]);
                            assert(guards_differ_twice(g1, g2));
                            return None;
                        }
                        equal_so_far = false;
                        guard.set(i, Var::X);
                    }
                    i = i + 1;
                }
                assert(!guards_differ_twice(g1, g2));
                assert(guard@ == joined_guard(g1, g2));
                let mut ids = copy_ids(&self.ids);
                let mut more = copy_ids(&other.ids);
                ids.append(&mut more);
                Some(AbstractRule::new(guard, self.port, self.assign.duplicate(), ids))
            },
            _ => None,
        }
    }

}

} // verus!

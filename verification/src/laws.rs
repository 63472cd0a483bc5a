//! Laws of the rule algebra: specificity is a partial order, composition
//! is sequencing, a merge stands exactly for the two rules it replaces,
//! and a rule without effect changes no concrete state.
use vstd::prelude::*;
use crate::var::{Var, Order, var_order, order_rev};
use crate::state_set::{state_order, has_incomparable, has_less, has_greater, min_len};
use crate::rule::{
    RuleView, rule_wf, rule_apply, rule_compose, rule_no_effect, rule_try_merge, guard_admits,
    apply_len, apply_var, rule_can_precede, joined_guard, guards_differ_twice, rule_covers, covers_at,
    guard_len,
};

verus! {

/// The guard and the assignment of `r` both have length `n`.
pub open spec fn rule_of_len(r: RuleView, n: nat) -> bool {
    r.guard.len() == n && r.assign.len() == n
}

/// The state set names a single state: no variable is generic.
pub open spec fn concrete(s: Seq<Var>) -> bool {
    forall|i: int| 0 <= i < s.len() ==> #[trigger] s[i] != Var::X
}

/// Comparing two state sets the other way round gives the reverse outcome.
pub proof fn law_state_order_reverses(a: Seq<Var>, b: Seq<Var>)
    ensures
        state_order(b, a) == order_rev(state_order(a, b)),
        state_order(a, a) == Some(Order::Equal),
{
    let n = min_len(a.len() as int, b.len() as int);
    assert(min_len(b.len() as int, a.len() as int) == n);
    assert(has_incomparable(b, a, n) == has_incomparable(a, b, n)) by {
        if has_incomparable(a, b, n) {
            let i = choose|i: int| 0 <= i < n && #[trigger] var_order(a[i], b[i]) is None;
            assert(var_order(b[i], a[i]) is None);
        }
        if has_incomparable(b, a, n) {
            let i = choose|i: int| 0 <= i < n && #[trigger] var_order(b[i], a[i]) is None;
            assert(var_order(a[i], b[i]) is None);
        }
    }
    assert(has_less(b, a, n) == has_greater(a, b, n)) by {
        if has_less(b, a, n) {
            let i = choose|i: int| 0 <= i < n && #[trigger] var_order(b[i], a[i]) == Some(Order::Less);
            assert(var_order(a[i], b[i]) == Some(Order::Greater));
        }
        if has_greater(a, b, n) {
            let i = choose|i: int| 0 <= i < n && #[trigger] var_order(a[i], b[i]) == Some(Order::Greater);
            assert(var_order(b[i], a[i]) == Some(Order::Less));
        }
    }
    assert(has_greater(b, a, n) == has_less(a, b, n)) by {
        if has_greater(b, a, n) {
            let i = choose|i: int| 0 <= i < n && #[trigger] var_order(b[i], a[i]) == Some(Order::Greater);
            assert(var_order(a[i], b[i]) == Some(Order::Less));
        }
        if has_less(a, b, n) {
            let i = choose|i: int| 0 <= i < n && #[trigger] var_order(a[i], b[i]) == Some(Order::Less);
            assert(var_order(b[i], a[i]) == Some(Order::Greater));
        }
    }
    let m = a.len() as int;
    assert(!has_incomparable(a, a, m));
    assert(!has_less(a, a, m));
    assert(!has_greater(a, a, m));
}

/// For a rule that keeps the rule invariant, firing sets each assigned
/// variable and leaves every other variable as it was.
pub proof fn law_wf_apply(r: RuleView, s: Seq<Var>)
    requires
        rule_wf(r),
        rule_of_len(r, s.len()),
    ensures
        rule_apply(r, s) == (if guard_admits(r, s) {
            Some(Seq::new(s.len(), |i: int| if r.assign[i] != Var::X { r.assign[i] } else { s[i] }))
        } else {
            None
        }),
{
    if guard_admits(r, s) {
        let x = rule_apply(r, s)->0;
        let y = Seq::new(s.len(), |i: int| if r.assign[i] != Var::X { r.assign[i] } else { s[i] });
        assert forall|i: int| 0 <= i < s.len() implies x[i] == y[i] by {
            if r.assign[i] == Var::X {
                assert(r.guard[i] == Var::X);
            }
        }
        assert(x =~= y);
    }
}

proof fn lemma_compose_at(g1: Var, a1: Var, g2: Var, a2: Var, s: Var)
    requires
        a1 == Var::X ==> g1 == Var::X,
        a2 == Var::X ==> g2 == Var::X,
        var_order(a1, g2) is Some,
    ensures
        ({
            let cg = if g1 == Var::X && a1 == Var::X && g2 != Var::X { g2 } else { g1 };
            let ca0 = if g2 == Var::X && a2 == Var::X {
                if a1 != Var::X { a1 } else if g1 != Var::X { g1 } else { a2 }
            } else {
                a2
            };
            let ca = if ca0 == Var::X { cg } else { ca0 };
            let t = apply_var(g1, a1, s);
            &&& (var_order(cg, s) is Some <==> (var_order(g1, s) is Some && var_order(g2, t) is Some))
            &&& (var_order(cg, s) is Some ==> apply_var(cg, ca, s) == apply_var(g2, a2, t))
        }),
{
}

/// Composition is sequencing: firing the composition of two rules on a
/// state set gives what firing the first and then the second gives.
pub proof fn law_compose_is_sequencing(r1: RuleView, r2: RuleView, s: Seq<Var>)
    requires
        rule_wf(r1),
        rule_wf(r2),
        rule_of_len(r1, s.len()),
        rule_of_len(r2, s.len()),
        rule_compose(r1, r2) is Some,
    ensures
        rule_apply(rule_compose(r1, r2)->0, s) == (match rule_apply(r1, s) {
            Some(t) => rule_apply(r2, t),
            None => None,
        }),
{
    let c = rule_compose(r1, r2)->0;
    let n = s.len() as int;
    assert(rule_can_precede(r1, r2));
    assert forall|i: int| 0 <= i < n implies ({
        let t_i = apply_var(r1.guard[i], r1.assign[i], s[i]);
        &&& (var_order(#[trigger] c.guard[i], s[i]) is Some
                <==> (var_order(r1.guard[i], s[i]) is Some && var_order(r2.guard[i], t_i) is Some))
        &&& (var_order(c.guard[i], s[i]) is Some ==> apply_var(c.guard[i], c.assign[i], s[i]) == apply_var(r2.guard[i], r2.assign[i], t_i))
    }) by {
        assert(r1.assign[i] == Var::X ==> r1.guard[i] == Var::X);
        assert(r2.assign[i] == Var::X ==> r2.guard[i] == Var::X);
        assert(var_order(r1.assign[i], r2.guard[i]) is Some);
        lemma_compose_at(r1.guard[i], r1.assign[i], r2.guard[i], r2.assign[i], s[i]);
    }
    match rule_apply(r1, s) {
        Some(t) => {
            assert(forall|i: int| 0 <= i < n ==> #[trigger] t[i] == apply_var(r1.guard[i], r1.assign[i], s[i]));
            if guard_admits(c, s) {
                assert(guard_admits(r2, t)) by {
                    assert forall|i: int| 0 <= i < apply_len(r2, t) implies var_order(#[trigger] r2.guard[i], t[i]) is Some by {
                        assert(var_order(c.guard[i], s[i]) is Some);
                    }
                }
                let x = rule_apply(c, s)->0;
                let y = rule_apply(r2, t)->0;
                assert forall|i: int| 0 <= i < n implies x[i] == y[i] by {
                    assert(var_order(c.guard[i], s[i]) is Some);
                }
                assert(x =~= y);
            } else {
                let i = choose|i: int| 0 <= i < apply_len(c, s) && !(var_order(#[trigger] c.guard[i], s[i]) is Some);
                assert(!(var_order(r2.guard[i], t[i]) is Some));
                assert(!guard_admits(r2, t));
            }
        },
        None => {
            let i = choose|i: int| 0 <= i < apply_len(r1, s) && !(var_order(#[trigger] r1.guard[i], s[i]) is Some);
            assert(!(var_order(c.guard[i], s[i]) is Some));
            assert(!guard_admits(c, s));
        },
    }
}

/// A rule that keeps the rule invariant and has no effect leaves every
/// concrete state it admits as it was.
pub proof fn law_no_effect_is_identity(r: RuleView, s: Seq<Var>)
    requires
        rule_wf(r),
        rule_no_effect(r),
        rule_of_len(r, s.len()),
        concrete(s),
    ensures
        rule_apply(r, s) is None || rule_apply(r, s) == Some(s),
{
    if guard_admits(r, s) {
        let x = rule_apply(r, s)->0;
        assert forall|i: int| 0 <= i < s.len() implies x[i] == s[i] by {
            assert(var_order(r.guard[i], s[i]) is Some);
            assert(s[i] != Var::X);
            assert(r.assign[i] == Var::X ==> r.guard[i] == Var::X);
        }
        assert(x =~= s);
    }
}

/// Where `r1` has every transition of `r2`, it admits every state set that
/// `r2` admits.
proof fn lemma_covers_admits(r1: RuleView, r2: RuleView, s: Seq<Var>)
    requires
        rule_of_len(r1, s.len()),
        rule_of_len(r2, s.len()),
        rule_covers(r1, r2),
        guard_admits(r2, s),
    ensures
        guard_admits(r1, s),
{
    assert forall|i: int| 0 <= i < apply_len(r1, s) implies var_order(#[trigger] r1.guard[i], s[i]) is Some by {
        assert(covers_at(r1.guard[i], r1.assign[i], r2.guard[i], r2.assign[i]));
        assert(var_order(r2.guard[i], s[i]) is Some);
    }
}

/// Where `r1` has every transition of `r2`, it takes each single state that
/// `r2` takes to the same successor.
proof fn lemma_covers_apply(r1: RuleView, r2: RuleView, s: Seq<Var>)
    requires
        rule_wf(r1),
        rule_wf(r2),
        rule_of_len(r1, s.len()),
        rule_of_len(r2, s.len()),
        concrete(s),
        rule_covers(r1, r2),
        rule_apply(r2, s) is Some,
    ensures
        rule_apply(r1, s) == rule_apply(r2, s),
{
    lemma_covers_admits(r1, r2, s);
    law_wf_apply(r1, s);
    law_wf_apply(r2, s);
    let x = rule_apply(r1, s)->0;
    let y = rule_apply(r2, s)->0;
    assert forall|i: int| 0 <= i < s.len() implies x[i] == y[i] by {
        assert(covers_at(r1.guard[i], r1.assign[i], r2.guard[i], r2.assign[i]));
        assert(var_order(r2.guard[i], s[i]) is Some);
        assert(s[i] != Var::X);
        assert(r1.assign[i] == Var::X ==> r1.guard[i] == Var::X);
        assert(r2.assign[i] == Var::X ==> r2.guard[i] == Var::X);
    }
    assert(x =~= y);
}

/// The merge of two rules of which neither has every transition of the
/// other fires exactly where either rule fires, with the same effect.
proof fn lemma_split_apply(r1: RuleView, r2: RuleView, s: Seq<Var>)
    requires
        rule_wf(r1),
        rule_wf(r2),
        rule_of_len(r1, s.len()),
        rule_of_len(r2, s.len()),
        !rule_covers(r1, r2),
        !rule_covers(r2, r1),
        rule_try_merge(r1, r2) is Some,
    ensures
        rule_apply(rule_try_merge(r1, r2)->0, s) == (if rule_apply(r1, s) is Some {
            rule_apply(r1, s)
        } else {
            rule_apply(r2, s)
        }),
        concrete(s) ==> !(rule_apply(r1, s) is Some && rule_apply(r2, s) is Some),
{
    let m = rule_try_merge(r1, r2)->0;
    let n = s.len() as int;
    assert(state_order(r1.guard, r2.guard) is None);
    assert(state_order(r1.assign, r2.assign) == Some(Order::Equal));
    assert(!guards_differ_twice(r1.guard, r2.guard));
    // the assignments agree everywhere
    assert forall|i: int| 0 <= i < n implies #[trigger] r1.assign[i] == r2.assign[i] by {
        if r1.assign[i] != r2.assign[i] {
            let o = var_order(r1.assign[i], r2.assign[i]);
            if o is None {
                assert(has_incomparable(r1.assign, r2.assign, n));
            } else if o == Some(Order::Less) {
                assert(has_less(r1.assign, r2.assign, n));
            } else {
                assert(has_greater(r1.assign, r2.assign, n));
            }
        }
    }
    // the merged assignment is the first assignment
    assert(m.assign =~= r1.assign) by {
        assert forall|i: int| 0 <= i < n implies #[trigger] m.assign[i] == r1.assign[i] by {
            if r1.assign[i] == Var::X {
                assert(r1.guard[i] == Var::X);
                assert(joined_guard(r1.guard, r2.guard)[i] == Var::X);
            }
        }
    }
    // the guards differ at exactly one position, where they are T and F
    let d = choose|d: int| 0 <= d < n && #[trigger] r1.guard[d] != r2.guard[d];
    assert(exists|d: int| 0 <= d < n && #[trigger] r1.guard[d] != r2.guard[d]) by {
        if !exists|d: int| 0 <= d < n && #[trigger] r1.guard[d] != r2.guard[d] {
            assert(!has_incomparable(r1.guard, r2.guard, n));
            assert(!has_less(r1.guard, r2.guard, n));
            assert(!has_greater(r1.guard, r2.guard, n));
        }
    }
    assert forall|i: int| 0 <= i < n && i != d implies #[trigger] r1.guard[i] == r2.guard[i] by {
        if r1.guard[i] != r2.guard[i] {
            if i < d {
                assert(guards_differ_twice(r1.guard, r2.guard));
            } else {
                assert(guards_differ_twice(r1.guard, r2.guard));
            }
        }
    }
    assert(var_order(r1.guard[d], r2.guard[d]) is None) by {
        if var_order(r1.guard[d], r2.guard[d]) is Some {
            assert(!has_incomparable(r1.guard, r2.guard, n));
            if var_order(r1.guard[d], r2.guard[d]) == Some(Order::Less) {
                assert(!has_greater(r1.guard, r2.guard, n));
            } else {
                assert(!has_less(r1.guard, r2.guard, n));
            }
        }
    }
    law_wf_apply(r1, s);
    law_wf_apply(r2, s);
    assert(rule_wf(m));
    law_wf_apply(m, s);
    if guard_admits(r1, s) {
        assert(guard_admits(m, s)) by {
            assert forall|i: int| 0 <= i < apply_len(m, s) implies var_order(#[trigger] m.guard[i], s[i]) is Some by {
                assert(var_order(r1.guard[i], s[i]) is Some);
            }
        }
        assert(rule_apply(m, s)->0 =~= rule_apply(r1, s)->0);
    } else if guard_admits(r2, s) {
        assert(guard_admits(m, s)) by {
            assert forall|i: int| 0 <= i < apply_len(m, s) implies var_order(#[trigger] m.guard[i], s[i]) is Some by {
                assert(var_order(r2.guard[i], s[i]) is Some);
            }
        }
        assert(rule_apply(m, s)->0 =~= rule_apply(r2, s)->0);
    } else {
        let i1 = choose|i: int| 0 <= i < apply_len(r1, s) && !(var_order(#[trigger] r1.guard[i], s[i]) is Some);
        let i2 = choose|i: int| 0 <= i < apply_len(r2, s) && !(var_order(#[trigger] r2.guard[i], s[i]) is Some);
        if i1 != d {
            assert(!(var_order(m.guard[i1], s[i1]) is Some));
        } else if i2 != d {
            assert(!(var_order(m.guard[i2], s[i2]) is Some));
        } else {
            // s[d] would have to differ from both T and F, and yet be specific
            assert(false);
        }
        assert(!guard_admits(m, s));
    }
    if concrete(s) && guard_admits(r1, s) && guard_admits(r2, s) {
        // a single state cannot match both T and F at `d`
        assert(var_order(r1.guard[d], s[d]) is Some);
        assert(var_order(r2.guard[d], s[d]) is Some);
        assert(s[d] != Var::X);
    }
}

/// Merging loses no enabled state: every state set that either rule admits
/// is admitted by their merge.
pub proof fn law_merge_covers(r1: RuleView, r2: RuleView, s: Seq<Var>)
    requires
        rule_of_len(r1, s.len()),
        rule_of_len(r2, s.len()),
        rule_try_merge(r1, r2) is Some,
    ensures
        rule_apply(r1, s) is Some ==> rule_apply(rule_try_merge(r1, r2)->0, s) is Some,
        rule_apply(r2, s) is Some ==> rule_apply(rule_try_merge(r1, r2)->0, s) is Some,
{
    let m = rule_try_merge(r1, r2)->0;
    if rule_covers(r1, r2) {
        if guard_admits(r2, s) {
            lemma_covers_admits(r1, r2, s);
        }
    } else if rule_covers(r2, r1) {
        if guard_admits(r1, s) {
            lemma_covers_admits(r2, r1, s);
        }
    } else {
        let n = s.len() as int;
        assert forall|i: int| 0 <= i < n implies
            ((guard_admits(r1, s) ==> var_order(#[trigger] m.guard[i], s[i]) is Some)
            && (guard_admits(r2, s) ==> var_order(m.guard[i], s[i]) is Some))
        by {
            if guard_admits(r1, s) {
                assert(var_order(r1.guard[i], s[i]) is Some);
            }
            if guard_admits(r2, s) {
                assert(var_order(r2.guard[i], s[i]) is Some);
            }
        }
        if guard_admits(r1, s) {
            assert(guard_admits(m, s));
        }
        if guard_admits(r2, s) {
            assert(guard_admits(m, s));
        }
    }
}

/// A merge stands exactly for the two rules it replaces: it has their
/// port, and on every single state it fires precisely where one of them
/// fires, reaching the successor that each of them that fires reaches.
pub proof fn law_merge_exact(r1: RuleView, r2: RuleView, s: Seq<Var>)
    requires
        rule_wf(r1),
        rule_wf(r2),
        rule_of_len(r1, s.len()),
        rule_of_len(r2, s.len()),
        concrete(s),
        rule_try_merge(r1, r2) is Some,
    ensures
        rule_try_merge(r1, r2)->0.port == r1.port,
        rule_try_merge(r1, r2)->0.port == r2.port,
        rule_apply(rule_try_merge(r1, r2)->0, s) is Some
            <==> (rule_apply(r1, s) is Some || rule_apply(r2, s) is Some),
        rule_apply(r1, s) is Some ==> rule_apply(rule_try_merge(r1, r2)->0, s) == rule_apply(r1, s),
        rule_apply(r2, s) is Some ==> rule_apply(rule_try_merge(r1, r2)->0, s) == rule_apply(r2, s),
{
    if rule_covers(r1, r2) {
        if rule_apply(r2, s) is Some {
            lemma_covers_apply(r1, r2, s);
        }
    } else if rule_covers(r2, r1) {
        if rule_apply(r1, s) is Some {
            lemma_covers_apply(r2, r1, s);
        }
    } else {
        lemma_split_apply(r1, r2, s);
    }
}

/// A variable that is either true or false.
pub open spec fn opposite(a: Var, b: Var) -> bool {
    (a == Var::T && b == Var::F) || (a == Var::F && b == Var::T)
}

/// Merging is complete on split pairs: two rules on the same port with the
/// same assignment, whose guards differ only at position `i`, where one is
/// `T` and the other `F`, merge into the first rule with that variable made
/// generic, standing for the identifiers of both.
pub proof fn law_merge_joins_split_pair(r1: RuleView, r2: RuleView, i: int)
    requires
        rule_wf(r1),
        r1.guard.len() == r1.assign.len(),
        r2.guard.len() == r1.guard.len(),
        r1.port == r2.port,
        r1.assign == r2.assign,
        0 <= i < r1.guard.len(),
        opposite(r1.guard[i], r2.guard[i]),
        forall|j: int| 0 <= j < r1.guard.len() && j != i ==> r1.guard[j] == r2.guard[j],
    ensures
        rule_try_merge(r1, r2) is Some,
        rule_try_merge(r1, r2)->0.guard == r1.guard.update(i, Var::X),
        rule_try_merge(r1, r2)->0.assign == r1.assign,
        rule_try_merge(r1, r2)->0.port == r1.port,
        rule_try_merge(r1, r2)->0.ids == r1.ids + r2.ids,
{
    let n = r1.guard.len() as int;
    assert(!covers_at(r1.guard[i], r1.assign[i], r2.guard[i], r2.assign[i]));
    assert(!covers_at(r2.guard[i], r2.assign[i], r1.guard[i], r1.assign[i]));
    assert(!rule_covers(r1, r2));
    assert(!rule_covers(r2, r1));
    assert(var_order(r1.guard[i], r2.guard[i]) is None);
    assert(has_incomparable(r1.guard, r2.guard, n));
    assert(state_order(r1.guard, r2.guard) is None);
    law_state_order_reverses(r1.assign, r1.assign);
    assert(!guards_differ_twice(r1.guard, r2.guard)) by {
        if guards_differ_twice(r1.guard, r2.guard) {
            let (p, q) = choose|p: int, q: int|
                0 <= p < q < guard_len(r1.guard, r2.guard) && #[trigger] r1.guard[p] != r2.guard[p]
                    && #[trigger] r1.guard[q] != r2.guard[q];
            assert(p == i && q == i);
        }
    }
    let m = rule_try_merge(r1, r2)->0;
    assert(joined_guard(r1.guard, r2.guard) =~= r1.guard.update(i, Var::X));
    assert(m.assign =~= r1.assign) by {
        assert forall|j: int| 0 <= j < n implies #[trigger] m.assign[j] == r1.assign[j] by {
            if r1.assign[j] == Var::X {
                assert(r1.guard[j] == Var::X);
            }
        }
    }
}

/// Composition keeps the port: the rule for `first` followed by `second`
/// involves the port of `first` where it has one, and that of `second`
/// otherwise.
pub proof fn law_compose_keeps_port(first: RuleView, second: RuleView)
    requires
        rule_compose(first, second) is Some,
    ensures
        rule_compose(first, second)->0.port == (if first.port is Some { first.port } else { second.port }),
        rule_compose(first, second)->0.ids == second.ids,
{
}

/// Merging absorbs a rule into a more general one: where `r1` is on the
/// same port, has a guard that is generic or equal at every position, and
/// the same assignment as `r2`, the two merge into `r1`.
pub proof fn law_merge_absorbs(r1: RuleView, r2: RuleView)
    requires
        r1.port == r2.port,
        r1.guard.len() == r1.assign.len(),
        r2.guard.len() == r1.guard.len(),
        r1.assign == r2.assign,
        forall|j: int| 0 <= j < r1.guard.len() ==> r1.guard[j] == Var::X || r1.guard[j] == r2.guard[j],
    ensures
        rule_try_merge(r1, r2) == Some(r1),
{
    assert forall|j: int| 0 <= j < r1.guard.len() implies
        #[trigger] covers_at(r1.guard[j], r1.assign[j], r2.guard[j], r2.assign[j]) by {}
    assert(rule_covers(r1, r2));
}

/// Composition is complete: where `first` fires from `x` to `y` and
/// `second` fires from `y` to `z`, and at most one of them has a port, the
/// two compose into a rule that fires from `x` to `z`.
pub proof fn law_compose_complete(first: RuleView, second: RuleView, x: Seq<Var>, y: Seq<Var>, z: Seq<Var>)
    requires
        rule_wf(first),
        rule_wf(second),
        rule_of_len(first, x.len()),
        rule_of_len(second, x.len()),
        !(first.port is Some && second.port is Some),
        rule_apply(first, x) == Some(y),
        rule_apply(second, y) == Some(z),
    ensures
        rule_compose(first, second) is Some,
        rule_apply(rule_compose(first, second)->0, x) == Some(z),
{
    law_wf_apply(first, x);
    assert forall|i: int| 0 <= i < x.len() implies var_order(#[trigger] first.assign[i], second.guard[i]) is Some by {
        assert(guard_admits(second, y));
        assert(var_order(second.guard[i], y[i]) is Some);
    }
    assert(rule_can_precede(first, second));
    law_compose_is_sequencing(first, second, x);
}

} // verus!

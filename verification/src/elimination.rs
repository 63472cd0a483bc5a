//! What eliminating a silent rule does to the behaviour of an automaton:
//! merging keeps exactly the transitions of the rules merged, and one round
//! of elimination replaces each path made of the silent rule and one other
//! rule by a single transition, keeping every other transition and adding
//! none.
use vstd::prelude::*;
use crate::PortId;
use crate::var::Var;
use crate::rule::{RuleView, rule_try_merge, rule_wf, rule_apply, rule_compose, rule_no_effect};
use crate::rbpa::{
    all_wf, compositions, first_silent, is_first_merge, merge_all, merge_at, silent_step, lemma_first_silent,
};
use crate::laws::{
    rule_of_len, concrete, law_merge_exact, law_compose_is_sequencing, law_compose_complete, law_no_effect_is_identity,
    law_wf_apply,
};

verus! {

/// Every rule has guard and assignment of length `n`.
pub open spec fn all_of_len(rules: Seq<RuleView>, n: nat) -> bool {
    forall|k: int| 0 <= k < rules.len() ==> rule_of_len(#[trigger] rules[k], n)
}

/// Some rule of `rules` fires on port `p` (or silently, for `None`) from
/// state `x` to state `z`.
pub open spec fn fires(rules: Seq<RuleView>, x: Seq<Var>, p: Option<PortId>, z: Seq<Var>) -> bool {
    exists|k: int| 0 <= k < rules.len() && (#[trigger] rules[k]).port == p && rule_apply(rules[k], x) == Some(z)
}

proof fn lemma_merge_at_keeps(rules: Seq<RuleView>, i: int, j: int, x: Seq<Var>)
    requires
        is_first_merge(rules, i, j),
        all_wf(rules),
        all_of_len(rules, x.len()),
        concrete(x),
    ensures
        all_wf(merge_at(rules, i, j)),
        all_of_len(merge_at(rules, i, j), x.len()),
        forall|p: Option<PortId>, z: Seq<Var>|
            #[trigger] fires(merge_at(rules, i, j), x, p, z) <==> fires(rules, x, p, z),
{
    let r1 = rules[i];
    let r2 = rules[j];
    let m = rule_try_merge(r1, r2)->0;
    let next = merge_at(rules, i, j);
    assert(rule_wf(r1) && rule_wf(r2));
    assert(rule_of_len(r1, x.len()) && rule_of_len(r2, x.len()));
    law_merge_exact(r1, r2, x);
    law_wf_apply(r1, x);
    assert(m.guard.len() == x.len() && m.assign.len() == x.len());
    assert(rule_wf(m)) by {
        assert forall|q: int| 0 <= q < x.len() && #[trigger] m.assign[q] == Var::X implies m.guard[q] == Var::X by {
            assert(r1.assign[q] == Var::X ==> r1.guard[q] == Var::X);
            assert(r2.assign[q] == Var::X ==> r2.guard[q] == Var::X);
        }
    }
    assert(next.len() == rules.len() - 1);
    assert(next[i] == m);
    assert forall|k: int| 0 <= k < next.len() && k != i implies
        #[trigger] next[k] == rules[if k < j { k } else { k + 1 }] by {}
    assert forall|k: int| 0 <= k < next.len() implies rule_wf(#[trigger] next[k]) && rule_of_len(next[k], x.len()) by {
        if k != i {
            let o = if k < j { k } else { k + 1 };
            assert(next[k] == rules[o]);
        }
    }
    assert forall|p: Option<PortId>, z: Seq<Var>|
        #[trigger] fires(next, x, p, z) <==> fires(rules, x, p, z) by {
        if fires(rules, x, p, z) {
            let k = choose|k: int| 0 <= k < rules.len() && (#[trigger] rules[k]).port == p && rule_apply(rules[k], x) == Some(z);
            if k == i || k == j {
                assert(next[i].port == p && rule_apply(next[i], x) == Some(z));
            } else {
                let k2 = if k < j { k } else { k - 1 };
                assert(next[k2] == rules[k]);
            }
        }
        if fires(next, x, p, z) {
            let k2 = choose|k2: int| 0 <= k2 < next.len() && (#[trigger] next[k2]).port == p && rule_apply(next[k2], x) == Some(z);
            if k2 == i {
                if rule_apply(r1, x) is Some {
                    assert(rules[i].port == p && rule_apply(rules[i], x) == Some(z));
                } else {
                    assert(rules[j].port == p && rule_apply(rules[j], x) == Some(z));
                }
            } else {
                let k = if k2 < j { k2 } else { k2 + 1 };
                assert(next[k2] == rules[k]);
            }
        }
    }
}

/// Merging keeps behaviour: from every single state, the merged rules fire
/// on exactly the ports and to exactly the states that the rules did.
pub proof fn law_merge_all_keeps_transitions(rules: Seq<RuleView>, x: Seq<Var>)
    requires
        all_wf(rules),
        all_of_len(rules, x.len()),
        concrete(x),
    ensures
        all_wf(merge_all(rules)),
        all_of_len(merge_all(rules), x.len()),
        forall|p: Option<PortId>, z: Seq<Var>|
            #[trigger] fires(merge_all(rules), x, p, z) <==> fires(rules, x, p, z),
    decreases rules.len(),
{
    if exists|i: int, j: int| is_first_merge(rules, i, j) {
        let (i, j) = choose|i: int, j: int| is_first_merge(rules, i, j);
        lemma_merge_at_keeps(rules, i, j, x);
        law_merge_all_keeps_transitions(merge_at(rules, i, j), x);
        assert forall|p: Option<PortId>, z: Seq<Var>|
            #[trigger] fires(merge_all(rules), x, p, z) <==> fires(rules, x, p, z) by {
            assert(fires(merge_all(merge_at(rules, i, j)), x, p, z) <==> fires(merge_at(rules, i, j), x, p, z));
            assert(fires(merge_at(rules, i, j), x, p, z) <==> fires(rules, x, p, z));
        }
    }
}

/// The compositions of a silent rule with the other rules are complete: for
/// every rule `r` of `rest` that `s` can precede, silent or not, the
/// composition of `s` with `r` is among them, and nothing else is.
pub proof fn law_compositions_complete(s: RuleView, rest: Seq<RuleView>)
    ensures
        forall|k: int| 0 <= k < rest.len() && rule_compose(s, #[trigger] rest[k]) is Some
            ==> compositions(s, rest).contains(rule_compose(s, rest[k])->0),
        forall|c: RuleView| #[trigger] compositions(s, rest).contains(c)
            ==> exists|k: int| 0 <= k < rest.len() && rule_compose(s, #[trigger] rest[k]) == Some(c),
    decreases rest.len(),
{
    if rest.len() > 0 {
        let prev = rest.drop_last();
        law_compositions_complete(s, prev);
        let cs = compositions(s, rest);
        let cp = compositions(s, prev);
        assert forall|k: int| 0 <= k < rest.len() && rule_compose(s, #[trigger] rest[k]) is Some
            implies cs.contains(rule_compose(s, rest[k])->0) by {
            if k < rest.len() - 1 {
                assert(prev[k] == rest[k]);
                let c = rule_compose(s, rest[k])->0;
                let q = choose|q: int| 0 <= q < cp.len() && cp[q] == c;
                assert(cs[q] == c);
            } else {
                assert(cs[cs.len() - 1] == rule_compose(s, rest[k])->0);
            }
        }
        assert forall|c: RuleView| #[trigger] cs.contains(c)
            implies exists|k: int| 0 <= k < rest.len() && rule_compose(s, #[trigger] rest[k]) == Some(c) by {
            let q = choose|q: int| 0 <= q < cs.len() && cs[q] == c;
            if q < cp.len() {
                assert(cp[q] == c);
                assert(cp.contains(c));
                let k = choose|k: int| 0 <= k < prev.len() && rule_compose(s, #[trigger] prev[k]) == Some(c);
                assert(rest[k] == prev[k]);
            } else {
                assert(rule_compose(s, rest[rest.len() - 1]) == Some(c));
            }
        }
    }
}

/// One round of elimination keeps behaviour. Let `s` be the first silent
/// rule and `rest` the other rules. From every single state, the new rules
/// fire on port `p` to state `z` exactly where one rule of `rest` does so
/// directly, or `s` leads silently to some state from which one rule of
/// `rest` does so.
pub proof fn law_silent_round_keeps_paths(rules: Seq<RuleView>, x: Seq<Var>)
    requires
        all_wf(rules),
        all_of_len(rules, x.len()),
        concrete(x),
        first_silent(rules) is Some,
    ensures
        ({
            let idx = first_silent(rules)->0;
            let s = rules[idx];
            let rest = rules.remove(idx);
            forall|p: Option<PortId>, z: Seq<Var>|
                #[trigger] fires(silent_step(rules), x, p, z) <==> (fires(rest, x, p, z)
                    || (rule_apply(s, x) is Some && fires(rest, rule_apply(s, x)->0, p, z)))
        }),
{
    lemma_first_silent(rules);
    let idx = first_silent(rules)->0;
    let s = rules[idx];
    let rest = rules.remove(idx);
    let n = x.len();
    assert(rule_wf(s) && rule_of_len(s, n));
    assert forall|k: int| 0 <= k < rest.len() implies rule_wf(#[trigger] rest[k]) && rule_of_len(rest[k], n) by {
        if k < idx {
            assert(rest[k] == rules[k]);
        } else {
            assert(rest[k] == rules[k + 1]);
        }
    }
    let y = rule_apply(s, x);
    if y is Some {
        law_wf_apply(s, x);
        // the state reached silently is again a single state
        assert(concrete(y->0)) by {
            assert forall|i: int| 0 <= i < n implies #[trigger] (y->0)[i] != Var::X by {
                assert(x[i] != Var::X);
            }
        }
    }
    if rule_no_effect(s) {
        assert(silent_step(rules) == rest);
        law_no_effect_is_identity(s, x);
    } else {
        let cs = compositions(s, rest);
        let joined = rest + cs;
        law_compositions_complete(s, rest);
        assert forall|c: RuleView| #[trigger] cs.contains(c) implies rule_wf(c) && rule_of_len(c, n) by {
            let k = choose|k: int| 0 <= k < rest.len() && rule_compose(s, #[trigger] rest[k]) == Some(c);
            law_compose_is_sequencing(s, rest[k], x);
            assert(rule_wf(rest[k]));
        }
        assert forall|k: int| 0 <= k < joined.len() implies rule_wf(#[trigger] joined[k]) && rule_of_len(joined[k], n) by {
            if k < rest.len() {
                assert(joined[k] == rest[k]);
            } else {
                assert(joined[k] == cs[k - rest.len()]);
                assert(cs.contains(cs[k - rest.len()]));
            }
        }
        law_merge_all_keeps_transitions(joined, x);
        assert forall|p: Option<PortId>, z: Seq<Var>|
            #[trigger] fires(joined, x, p, z) <==> (fires(rest, x, p, z)
                || (rule_apply(s, x) is Some && fires(rest, rule_apply(s, x)->0, p, z))) by {
            if fires(joined, x, p, z) {
                let k = choose|k: int| 0 <= k < joined.len() && (#[trigger] joined[k]).port == p && rule_apply(joined[k], x) == Some(z);
                if k < rest.len() {
                    assert(joined[k] == rest[k]);
                } else {
                    let c = joined[k];
                    assert(c == cs[k - rest.len()]);
                    assert(cs.contains(c));
                    let q = choose|q: int| 0 <= q < rest.len() && rule_compose(s, #[trigger] rest[q]) == Some(c);
                    law_compose_is_sequencing(s, rest[q], x);
                    assert(rest[q].port == p);
                    assert(fires(rest, rule_apply(s, x)->0, p, z));
                }
            }
            if fires(rest, x, p, z) {
                let k = choose|k: int| 0 <= k < rest.len() && (#[trigger] rest[k]).port == p && rule_apply(rest[k], x) == Some(z);
                assert(joined[k] == rest[k]);
            }
            if rule_apply(s, x) is Some && fires(rest, rule_apply(s, x)->0, p, z) {
                let t = rule_apply(s, x)->0;
                let k = choose|k: int| 0 <= k < rest.len() && (#[trigger] rest[k]).port == p && rule_apply(rest[k], t) == Some(z);
                law_compose_complete(s, rest[k], x, t, z);
                let c = rule_compose(s, rest[k])->0;
                let q = choose|q: int| 0 <= q < cs.len() && cs[q] == c;
                assert(joined[rest.len() + q] == c);
            }
        }
    }
}

} // verus!

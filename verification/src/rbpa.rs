//! Rule-based port automata: a memory mask and a list of abstract rules,
//! with normalization (elimination of silent rules) and projection onto a
//! set of atomic ports.
use vstd::prelude::*;
use crate::PortId;
use crate::var::Var;
use crate::state_set::{StateSet, STATE_LEN};
use crate::port_set::PortSet;
use crate::rule::{AbstractRule, RuleView, rule_try_merge, rule_wf, rule_no_effect, rule_compose};

verus! {

/// Which memory-variable indices are relevant. Where a position is `false`,
/// `T`, `F` and `X` are not told apart.
pub struct StateMask {
    relevant_index: [bool; STATE_LEN],
}

impl View for StateMask {
    type V = Seq<bool>;

    closed spec fn view(&self) -> Seq<bool> {
        self.relevant_index@
    }
}

/// `s` with every irrelevant position made generic.
pub open spec fn mask_state(mask: Seq<bool>, s: Seq<Var>) -> Seq<Var> {
    Seq::new(s.len(), |i: int| if i < STATE_LEN && !mask[i] { Var::X } else { s[i] })
}

impl Clone for StateMask {
    fn clone(&self) -> (r: Self)
        ensures
            r@ == self@,
    {
        self.duplicate()
    }
}

impl StateMask {
    pub fn new(relevant_index: [bool; STATE_LEN]) -> (r: StateMask)
        ensures
            r@ == relevant_index@,
    {
        StateMask { relevant_index }
    }

    pub fn relevant(&self, index: usize) -> (r: bool)
        requires
            index < STATE_LEN,
        ensures
            r == self@[index as int],
    {
        self.relevant_index[index]
    }

    pub fn duplicate(&self) -> (r: StateMask)
        ensures
            r@ == self@,
    {
        StateMask { relevant_index: self.relevant_index }
    }

    /// Every mask has one entry per memory variable.
    pub proof fn lemma_len(&self)
        ensures
            self@.len() == STATE_LEN,
    {
    }

    /// `state` with every irrelevant position made generic.
    pub fn mask(&self, state: StateSet) -> (r: StateSet)
        ensures
            r@ == mask_state(self@, state@),
    {
        let mut ret = state.duplicate();
        let n = if ret.len() <= STATE_LEN { ret.len() } else { STATE_LEN };
        let ghost s = state@;
        for i in 0..n
            invariant
                n <= STATE_LEN,
                n <= s.len(),
                self@.len() == STATE_LEN,
                ret@.len() == s.len(),
                n == s.len() || n == STATE_LEN,
                forall|j: int| 0 <= j < i ==> #[trigger] ret@[j] == mask_state(self@, s)[j],
                forall|j: int| i <= j < s.len() ==> #[trigger] ret@[j] == s[j],
        {
            if !self.relevant_index[i] {
                ret.set(i, Var::X);
            }
        }
        assert(ret@ == mask_state(self@, s));
        ret
    }
}

/// The mathematical content of a rule-based port automaton.
#[verifier::ext_equal]
pub struct RbpaView {
    pub mask: Seq<bool>,
    pub rules: Seq<RuleView>,
}

/// A port automaton with transitions represented as logical rules.
pub struct Rbpa {
    mask: StateMask,
    rules: Vec<AbstractRule>,
}

pub open spec fn rule_views(rules: Seq<AbstractRule>) -> Seq<RuleView> {
    rules.map_values(|r: AbstractRule| r@)
}

impl View for Rbpa {
    type V = RbpaView;

    closed spec fn view(&self) -> RbpaView {
        RbpaView { mask: self.mask@, rules: rule_views(self.rules@) }
    }
}

/// No rule is silent.
pub open spec fn silent_free(rules: Seq<RuleView>) -> bool {
    forall|k: int| 0 <= k < rules.len() ==> (#[trigger] rules[k]).port is Some
}

/// `k` is the index of the first silent rule.
pub open spec fn is_first_silent(rules: Seq<RuleView>, k: int) -> bool {
    &&& 0 <= k < rules.len()
    &&& rules[k].port is None
    &&& forall|j: int| 0 <= j < k ==> (#[trigger] rules[j]).port is Some
}

/// The index of the first silent rule, if there is one.
pub open spec fn first_silent(rules: Seq<RuleView>) -> Option<int> {
    if exists|k: int| is_first_silent(rules, k) {
        Some(choose|k: int| is_first_silent(rules, k))
    } else {
        None
    }
}

/// Rules `i < j` can be merged.
pub open spec fn mergeable(rules: Seq<RuleView>, i: int, j: int) -> bool {
    0 <= i < j < rules.len() && rule_try_merge(rules[i], rules[j]) is Some
}

/// `(i, j)` is the first mergeable pair in the order of `i`, then `j`.
pub open spec fn is_first_merge(rules: Seq<RuleView>, i: int, j: int) -> bool {
    &&& mergeable(rules, i, j)
    &&& forall|p: int, q: int| #![trigger mergeable(rules, p, q)]
            (p < i || (p == i && q < j)) ==> !mergeable(rules, p, q)
}

/// The first mergeable pair, if there is one.
pub open spec fn first_merge(rules: Seq<RuleView>) -> Option<(int, int)> {
    if exists|i: int, j: int| is_first_merge(rules, i, j) {
        Some(choose|i: int, j: int| is_first_merge(rules, i, j))
    } else {
        None
    }
}

/// Rule `i` replaced by its merge with rule `j`, and rule `j` removed.
pub open spec fn merge_at(rules: Seq<RuleView>, i: int, j: int) -> Seq<RuleView> {
    rules.update(i, rule_try_merge(rules[i], rules[j])->0).remove(j)
}

/// The rules after merging the first mergeable pair until none is left.
pub open spec fn merge_all(rules: Seq<RuleView>) -> Seq<RuleView>
    decreases rules.len(),
{
    if exists|i: int, j: int| is_first_merge(rules, i, j) {
        let (i, j) = choose|i: int, j: int| is_first_merge(rules, i, j);
        merge_all(merge_at(rules, i, j))
    } else {
        rules
    }
}

proof fn lemma_first_merge_unique(rules: Seq<RuleView>, i: int, j: int, p: int, q: int)
    requires
        is_first_merge(rules, i, j),
        is_first_merge(rules, p, q),
    ensures
        i == p && j == q,
{
    assert(mergeable(rules, i, j));
    assert(mergeable(rules, p, q));
}

proof fn lemma_first_silent_exists(rules: Seq<RuleView>, k: int)
    requires
        0 <= k < rules.len(),
        rules[k].port is None,
    ensures
        exists|j: int| is_first_silent(rules, j),
    decreases k,
{
    if exists|j: int| 0 <= j < k && (#[trigger] rules[j]).port is None {
        let j = choose|j: int| 0 <= j < k && (#[trigger] rules[j]).port is None;
        lemma_first_silent_exists(rules, j);
    } else {
        assert(is_first_silent(rules, k));
    }
}

/// `first_silent` is `None` exactly when no rule is silent, and otherwise
/// the index of the first silent rule.
pub proof fn lemma_first_silent(rules: Seq<RuleView>)
    ensures
        first_silent(rules) is None <==> silent_free(rules),
        first_silent(rules) matches Some(k) ==> is_first_silent(rules, k),
{
    if !silent_free(rules) {
        let k = choose|k: int| 0 <= k < rules.len() && (#[trigger] rules[k]).port is None;
        lemma_first_silent_exists(rules, k);
    }
}

/// `r` has a guard and an assignment entry at every position that `mask`
/// marks relevant.
pub open spec fn rule_fits(r: RuleView, mask: Seq<bool>) -> bool {
    forall|i: int| 0 <= i < STATE_LEN && #[trigger] mask[i] ==> r.guard.len() > i && r.assign.len() > i
}

/// Every rule has a guard and an assignment entry at each relevant position.
pub open spec fn indexable(rules: Seq<RuleView>, mask: Seq<bool>) -> bool {
    forall|k: int| 0 <= k < rules.len() ==> rule_fits(#[trigger] rules[k], mask)
}

/// Every rule keeps the rule invariant.
pub open spec fn all_wf(rules: Seq<RuleView>) -> bool {
    forall|k: int| 0 <= k < rules.len() ==> rule_wf(#[trigger] rules[k])
}

/// Position `i` is relevant, but no guard specifies it.
pub open spec fn newly_irrelevant(v: RbpaView, i: int) -> bool {
    &&& v.mask[i]
    &&& forall|k: int| 0 <= k < v.rules.len() ==> reads_generic(#[trigger] v.rules[k], i)
}

/// The guard of `r` has position `i`, and leaves it generic.
pub open spec fn reads_generic(r: RuleView, i: int) -> bool {
    r.guard.len() > i && r.guard[i] == Var::X
}

/// Masking can read what it reads: at each relevant position, the guard of
/// every rule up to the first that specifies it, and, where none does, the
/// assignment of every rule.
pub open spec fn mask_reads_ok(v: RbpaView) -> bool {
    forall|i: int| 0 <= i < STATE_LEN && #[trigger] v.mask[i] ==> {
        &&& forall|k: int| 0 <= k < v.rules.len()
                && (forall|q: int| 0 <= q < k ==> reads_generic(#[trigger] v.rules[q], i))
                ==> (#[trigger] v.rules[k]).guard.len() > i
        &&& (forall|k: int| 0 <= k < v.rules.len() ==> reads_generic(#[trigger] v.rules[k], i))
                ==> forall|k: int| 0 <= k < v.rules.len() ==> (#[trigger] v.rules[k]).assign.len() > i
    }
}

/// Every rule fitting the relevant positions lets masking read what it reads.
pub proof fn lemma_indexable_reads_ok(v: RbpaView)
    requires
        indexable(v.rules, v.mask),
    ensures
        mask_reads_ok(v),
{
    assert forall|i: int| 0 <= i < STATE_LEN && #[trigger] v.mask[i] implies {
        &&& forall|k: int| 0 <= k < v.rules.len()
                && (forall|q: int| 0 <= q < k ==> reads_generic(#[trigger] v.rules[q], i))
                ==> (#[trigger] v.rules[k]).guard.len() > i
        &&& (forall|k: int| 0 <= k < v.rules.len() ==> reads_generic(#[trigger] v.rules[k], i))
                ==> forall|k: int| 0 <= k < v.rules.len() ==> (#[trigger] v.rules[k]).assign.len() > i
    } by {
        assert forall|k: int| 0 <= k < v.rules.len() implies (#[trigger] v.rules[k]).guard.len() > i
            && v.rules[k].assign.len() > i by {
            assert(rule_fits(v.rules[k], v.mask));
        }
    }
}

/// `r` with its assignment made generic at each position below `n` that is newly irrelevant in `v`.
pub open spec fn mask_rule_upto(r: RuleView, v: RbpaView, n: int) -> RuleView {
    RuleView {
        assign: Seq::new(r.assign.len(), |i: int| if i < n && newly_irrelevant(v, i) { Var::X } else { r.assign[i] }),
        ..r
    }
}

/// `v` after masking the newly irrelevant positions below `n`.
pub open spec fn masked_upto(v: RbpaView, n: int) -> RbpaView {
    RbpaView {
        mask: Seq::new(v.mask.len(), |i: int| if i < n && newly_irrelevant(v, i) { false } else { v.mask[i] }),
        rules: Seq::new(v.rules.len(), |k: int| mask_rule_upto(v.rules[k], v, n)),
    }
}

/// Some position is newly irrelevant.
pub open spec fn has_newly_irrelevant(v: RbpaView) -> bool {
    exists|i: int| 0 <= i < STATE_LEN && #[trigger] newly_irrelevant(v, i)
}

proof fn lemma_masked_step_noop(v: RbpaView, i: int)
    requires
        !newly_irrelevant(v, i),
    ensures
        masked_upto(v, i + 1) == masked_upto(v, i),
{
    let a = masked_upto(v, i + 1);
    let b = masked_upto(v, i);
    assert forall|k: int| 0 <= k < v.rules.len() implies #[trigger] a.rules[k] == b.rules[k] by {
        assert(a.rules[k] =~= b.rules[k]);
    }
    assert(a =~= b);
}


/// The compositions of `s` with each rule of `rest` that it can precede, in order.
pub open spec fn compositions(s: RuleView, rest: Seq<RuleView>) -> Seq<RuleView>
    decreases rest.len(),
{
    if rest.len() == 0 {
        Seq::empty()
    } else {
        let prev = compositions(s, rest.drop_last());
        match rule_compose(s, rest.last()) {
            Some(c) => prev.push(c),
            None => prev,
        }
    }
}

/// One round of silent-rule elimination: the first silent rule is removed
/// and, unless it has no effect, replaced by its compositions with every
/// other rule, after which rules are merged.
pub open spec fn silent_step(rules: Seq<RuleView>) -> Seq<RuleView> {
    match first_silent(rules) {
        None => rules,
        Some(idx) => {
            let s = rules[idx];
            let rest = rules.remove(idx);
            if rule_no_effect(s) {
                rest
            } else {
                merge_all(rest + compositions(s, rest))
            }
        },
    }
}

/// The rules after `n` rounds of silent-rule elimination.
pub open spec fn silent_steps(rules: Seq<RuleView>, n: nat) -> Seq<RuleView>
    decreases n,
{
    if n == 0 {
        rules
    } else {
        silent_steps(silent_step(rules), (n - 1) as nat)
    }
}

/// Silent-rule elimination reaches a state with no silent rule.
pub open spec fn elimination_terminates(rules: Seq<RuleView>) -> bool {
    exists|n: nat| silent_free(#[trigger] silent_steps(rules, n))
}

/// The rules once every silent rule has been eliminated.
pub open spec fn eliminate_silent(rules: Seq<RuleView>) -> Seq<RuleView> {
    silent_steps(rules, choose|n: nat| silent_free(#[trigger] silent_steps(rules, n)))
}

/// Number of relevant memory positions.
pub open spec fn relevant_count(mask: Seq<bool>) -> nat {
    (if mask[0] { 1nat } else { 0nat }) + (if mask[1] { 1nat } else { 0nat }) + (if mask[2] { 1nat } else { 0nat })
}

/// The automaton after alternately masking irrelevant positions and merging
/// rules until neither changes anything.
pub open spec fn tidy(v: RbpaView) -> RbpaView
    decreases relevant_count(v.mask), v.rules.len(),
{
    if v.mask.len() == STATE_LEN && has_newly_irrelevant(v) {
        proof { lemma_masking_shrinks(v); }
        tidy(masked_upto(v, STATE_LEN as int))
    } else if first_merge(v.rules) is Some {
        proof { lemma_merge_all_len(v.rules); }
        tidy(RbpaView { mask: v.mask, rules: merge_all(v.rules) })
    } else {
        v
    }
}

/// The automaton that `normalize` produces.
pub open spec fn normalized(v: RbpaView) -> RbpaView {
    tidy(RbpaView { mask: v.mask, rules: eliminate_silent(v.rules) })
}

/// The port is absent or among `allowed`.
pub open spec fn port_allowed(p: Option<PortId>, allowed: Set<PortId>) -> bool {
    p matches Some(q) ==> allowed.contains(q)
}

/// Every rule's port is absent or among `allowed`.
pub open spec fn ports_allowed(rules: Seq<RuleView>, allowed: Set<PortId>) -> bool {
    forall|k: int| 0 <= k < rules.len() ==> port_allowed((#[trigger] rules[k]).port, allowed)
}

/// The rule properties that every operation keeps.
pub open spec fn rules_ok(rules: Seq<RuleView>, mask: Seq<bool>, allowed: Set<PortId>) -> bool {
    indexable(rules, mask) && ports_allowed(rules, allowed)
}

/// Masking a newly irrelevant position lowers the number of relevant positions.
pub proof fn lemma_masking_shrinks(v: RbpaView)
    requires
        v.mask.len() == STATE_LEN,
        has_newly_irrelevant(v),
    ensures
        relevant_count(masked_upto(v, STATE_LEN as int).mask) < relevant_count(v.mask),
{
    let i = choose|i: int| 0 <= i < STATE_LEN && #[trigger] newly_irrelevant(v, i);
    let m = masked_upto(v, STATE_LEN as int).mask;
    assert(!m[i]);
    assert(forall|j: int| 0 <= j < STATE_LEN ==> (m[j] ==> v.mask[j]));
}

/// Merging never adds rules, and removes at least one where any pair merges.
pub proof fn lemma_merge_all_len(rules: Seq<RuleView>)
    ensures
        merge_all(rules).len() <= rules.len(),
        first_merge(rules) is Some ==> merge_all(rules).len() < rules.len(),
    decreases rules.len(),
{
    if exists|i: int, j: int| is_first_merge(rules, i, j) {
        let (i, j) = choose|i: int, j: int| is_first_merge(rules, i, j);
        lemma_merge_all_len(merge_at(rules, i, j));
    }
}

/// Where some pair of rules merges, there is a first such pair.
proof fn lemma_first_merge_exists(rules: Seq<RuleView>, i: int, j: int)
    requires
        mergeable(rules, i, j),
    ensures
        exists|p: int, q: int| is_first_merge(rules, p, q),
    decreases i, j,
{
    if exists|p: int, q: int| #![trigger mergeable(rules, p, q)] (p < i || (p == i && q < j)) && mergeable(rules, p, q) {
        let (p, q) = choose|p: int, q: int| #![trigger mergeable(rules, p, q)]
            (p < i || (p == i && q < j)) && mergeable(rules, p, q);
        lemma_first_merge_exists(rules, p, q);
    } else {
        assert(is_first_merge(rules, i, j));
    }
}

/// Merging runs to the end: once the rules are merged, no two of them can
/// be represented by one rule.
pub proof fn law_merge_all_settles(rules: Seq<RuleView>)
    ensures
        forall|i: int, j: int| 0 <= i < j < merge_all(rules).len()
            ==> #[trigger] rule_try_merge(merge_all(rules)[i], merge_all(rules)[j]) is None,
    decreases rules.len(),
{
    if exists|i: int, j: int| is_first_merge(rules, i, j) {
        let (i, j) = choose|i: int, j: int| is_first_merge(rules, i, j);
        law_merge_all_settles(merge_at(rules, i, j));
    } else {
        assert forall|i: int, j: int| 0 <= i < j < merge_all(rules).len()
            implies #[trigger] rule_try_merge(merge_all(rules)[i], merge_all(rules)[j]) is None by {
            if rule_try_merge(rules[i], rules[j]) is Some {
                lemma_first_merge_exists(rules, i, j);
            }
        }
    }
}

proof fn lemma_merge_keeps(r1: RuleView, r2: RuleView, mask: Seq<bool>, allowed: Set<PortId>)
    requires
        rule_try_merge(r1, r2) is Some,
        rule_fits(r1, mask),
        rule_fits(r2, mask),
        port_allowed(r1.port, allowed),
        port_allowed(r2.port, allowed),
    ensures
        ({
            let m = rule_try_merge(r1, r2)->0;
            &&& rule_fits(m, mask)
            &&& port_allowed(m.port, allowed)
            &&& (m.port == r1.port || m.port == r2.port)
            &&& (rule_wf(r1) && rule_wf(r2) ==> rule_wf(m))
        }),
{
}

/// Merging keeps the rule properties and draws every port from the rules merged.
pub proof fn lemma_merge_all_keeps(rules: Seq<RuleView>, mask: Seq<bool>, allowed: Set<PortId>)
    requires
        rules_ok(rules, mask, allowed),
    ensures
        rules_ok(merge_all(rules), mask, allowed),
        all_wf(rules) ==> all_wf(merge_all(rules)),
        silent_free(rules) ==> silent_free(merge_all(rules)),
    decreases rules.len(),
{
    if exists|i: int, j: int| is_first_merge(rules, i, j) {
        let (i, j) = choose|i: int, j: int| is_first_merge(rules, i, j);
        lemma_merge_keeps(rules[i], rules[j], mask, allowed);
        let next = merge_at(rules, i, j);
        assert forall|k: int| 0 <= k < next.len() implies
            rule_fits(#[trigger] next[k], mask)
            && port_allowed(next[k].port, allowed)
            && (all_wf(rules) ==> rule_wf(next[k]))
            && (silent_free(rules) ==> next[k].port is Some)
        by {
            if k < j {
                if k == i {
                } else {
                    assert(next[k] == rules[k]);
                }
            } else {
                assert(next[k] == rules[k + 1]);
            }
        }
        lemma_merge_all_keeps(next, mask, allowed);
    }
}

/// Composition with a silent first rule keeps the rule properties.
pub proof fn lemma_compositions_keep(s: RuleView, rest: Seq<RuleView>, mask: Seq<bool>, allowed: Set<PortId>)
    requires
        s.port is None,
        rule_fits(s, mask),
        rules_ok(rest, mask, allowed),
    ensures
        rules_ok(compositions(s, rest), mask, allowed),
        all_wf(compositions(s, rest)),
    decreases rest.len(),
{
    if rest.len() > 0 {
        let prev = rest.drop_last();
        assert(rules_ok(prev, mask, allowed)) by {
            assert forall|k: int| 0 <= k < prev.len() implies
                rule_fits(#[trigger] prev[k], mask)
                && port_allowed(prev[k].port, allowed)
            by {
                assert(prev[k] == rest[k]);
            }
        }
        lemma_compositions_keep(s, prev, mask, allowed);
        let last = rest.last();
        assert(last == rest[rest.len() - 1]);
        match rule_compose(s, last) {
            Some(c) => {
                let all = compositions(s, prev).push(c);
                assert forall|k: int| 0 <= k < all.len() implies
                    rule_fits(#[trigger] all[k], mask)
                    && port_allowed(all[k].port, allowed) && rule_wf(all[k])
                by {
                    if k < all.len() - 1 {
                        assert(all[k] == compositions(s, prev)[k]);
                    } else {
                        assert(all[k] == c);
                    }
                }
            },
            None => {},
        }
    }
}

/// A round of elimination keeps the rule properties.
pub proof fn lemma_silent_step_keeps(rules: Seq<RuleView>, mask: Seq<bool>, allowed: Set<PortId>)
    requires
        rules_ok(rules, mask, allowed),
    ensures
        rules_ok(silent_step(rules), mask, allowed),
        all_wf(rules) ==> all_wf(silent_step(rules)),
{
    lemma_first_silent(rules);
    match first_silent(rules) {
        None => {},
        Some(idx) => {
            let s = rules[idx];
            let rest = rules.remove(idx);
            assert(rules_ok(rest, mask, allowed) && (all_wf(rules) ==> all_wf(rest))) by {
                assert forall|k: int| 0 <= k < rest.len() implies
                    rule_fits(#[trigger] rest[k], mask)
                    && port_allowed(rest[k].port, allowed) && (all_wf(rules) ==> rule_wf(rest[k]))
                by {
                    if k < idx {
                        assert(rest[k] == rules[k]);
                    } else {
                        assert(rest[k] == rules[k + 1]);
                    }
                }
            }
            if !rule_no_effect(s) {
                lemma_compositions_keep(s, rest, mask, allowed);
                let joined = rest + compositions(s, rest);
                assert(rules_ok(joined, mask, allowed) && (all_wf(rules) ==> all_wf(joined))) by {
                    assert forall|k: int| 0 <= k < joined.len() implies
                        rule_fits(#[trigger] joined[k], mask)
                        && port_allowed(joined[k].port, allowed) && (all_wf(rules) ==> rule_wf(joined[k]))
                    by {
                        if k < rest.len() {
                            assert(joined[k] == rest[k]);
                        } else {
                            assert(joined[k] == compositions(s, rest)[k - rest.len()]);
                        }
                    }
                }
                lemma_merge_all_keeps(joined, mask, allowed);
            }
        },
    }
}

/// Rounds of elimination keep the rule properties.
pub proof fn lemma_silent_steps_keep(rules: Seq<RuleView>, n: nat, mask: Seq<bool>, allowed: Set<PortId>)
    requires
        rules_ok(rules, mask, allowed),
    ensures
        rules_ok(silent_steps(rules, n), mask, allowed),
        all_wf(rules) ==> all_wf(silent_steps(rules, n)),
    decreases n,
{
    if n > 0 {
        lemma_silent_step_keeps(rules, mask, allowed);
        lemma_silent_steps_keep(silent_step(rules), (n - 1) as nat, mask, allowed);
    }
}

/// Once no silent rule is left, further rounds change nothing.
pub proof fn lemma_silent_steps_fixed(rules: Seq<RuleView>, a: nat, b: nat)
    requires
        silent_free(silent_steps(rules, a)),
        a <= b,
    ensures
        silent_steps(rules, b) == silent_steps(rules, a),
    decreases a,
{
    if a == 0 {
        lemma_steps_of_free(rules, b);
    } else {
        lemma_silent_steps_fixed(silent_step(rules), (a - 1) as nat, (b - 1) as nat);
    }
}

proof fn lemma_steps_of_free(rules: Seq<RuleView>, b: nat)
    requires
        silent_free(rules),
    ensures
        silent_steps(rules, b) == rules,
    decreases b,
{
    lemma_first_silent(rules);
    if b > 0 {
        assert(silent_step(rules) == rules);
        lemma_steps_of_free(rules, (b - 1) as nat);
    }
}

proof fn lemma_steps_unfold(rules: Seq<RuleView>, k: nat)
    ensures
        silent_steps(rules, k + 1) == silent_step(silent_steps(rules, k)),
    decreases k,
{
    if k > 0 {
        lemma_steps_unfold(silent_step(rules), (k - 1) as nat);
        assert(silent_steps(rules, k) == silent_steps(silent_step(rules), (k - 1) as nat));
        assert(silent_steps(rules, k + 1) == silent_steps(silent_step(rules), k));
    } else {
        assert(silent_steps(rules, 1) == silent_steps(silent_step(rules), 0));
    }
}

/// Masking is idempotent: once the newly irrelevant positions are masked,
/// no position is newly irrelevant, and masking again changes nothing.
pub proof fn law_mask_idempotent(v: RbpaView)
    requires
        v.mask.len() == STATE_LEN,
    ensures
        !has_newly_irrelevant(masked_upto(v, STATE_LEN as int)),
        masked_upto(masked_upto(v, STATE_LEN as int), STATE_LEN as int) == masked_upto(v, STATE_LEN as int),
{
    let m = masked_upto(v, STATE_LEN as int);
    assert forall|i: int| 0 <= i < STATE_LEN implies !#[trigger] newly_irrelevant(m, i) by {
        if m.mask[i] {
            assert(!newly_irrelevant(v, i));
            let k = choose|k: int| 0 <= k < v.rules.len() && !reads_generic(#[trigger] v.rules[k], i);
            assert(m.rules[k].guard == v.rules[k].guard);
            assert(!reads_generic(m.rules[k], i));
        }
    }
    let mm = masked_upto(m, STATE_LEN as int);
    assert forall|k: int| 0 <= k < m.rules.len() implies #[trigger] mm.rules[k] == m.rules[k] by {
        assert(mm.rules[k].assign =~= m.rules[k].assign);
    }
    assert(mm.rules =~= m.rules);
    assert(mm.mask =~= m.mask);
}

/// Masking keeps the rule properties.
pub proof fn lemma_masked_keeps(v: RbpaView)
    requires
        indexable(v.rules, v.mask),
        v.mask.len() == STATE_LEN,
    ensures
        ({
            let m = masked_upto(v, STATE_LEN as int);
            &&& indexable(m.rules, m.mask)
            &&& m.mask.len() == STATE_LEN
            &&& (silent_free(v.rules) ==> silent_free(m.rules))
            &&& (all_wf(v.rules) ==> all_wf(m.rules))
            &&& forall|allowed: Set<PortId>| ports_allowed(v.rules, allowed)
                    ==> #[trigger] ports_allowed(m.rules, allowed)
        }),
{
    let m = masked_upto(v, STATE_LEN as int);
    assert forall|k: int| 0 <= k < m.rules.len() implies
        rule_fits(#[trigger] m.rules[k], m.mask)
        && m.rules[k].port == v.rules[k].port
        && (all_wf(v.rules) ==> rule_wf(m.rules[k]))
    by {
        if all_wf(v.rules) {
            assert(rule_wf(v.rules[k]));
            assert forall|i: int| 0 <= i < crate::state_set::min_len(m.rules[k].guard.len() as int, m.rules[k].assign.len() as int)
                && #[trigger] m.rules[k].assign[i] == Var::X implies m.rules[k].guard[i] == Var::X by {
                if i < STATE_LEN && newly_irrelevant(v, i) {
                    assert(v.rules[k].guard[i] == Var::X);
                }
            }
        }
    }
}

/// Tidying keeps the rule properties and never makes a rule silent.
pub proof fn lemma_tidy_keeps(v: RbpaView, allowed: Set<PortId>)
    requires
        rules_ok(v.rules, v.mask, allowed),
        v.mask.len() == STATE_LEN,
    ensures
        rules_ok(tidy(v).rules, tidy(v).mask, allowed),
        all_wf(v.rules) ==> all_wf(tidy(v).rules),
        silent_free(v.rules) ==> silent_free(tidy(v).rules),
        tidy(v).mask.len() == STATE_LEN,
    decreases relevant_count(v.mask), v.rules.len(),
{
    if v.mask.len() == STATE_LEN && has_newly_irrelevant(v) {
        lemma_masking_shrinks(v);
        let m = masked_upto(v, STATE_LEN as int);
        assert forall|k: int| 0 <= k < m.rules.len() implies
            rule_fits(#[trigger] m.rules[k], m.mask)
            && port_allowed(m.rules[k].port, allowed)
            && (all_wf(v.rules) ==> rule_wf(m.rules[k]))
            && (silent_free(v.rules) ==> m.rules[k].port is Some)
        by {
            let r = v.rules[k];
            if all_wf(v.rules) {
                assert(rule_wf(r));
                assert forall|i: int| 0 <= i < crate::state_set::min_len(m.rules[k].guard.len() as int, m.rules[k].assign.len() as int)
                    && #[trigger] m.rules[k].assign[i] == Var::X implies m.rules[k].guard[i] == Var::X by {
                    if i < STATE_LEN && newly_irrelevant(v, i) {
                        assert(v.rules[k].guard[i] == Var::X);
                    }
                }
            }
        }
        lemma_tidy_keeps(m, allowed);
    } else if first_merge(v.rules) is Some {
        lemma_merge_all_len(v.rules);
        lemma_merge_all_keeps(v.rules, v.mask, allowed);
        lemma_tidy_keeps(RbpaView { mask: v.mask, rules: merge_all(v.rules) }, allowed);
    }
}

impl Clone for Rbpa {
    fn clone(&self) -> (r: Self)
        ensures
            r@ == self@,
    {
        let mut rules: Vec<AbstractRule> = Vec::new();
        let n = self.rules.len();
        for k in 0..n
            invariant
                n == self.rules@.len(),
                rules@.len() == k,
                rule_views(rules@) == rule_views(self.rules@).take(k as int),
        {
            let ghost before = rules@;
            let r = self.rules[k].duplicate();
            rules.push(r);
            assert forall|j: int| 0 <= j < k + 1 implies #[trigger] rule_views(rules@)[j] == rule_views(self.rules@).take(k + 1)[j] by {
                if j < k {
                    assert(rules@[j] == before[j]);
                    assert(rule_views(before)[j] == rule_views(self.rules@).take(k as int)[j]);
                }
            }
            assert(rule_views(rules@) =~= rule_views(self.rules@).take(k + 1));
        }
        assert(rule_views(self.rules@).take(n as int) =~= rule_views(self.rules@));
        Rbpa { mask: self.mask.duplicate(), rules }
    }
}

impl Rbpa {
    pub fn new(mask: StateMask, rules: Vec<AbstractRule>) -> (r: Rbpa)
        ensures
            r@ == (RbpaView { mask: mask@, rules: rule_views(rules@) }),
    {
        Rbpa { mask, rules }
    }

    /// The mask of every automaton has one entry per memory variable.
    pub proof fn lemma_mask_len(&self)
        ensures
            self@.mask.len() == STATE_LEN,
    {
        self.mask.lemma_len();
    }

    pub fn mask(&self) -> (r: &StateMask)
        ensures
            r@ == self@.mask,
    {
        &self.mask
    }

    pub fn rules(&self) -> (r: &Vec<AbstractRule>)
        ensures
            rule_views(r@) == self@.rules,
    {
        &self.rules
    }

    /// The index of the first silent rule, if there is one.
    pub fn first_silent_idx(&self) -> (r: Option<usize>)
        ensures
            r matches Some(k) ==> is_first_silent(self@.rules, k as int),
            r is None <==> silent_free(self@.rules),
            r is Some <==> first_silent(self@.rules) is Some,
            r matches Some(k) ==> first_silent(self@.rules) == Some(k as int),
    {
        let ghost rv = self@.rules;
        let n = self.rules.len();
        let mut i: usize = 0;
        while i < n
            invariant
                rv == self@.rules,
                n == rv.len(),
                0 <= i <= n,
                forall|j: int| 0 <= j < i ==> (#[trigger] rv[j]).port is Some,
            decreases n - i,
        {
            assert(rv[i as int] == self.rules@[i as int]@);
            if self.rules[i].is_silent() {
                assert(is_first_silent(rv, i as int));
                proof {
                    lemma_first_silent(rv);
                    let k = first_silent(rv)->0;
                    assert(is_first_silent(rv, k));
                    if k < i {
                    } else if k > i {
                        assert(rv[i as int].port is Some);
                    }
                }
                return Some(i);
            }
            i = i + 1;
        }
        proof { lemma_first_silent(rv); }
        None
    }

    /// The first mergeable pair of rules and their merge, if there is one.
    fn find_merge(&self) -> (r: Option<(usize, usize, AbstractRule)>)
        ensures
            r is None ==> !exists|i: int, j: int| #[trigger] mergeable(self@.rules, i, j),
            r matches Some((i, j, m)) ==> is_first_merge(self@.rules, i as int, j as int)
                && m@ == rule_try_merge(self@.rules[i as int], self@.rules[j as int])->0,
    {
        let ghost rv = self@.rules;
        let n = self.rules.len();
        let mut i: usize = 0;
        while i < n
            invariant
                rv == self@.rules,
                n == rv.len(),
                0 <= i <= n,
                forall|p: int, q: int| #![trigger mergeable(rv, p, q)] p < i ==> !mergeable(rv, p, q),
            decreases n - i,
        {
            let mut j: usize = i + 1;
            while j < n
                invariant
                    rv == self@.rules,
                    n == rv.len(),
                    0 <= i < n,
                    i + 1 <= j <= n,
                    forall|p: int, q: int| #![trigger mergeable(rv, p, q)]
                        (p < i || (p == i && q < j)) ==> !mergeable(rv, p, q),
                decreases n - j,
            {
                assert(rv[i as int] == self.rules@[i as int]@);
                assert(rv[j as int] == self.rules@[j as int]@);
                match self.rules[i].try_merge(&self.rules[j]) {
                    Some(m) => {
                        assert(mergeable(rv, i as int, j as int));
                        return Some((i, j, m));
                    },
                    None => {},
                }
                j = j + 1;
            }
            assert forall|p: int, q: int| #![trigger mergeable(rv, p, q)] p < i + 1 implies !mergeable(rv, p, q) by {
                if p == i && q >= n {
                    assert(!mergeable(rv, p, q));
                }
            }
            i = i + 1;
        }
        None
    }

    /// Marks every relevant position that no guard specifies as irrelevant,
    /// making it generic in every assignment. Returns whether anything changed.
    pub fn mask_irrelevant_vars(&mut self) -> (changed: bool)
        requires
            mask_reads_ok(old(self)@),
        ensures
            final(self)@ == masked_upto(old(self)@, STATE_LEN as int),
            changed == has_newly_irrelevant(old(self)@),
            !changed ==> final(self)@ == old(self)@,
            !has_newly_irrelevant(final(self)@),
            indexable(old(self)@.rules, old(self)@.mask) ==> indexable(final(self)@.rules, final(self)@.mask),
    {
        let ghost start = self@;
        proof {
            self.lemma_mask_len();
            law_mask_idempotent(start);
            if indexable(start.rules, start.mask) {
                lemma_masked_keeps(start);
            }
        }
        let mut changed = false;
        let n = self.rules.len();
        proof {
            let m0 = masked_upto(start, 0);
            assert forall|k: int| 0 <= k < n implies #[trigger] m0.rules[k] == start.rules[k] by {
                assert(m0.rules[k] =~= start.rules[k]);
            }
            assert(m0 =~= start);
        }
        for i in 0..STATE_LEN
            invariant
                start == old(self)@,
                self.rules@.len() == n,
                mask_reads_ok(start),
                n == start.rules.len(),
                self@.mask.len() == STATE_LEN,
                self@ == masked_upto(start, i as int),
                changed == exists|p: int| 0 <= p < i && #[trigger] newly_irrelevant(start, p),
                !changed ==> self@ == start,
        {
            let ghost before = self@;
            if self.mask.relevant(i) {
                assert(start.mask[i as int]);
                let mut all_generic = true;
                let mut k: usize = 0;
                while k < n && all_generic
                    invariant
                        self@ == before,
                        self.rules@.len() == n,
                        before == masked_upto(start, i as int),
                        mask_reads_ok(start),
                        start.mask[i as int],
                        n == start.rules.len(),
                        0 <= i < STATE_LEN,
                        0 <= k <= n,
                        all_generic == forall|q: int| 0 <= q < k ==> reads_generic(#[trigger] start.rules[q], i as int),
                    decreases n - k,
                {
                    assert(self.rules@[k as int]@ == self@.rules[k as int]);
                    assert(start.rules[k as int].guard.len() > i);
                    if self.rules[k].guard().get(i).is_specific() {
                        all_generic = false;
                        assert(!reads_generic(start.rules[k as int], i as int));
                    }
                    k = k + 1;
                }
                if all_generic {
                    assert(newly_irrelevant(start, i as int));
                    changed = true;
                    self.mask.relevant_index[i] = false;
                    let mut k2: usize = 0;
                    while k2 < n
                        invariant
                            start == old(self)@,
                            self.rules@.len() == n,
                            mask_reads_ok(start),
                            n == start.rules.len(),
                            0 <= i < STATE_LEN,
                            0 <= k2 <= n,
                            newly_irrelevant(start, i as int),
                            self@.mask == masked_upto(start, i + 1).mask,
                            self@.rules.len() == n,
                            forall|q: int| 0 <= q < k2 ==> #[trigger] self@.rules[q] == mask_rule_upto(start.rules[q], start, i + 1),
                            forall|q: int| k2 <= q < n ==> #[trigger] self@.rules[q] == mask_rule_upto(start.rules[q], start, i as int),
                        decreases n - k2,
                    {
                        let ghost old_rule = self@.rules[k2 as int];
                        assert(reads_generic(start.rules[k2 as int], i as int));
                        assert(self.rules@[k2 as int]@ == old_rule);
                        let mut r = self.rules[k2].duplicate();
                        r.make_generic_at(i);
                        assert(r@ =~= mask_rule_upto(start.rules[k2 as int], start, i + 1));
                        let ghost rs = self@.rules;
                        self.rules.set(k2, r);
                        assert(self@.rules =~= rs.update(k2 as int, r@));
                        k2 = k2 + 1;
                    }
                    assert(self@ =~= masked_upto(start, i + 1));
                } else {
                    proof { lemma_masked_step_noop(start, i as int); }
                }
            } else {
                proof { lemma_masked_step_noop(start, i as int); }
            }
        }
        changed
    }


    /// The compositions of `silent` with each rule, in order.
    fn compose_all(&self, silent: &AbstractRule) -> (r: Vec<AbstractRule>)
        ensures
            rule_views(r@) == compositions(silent@, self@.rules),
    {
        let ghost rest = self@.rules;
        let mut buf: Vec<AbstractRule> = Vec::new();
        let n = self.rules.len();
        for i in 0..n
            invariant
                rest == self@.rules,
                n == rest.len(),
                self.rules@.len() == n,
                rule_views(buf@) == compositions(silent@, rest.take(i as int)),
        {
            assert(rest.take(i + 1).drop_last() =~= rest.take(i as int));
            assert(rest.take(i + 1).last() == rest[i as int]);
            assert(self.rules@[i as int]@ == rest[i as int]);
            let ghost before = buf@;
            match silent.compose(&self.rules[i]) {
                Some(c) => {
                    buf.push(c);
                    assert(rule_views(buf@) =~= rule_views(before).push(c@));
                },
                None => {},
            }
        }
        assert(rest.take(n as int) =~= rest);
        buf
    }

    /// Eliminates all silent rules, replacing each by its compositions with
    /// the other rules, then masks irrelevant memory and merges rules until
    /// nothing changes.
    ///
    /// Elimination need not end: compositions of silent rules with silent
    /// rules are silent again. Where it does not end this loops forever, so
    /// the contract covers the automata on which it ends. Every rule must
    /// have a guard and an assignment entry at each relevant memory
    /// position, since masking reads that position of every rule.
    pub fn normalize(&mut self)
        requires
            indexable(old(self)@.rules, old(self)@.mask),
            elimination_terminates(old(self)@.rules),
        ensures
            final(self)@ == normalized(old(self)@),
            silent_free(final(self)@.rules),
            first_merge(final(self)@.rules) is None,
            !has_newly_irrelevant(final(self)@),
            indexable(final(self)@.rules, final(self)@.mask),
            all_wf(old(self)@.rules) ==> all_wf(final(self)@.rules),
            forall|allowed: Set<PortId>| ports_allowed(old(self)@.rules, allowed)
                ==> #[trigger] ports_allowed(final(self)@.rules, allowed),
    {
        let ghost orig = self@.rules;
        let ghost start = self@;
        let ghost n: nat = choose|n: nat| silent_free(#[trigger] silent_steps(orig, n));
        let ghost mut k: nat = 0;
        proof {
            lemma_silent_steps_keep(orig, n, start.mask, Set::full());
        }
        loop
            invariant
                start == old(self)@,
                orig == start.rules,
                silent_free(silent_steps(orig, n)),
                k <= n,
                self@.rules == silent_steps(orig, k),
                self@.mask == start.mask,
                indexable(orig, start.mask),
            ensures
                silent_free(self@.rules),
                self@.rules == silent_steps(orig, k),
                self@.mask == start.mask,
            decreases n - k,
        {
            let ghost cur = self@.rules;
            match self.first_silent_idx() {
                None => {
                    break;
                },
                Some(idx) => {
                    proof {
                        if k >= n {
                            lemma_silent_steps_fixed(orig, n, k);
                        }
                    }
                    assert(self.rules@[idx as int]@ == cur[idx as int]);
                    let silent = self.rules.remove(idx);
                    assert(self@.rules =~= cur.remove(idx as int));
                    if !silent.no_effect() {
                        let mut buf = self.compose_all(&silent);
                        let ghost rest = self@.rules;
                        self.rules.append(&mut buf);
                        assert(self@.rules =~= rest + compositions(silent@, rest));
                        let _ = self.merge_rules();
                    }
                    proof {
                        lemma_first_silent(cur);
                        lemma_steps_unfold(orig, k);
                        k = k + 1;
                    }
                },
            }
        }
        proof {
            assert(self@.rules == eliminate_silent(orig)) by {
                let c = choose|m: nat| silent_free(#[trigger] silent_steps(orig, m));
                if c <= k {
                    lemma_silent_steps_fixed(orig, c, k);
                } else {
                    lemma_silent_steps_fixed(orig, k, c);
                }
            }
            lemma_silent_steps_keep(orig, k, start.mask, Set::full());
            assert forall|allowed: Set<PortId>| ports_allowed(orig, allowed)
                implies #[trigger] ports_allowed(silent_steps(orig, k), allowed) by {
                lemma_silent_steps_keep(orig, k, start.mask, allowed);
            }
        }
        let ghost mid = self@;
        assert(self.mask.relevant_index@.len() == STATE_LEN);
        loop
            invariant
                tidy(self@) == tidy(mid),
                self@.mask.len() == STATE_LEN,
                indexable(self@.rules, self@.mask),
                silent_free(self@.rules),
                all_wf(mid.rules) ==> all_wf(self@.rules),
                forall|allowed: Set<PortId>| ports_allowed(mid.rules, allowed)
                    ==> #[trigger] ports_allowed(self@.rules, allowed),
            ensures
                tidy(self@) == tidy(mid),
                tidy(self@) == self@,
                first_merge(self@.rules) is None,
                !has_newly_irrelevant(self@),
                indexable(self@.rules, self@.mask),
                silent_free(self@.rules),
                all_wf(mid.rules) ==> all_wf(self@.rules),
                forall|allowed: Set<PortId>| ports_allowed(mid.rules, allowed)
                    ==> #[trigger] ports_allowed(self@.rules, allowed),
            decreases relevant_count(self@.mask), self@.rules.len(),
        {
            let ghost before = self@;
            proof {
                lemma_indexable_reads_ok(before);
                lemma_tidy_keeps(before, Set::full());
                assert forall|allowed: Set<PortId>| ports_allowed(before.rules, allowed)
                    implies #[trigger] ports_allowed(tidy(before).rules, allowed) by {
                    lemma_tidy_keeps(before, allowed);
                }
            }
            if self.mask_irrelevant_vars() {
                proof {
                    lemma_masking_shrinks(before);
                    lemma_masked_keeps(before);
                }
                continue;
            }
            if !self.merge_rules() {
                break;
            }
            proof {
                lemma_merge_all_len(before.rules);
                lemma_merge_all_keeps(before.rules, before.mask, Set::full());
                assert forall|allowed: Set<PortId>| ports_allowed(before.rules, allowed)
                    implies #[trigger] ports_allowed(merge_all(before.rules), allowed) by {
                    lemma_merge_all_keeps(before.rules, before.mask, allowed);
                }
            }
        }
    }

    /// Merges pairs of rules that one rule can represent until none is left.
    /// Returns whether anything changed.
    pub fn merge_rules(&mut self) -> (changed: bool)
        ensures
            final(self)@.mask == old(self)@.mask,
            final(self)@.rules == merge_all(old(self)@.rules),
            changed == (first_merge(old(self)@.rules) is Some),
            !changed ==> final(self)@ == old(self)@,
            forall|i: int, j: int| 0 <= i < j < final(self)@.rules.len()
                ==> #[trigger] rule_try_merge(final(self)@.rules[i], final(self)@.rules[j]) is None,
    {
        proof {
            law_merge_all_settles(self@.rules);
        }
        let ghost start = self@;
        let mut changed = false;
        loop
            invariant
                start == old(self)@,
                self@.mask == start.mask,
                merge_all(self@.rules) == merge_all(start.rules),
                forall|i: int, j: int| 0 <= i < j < merge_all(start.rules).len()
                    ==> #[trigger] rule_try_merge(merge_all(start.rules)[i], merge_all(start.rules)[j]) is None,
                !changed ==> self@ == start,
                changed ==> first_merge(start.rules) is Some,
            decreases self.rules.len(),
        {
            let ghost before = self@.rules;
            match self.find_merge() {
                Some((i, j, m)) => {
                    proof {
                        assert(exists|p: int, q: int| is_first_merge(before, p, q));
                        let (p, q) = choose|p: int, q: int| is_first_merge(before, p, q);
                        lemma_first_merge_unique(before, i as int, j as int, p, q);
                        assert(merge_all(before) == merge_all(merge_at(before, i as int, j as int)));
                    }
                    self.rules.set(i, m);
                    let _ = self.rules.remove(j);
                    assert(self@.rules =~= merge_at(before, i as int, j as int));
                    changed = true;
                },
                None => {
                    assert(!exists|p: int, q: int| is_first_merge(before, p, q));
                    assert(merge_all(before) == before);
                    assert(self@.mask == old(self)@.mask);
                    return changed;
                },
            }
        }
    }
}

} // verus!

verus! {

/// The rules with every port outside `atomic` hidden, so that those rules become silent.
pub open spec fn hide_ports(rules: Seq<RuleView>, atomic: Set<PortId>) -> Seq<RuleView> {
    Seq::new(rules.len(), |k: int|
        if rules[k].port matches Some(p) && !atomic.contains(p) {
            RuleView { port: None, ..rules[k] }
        } else {
            rules[k]
        })
}

/// The automaton with every port outside `atomic` hidden.
pub open spec fn hidden(v: RbpaView, atomic: Set<PortId>) -> RbpaView {
    RbpaView { mask: v.mask, rules: hide_ports(v.rules, atomic) }
}

/// Projects the automaton onto the atomic ports: every other port is hidden,
/// making its transitions silent, and the result is normalized.
pub fn project(r: Rbpa, atomic_ports: PortSet) -> (p: Rbpa)
    requires
        indexable(r@.rules, r@.mask),
        elimination_terminates(hide_ports(r@.rules, atomic_ports@)),
    ensures
        p@ == normalized(hidden(r@, atomic_ports@)),
        first_merge(p@.rules) is None,
        !has_newly_irrelevant(p@),
        forall|k: int| 0 <= k < p@.rules.len() ==>
            ((#[trigger] p@.rules[k]).port matches Some(q) && atomic_ports@.contains(q)),
        all_wf(r@.rules) ==> all_wf(p@.rules),
{
    let mut r = r;
    let ghost start = r@;
    let n = r.rules.len();
    for k in 0..n
        invariant
            n == start.rules.len(),
            r.rules@.len() == n,
            r@.mask == start.mask,
            forall|q: int| 0 <= q < k ==> #[trigger] r@.rules[q] == hide_ports(start.rules, atomic_ports@)[q],
            forall|q: int| k <= q < n ==> #[trigger] r@.rules[q] == start.rules[q],
    {
        assert(r@.rules[k as int] == start.rules[k as int]);
        assert(r.rules@[k as int]@ == start.rules[k as int]);
        match r.rules[k].port() {
            Some(port) => {
                if !atomic_ports.contains(port) {
                    let ghost rs = r@.rules;
                    let mut rule = r.rules[k].duplicate();
                    rule.hide_port();
                    r.rules.set(k, rule);
                    assert(r@.rules =~= rs.update(k as int, rule@));
                }
            },
            None => {},
        }
    }
    assert(r@.rules =~= hide_ports(start.rules, atomic_ports@));
    proof {
        let h = hide_ports(start.rules, atomic_ports@);
        assert forall|k: int| 0 <= k < h.len() implies port_allowed((#[trigger] h[k]).port, atomic_ports@) by {}
        if all_wf(start.rules) {
            assert forall|k: int| 0 <= k < h.len() implies rule_wf(#[trigger] h[k]) by {
                assert(rule_wf(start.rules[k]));
            }
        }
    }
    let ghost before = r@;
    r.normalize();
    assert(ports_allowed(before.rules, atomic_ports@));
    assert(ports_allowed(r@.rules, atomic_ports@));
    assert(silent_free(r@.rules));
    r
}

} // verus!

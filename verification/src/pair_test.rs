//! A randomized check that a projected automaton can simulate the steps of
//! the protocol it was projected from on the atomic ports.
use vstd::prelude::*;
use crate::PortId;
use crate::state_set::StateSet;
use crate::rule::rule_apply;
use crate::rbpa::{Rbpa, RbpaView, mask_state};
use crate::port_set::PortSet;
use crate::random::{thread_rng, shuffle};
use crate::var::Var;

verus! {

/// Number of steps that a pair test tries to take.
pub const PAIR_TEST_STEPS: usize = 24;

/// A step of the protocol: the port it involved, if any, and the state it reached.
pub struct ProtoStep {
    pub port: Option<PortId>,
    pub state: StateSet,
}

/// A step of the atomic automaton, matching the protocol step at `proto_index`.
pub struct AtomicStep {
    pub proto_index: usize,
    pub port: PortId,
    pub state: StateSet,
}

/// How a pair test ended.
#[derive(Debug, Copy, Clone, PartialEq, Eq, Structural)]
pub enum PairOutcome {
    /// Every step was taken.
    Completed,
    /// No rule of the protocol applied.
    Stuck,
    /// The atomic automaton could not simulate the last protocol step.
    FailedToMatch,
}

/// The traces of a pair test and how it ended.
pub struct PairReport {
    pub start: StateSet,
    pub proto: Vec<ProtoStep>,
    pub atomic: Vec<AtomicStep>,
    pub outcome: PairOutcome,
}

/// Rule `k` of `v` fires on `from` and reaches `to`.
pub open spec fn fires(v: RbpaView, k: int, from: Seq<crate::var::Var>, to: Seq<crate::var::Var>) -> bool {
    0 <= k < v.rules.len() && rule_apply(v.rules[k], from) == Some(to)
}

/// Rule `k` of the atomic automaton involves `port`, fires on `from`, and
/// reaches a state that agrees with `target` on the relevant positions.
pub open spec fn atomic_match_at(v: RbpaView, k: int, port: PortId, from: Seq<crate::var::Var>, target: Seq<crate::var::Var>) -> bool {
    &&& 0 <= k < v.rules.len()
    &&& v.rules[k].port == Some(port)
    &&& rule_apply(v.rules[k], from) is Some
    &&& mask_state(v.mask, rule_apply(v.rules[k], from)->0) == mask_state(v.mask, target)
}


/// The state before protocol step `i`.
pub open spec fn proto_before(start: Seq<Var>, proto: Seq<ProtoStep>, i: int) -> Seq<Var> {
    if i == 0 { start } else { proto[i - 1].state@ }
}

/// The atomic state before atomic step `j`.
pub open spec fn atomic_before(start: Seq<Var>, steps: Seq<AtomicStep>, j: int) -> Seq<Var> {
    if j == 0 { start } else { steps[j - 1].state@ }
}

/// The state after the protocol steps taken so far.
pub open spec fn proto_last(start: Seq<Var>, proto: Seq<ProtoStep>) -> Seq<Var> {
    proto_before(start, proto, proto.len() as int)
}

/// Each protocol step is the firing of a rule of `v` with that step's port.
pub open spec fn proto_trace_valid(v: RbpaView, start: Seq<Var>, proto: Seq<ProtoStep>) -> bool {
    forall|i: int| #![trigger proto[i]] 0 <= i < proto.len() ==> exists|k: int|
        #[trigger] fires(v, k, proto_before(start, proto, i), proto[i].state@) && v.rules[k].port == proto[i].port
}

/// Each atomic step simulates the protocol step it names, in order of the protocol steps.
pub open spec fn atomic_trace_valid(a: RbpaView, start: Seq<Var>, proto: Seq<ProtoStep>, steps: Seq<AtomicStep>) -> bool {
    &&& forall|j: int| 0 <= j < steps.len() ==> {
        let idx = (#[trigger] steps[j]).proto_index as int;
        &&& idx < proto.len()
        &&& proto[idx].port == Some(steps[j].port)
        &&& exists|k: int| #[trigger] atomic_match_at(a, k, steps[j].port, atomic_before(start, steps, j), proto[idx].state@)
                && steps[j].state@ == mask_state(a.mask, rule_apply(a.rules[k], atomic_before(start, steps, j))->0)
    }
    &&& forall|j1: int, j2: int| 0 <= j1 < j2 < steps.len() ==> #[trigger] steps[j1].proto_index < #[trigger] steps[j2].proto_index
}

/// Every protocol step on an atomic port, but `skip_last`, is simulated by an atomic step.
pub open spec fn atomic_trace_complete(ports: Set<PortId>, proto: Seq<ProtoStep>, steps: Seq<AtomicStep>, skip_last: bool) -> bool {
    forall|i: int| 0 <= i < proto.len() && !(skip_last && i == proto.len() - 1) ==>
        ((#[trigger] proto[i]).port matches Some(p) && ports.contains(p) ==>
            exists|j: int| 0 <= j < steps.len() && #[trigger] steps[j].proto_index == i)
}

/// What every pair test reports, whatever order the random shuffles chose.
pub open spec fn report_valid(report: PairReport, start: Seq<Var>, rba: RbpaView, atomic: RbpaView, ports: Set<PortId>) -> bool {
    let proto = report.proto@;
    let steps = report.atomic@;
    &&& report.start@ == start
    &&& proto.len() <= PAIR_TEST_STEPS
    &&& proto_trace_valid(rba, start, proto)
    &&& atomic_trace_valid(atomic, start, proto, steps)
    &&& atomic_trace_complete(ports, proto, steps, report.outcome == PairOutcome::FailedToMatch)
    &&& (report.outcome == PairOutcome::Completed ==> proto.len() == PAIR_TEST_STEPS)
    &&& (report.outcome == PairOutcome::Stuck ==>
            forall|k: int| 0 <= k < rba.rules.len() ==> rule_apply(#[trigger] rba.rules[k], proto_last(start, proto)) is None)
    &&& (report.outcome == PairOutcome::FailedToMatch ==> {
            &&& proto.len() >= 1
            &&& proto[proto.len() - 1].port matches Some(p)
            &&& ports.contains(p)
            &&& forall|k: int| !#[trigger] atomic_match_at(atomic, k, p, atomic_before(start, steps, steps.len() as int), proto_last(start, proto))
        })
}


proof fn lemma_extend_proto(
    rv: RbpaView,
    av: RbpaView,
    ports: Set<PortId>,
    start: Seq<Var>,
    proto: Seq<ProtoStep>,
    steps: Seq<AtomicStep>,
    step: ProtoStep,
    q: int,
)
    requires
        proto_trace_valid(rv, start, proto),
        atomic_trace_valid(av, start, proto, steps),
        atomic_trace_complete(ports, proto, steps, false),
        forall|j: int| 0 <= j < steps.len() ==> (#[trigger] steps[j]).proto_index < proto.len(),
        fires(rv, q, proto_last(start, proto), step.state@),
        rv.rules[q].port == step.port,
    ensures
        proto_trace_valid(rv, start, proto.push(step)),
        atomic_trace_valid(av, start, proto.push(step), steps),
        atomic_trace_complete(ports, proto.push(step), steps, true),
        !(step.port matches Some(p) && ports.contains(p)) ==> atomic_trace_complete(ports, proto.push(step), steps, false),
        proto_last(start, proto.push(step)) == step.state@,
        forall|j: int| 0 <= j < steps.len() ==> (#[trigger] steps[j]).proto_index < proto.len(),
{
    let np = proto.push(step);
    assert forall|i: int| #![trigger np[i]] 0 <= i < np.len() implies exists|k: int|
        #[trigger] fires(rv, k, proto_before(start, np, i), np[i].state@) && rv.rules[k].port == np[i].port by {
        if i < proto.len() {
            assert(np[i] == proto[i]);
            assert(proto_before(start, np, i) == proto_before(start, proto, i));
            let k = choose|k: int| #[trigger] fires(rv, k, proto_before(start, proto, i), proto[i].state@) && rv.rules[k].port == proto[i].port;
            assert(fires(rv, k, proto_before(start, np, i), np[i].state@));
        } else {
            assert(fires(rv, q, proto_before(start, np, i), np[i].state@));
        }
    }
    assert forall|j: int| 0 <= j < steps.len() implies np[(#[trigger] steps[j]).proto_index as int] == proto[steps[j].proto_index as int] by {}
    assert forall|i: int|
        0 <= i < np.len() && !(i == np.len() - 1) && (#[trigger] np[i]).port is Some && ports.contains(np[i].port->0)
        implies exists|j: int| 0 <= j < steps.len() && #[trigger] steps[j].proto_index == i by {
        assert(np[i] == proto[i]);
    }
}

proof fn lemma_extend_atomic(
    av: RbpaView,
    ports: Set<PortId>,
    start: Seq<Var>,
    proto: Seq<ProtoStep>,
    steps: Seq<AtomicStep>,
    astep: AtomicStep,
    k: int,
)
    requires
        proto.len() >= 1,
        atomic_trace_valid(av, start, proto, steps),
        atomic_trace_complete(ports, proto, steps, true),
        forall|j: int| 0 <= j < steps.len() ==> (#[trigger] steps[j]).proto_index < proto.len() - 1,
        astep.proto_index == proto.len() - 1,
        proto[proto.len() - 1].port == Some(astep.port),
        atomic_match_at(av, k, astep.port, atomic_before(start, steps, steps.len() as int), proto_last(start, proto)),
        astep.state@ == mask_state(av.mask, rule_apply(av.rules[k], atomic_before(start, steps, steps.len() as int))->0),
    ensures
        atomic_trace_valid(av, start, proto, steps.push(astep)),
        atomic_trace_complete(ports, proto, steps.push(astep), false),
        forall|j: int| 0 <= j < steps.len() + 1 ==> (#[trigger] steps.push(astep)[j]).proto_index < proto.len(),
        atomic_before(start, steps.push(astep), (steps.len() + 1) as int) == astep.state@,
{
    let ns = steps.push(astep);
    assert forall|j: int| 0 <= j < ns.len() implies atomic_before(start, ns, j) == atomic_before(start, steps, j) by {
        if j > 0 {
            assert(ns[j - 1] == steps[j - 1]);
        }
    }
    assert forall|j: int| 0 <= j < ns.len() implies {
        let idx = (#[trigger] ns[j]).proto_index as int;
        &&& idx < proto.len()
        &&& proto[idx].port == Some(ns[j].port)
        &&& exists|q: int| #[trigger] atomic_match_at(av, q, ns[j].port, atomic_before(start, ns, j), proto[idx].state@)
                && ns[j].state@ == mask_state(av.mask, rule_apply(av.rules[q], atomic_before(start, ns, j))->0)
    } by {
        if j < steps.len() {
            assert(ns[j] == steps[j]);
        } else {
            assert(proto_last(start, proto) == proto[proto.len() - 1].state@);
            assert(atomic_match_at(av, k, ns[j].port, atomic_before(start, ns, j), proto[ns[j].proto_index as int].state@));
        }
    }
    assert forall|j1: int, j2: int| 0 <= j1 < j2 < ns.len() implies #[trigger] ns[j1].proto_index < #[trigger] ns[j2].proto_index by {
        if j2 < steps.len() {
            assert(ns[j1] == steps[j1] && ns[j2] == steps[j2]);
        } else {
            assert(ns[j1] == steps[j1]);
        }
    }
    assert forall|i: int|
        0 <= i < proto.len() && (#[trigger] proto[i]).port is Some && ports.contains(proto[i].port->0)
        implies exists|j: int| 0 <= j < ns.len() && #[trigger] ns[j].proto_index == i by {
        if i == proto.len() - 1 {
            assert(ns[steps.len() as int].proto_index == i);
        } else {
            let j = choose|j: int| 0 <= j < steps.len() && #[trigger] steps[j].proto_index == i;
            assert(ns[j] == steps[j]);
        }
    }
}

proof fn lemma_all_rules_listed(order: Seq<usize>, all: Seq<usize>, n: nat, k: int)
    requires
        all == Seq::new(n, |q: int| q as usize),
        order.to_multiset() == all.to_multiset(),
        0 <= k < n,
        n <= usize::MAX,
    ensures
        exists|q: int| 0 <= q < order.len() && order[q] == k as usize,
{
    order.to_multiset_ensures();
    all.to_multiset_ensures();
    assert(all[k] == k as usize);
    assert(all.contains(k as usize));
    assert(all.to_multiset().count(k as usize) > 0);
    assert(order.to_multiset().count(k as usize) > 0);
    assert(order.contains(k as usize));
}

proof fn lemma_listed_in_range(order: Seq<usize>, all: Seq<usize>, n: nat)
    requires
        all == Seq::new(n, |q: int| q as usize),
        order.to_multiset() == all.to_multiset(),
        n <= usize::MAX,
    ensures
        forall|k: int| 0 <= k < order.len() ==> #[trigger] order[k] < n,
{
    order.to_multiset_ensures();
    all.to_multiset_ensures();
    assert forall|k: int| 0 <= k < order.len() implies #[trigger] order[k] < n by {
        assert(order.contains(order[k]));
        assert(order.to_multiset().count(order[k]) > 0);
        assert(all.to_multiset().count(order[k]) > 0);
        assert(all.contains(order[k]));
    }
}

/// Takes up to `PAIR_TEST_STEPS` random steps of the protocol `rba` from
/// `state`; after each step on a port of `atomic_ports`, checks that the
/// projected automaton `atomic` can take a step on the same port that agrees
/// with the protocol on the relevant memory. Which rule fires first is
/// chosen by shuffling the rule order at random before each step.
pub fn pair_test(state: StateSet, rba: Rbpa, atomic: Rbpa, atomic_ports: PortSet) -> (report: PairReport)
    ensures
        report_valid(report, state@, rba@, atomic@, atomic_ports@),
{
    let ghost start = state@;
    let ghost rv = rba@;
    let ghost av = atomic@;
    let ghost ports = atomic_ports@;
    let n = rba.rules().len();
    let mut state = state;
    let first = state.duplicate();
    let mut atomic_state = state.duplicate();
    let mut rng = thread_rng();
    let mut order: Vec<usize> = Vec::new();
    for i in 0..n
        invariant
            order@ == Seq::new(i as nat, |q: int| q as usize),
    {
        order.push(i);
        assert(order@ =~= Seq::new((i + 1) as nat, |q: int| q as usize));
    }
    let ghost all = order@;
    let mut proto: Vec<ProtoStep> = Vec::new();
    let mut steps: Vec<AtomicStep> = Vec::new();
    let mut outcome = PairOutcome::Completed;
    let mut round: usize = 0;
    while round < PAIR_TEST_STEPS
        invariant_except_break
            outcome == PairOutcome::Completed,
            atomic_trace_complete(ports, proto@, steps@, false),
            proto@.len() == round,
        invariant
            rv == rba@,
            av == atomic@,
            ports == atomic_ports@,
            n == rv.rules.len(),
            all == Seq::new(n as nat, |q: int| q as usize),
            order@.to_multiset() == all.to_multiset(),
            round <= PAIR_TEST_STEPS,
            proto@.len() <= PAIR_TEST_STEPS,
            first@ == start,
            state@ == proto_last(start, proto@),
            atomic_state@ == atomic_before(start, steps@, steps@.len() as int),
            proto_trace_valid(rv, start, proto@),
            atomic_trace_valid(av, start, proto@, steps@),
            forall|j: int| 0 <= j < steps@.len() ==> (#[trigger] steps@[j]).proto_index < proto@.len(),
        ensures
            outcome == PairOutcome::Completed ==> proto@.len() == PAIR_TEST_STEPS,
            atomic_trace_complete(ports, proto@, steps@, outcome == PairOutcome::FailedToMatch),
            outcome == PairOutcome::Stuck ==>
                forall|k: int| 0 <= k < rv.rules.len() ==> rule_apply(#[trigger] rv.rules[k], proto_last(start, proto@)) is None,
            outcome == PairOutcome::FailedToMatch ==> {
                &&& proto@.len() >= 1
                &&& proto@[proto@.len() - 1].port matches Some(p)
                &&& ports.contains(p)
                &&& forall|k: int| !#[trigger] atomic_match_at(av, k, p, atomic_before(start, steps@, steps@.len() as int), proto_last(start, proto@))
            },
        decreases PAIR_TEST_STEPS - round,
    {
        shuffle(&mut order, &mut rng);
        proof { lemma_listed_in_range(order@, all, n as nat); }
        match fire_first(&rba, &order, &state) {
            None => {
                proof {
                    assert forall|k: int| 0 <= k < rv.rules.len() implies rule_apply(#[trigger] rv.rules[k], proto_last(start, proto@)) is None by {
                        lemma_all_rules_listed(order@, all, n as nat, k);
                        let q = choose|q: int| 0 <= q < order@.len() && order@[q] == k as usize;
                        assert(rule_apply(rv.rules[order@[q] as int], state@) is None);
                    }
                }
                outcome = PairOutcome::Stuck;
                break;
            },
            Some((k, next)) => {
                let ghost old_proto = proto@;
                let ghost rule_index = order@[k as int] as int;
                let rules = rba.rules();
                assert(rules@[rule_index]@ == rv.rules[rule_index]);
                let port = rules[order[k]].port();
                state = next.duplicate();
                let step = ProtoStep { port, state: next };
                proof {
                    lemma_extend_proto(rv, av, ports, start, old_proto, steps@, step, rule_index);
                }
                proto.push(step);
                match port {
                    Some(p) => {
                        if atomic_ports.contains(p) {
                            let ghost from = atomic_state@;
                            match match_atomic(&atomic, p, &atomic_state, &state) {
                                Some(x) => {
                                    let ghost old_steps = steps@;
                                    let ghost x_view = x@;
                                    atomic_state = x.duplicate();
                                    let astep = AtomicStep { proto_index: proto.len() - 1, port: p, state: x };
                                    proof {
                                        let q = choose|q: int| #[trigger] atomic_match_at(av, q, p, from, state@)
                                            && x_view == mask_state(av.mask, rule_apply(av.rules[q], from)->0);
                                        lemma_extend_atomic(av, ports, start, proto@, old_steps, astep, q);
                                    }
                                    steps.push(astep);
                                },
                                None => {
                                    outcome = PairOutcome::FailedToMatch;
                                    break;
                                },
                            }
                        }
                    },
                    None => {},
                }
            },
        }
        round = round + 1;
    }
    PairReport { start: first, proto, atomic: steps, outcome }
}

/// The rule indices listed in `order`, tried in that order, until one fires on `state`.
fn fire_first(rba: &Rbpa, order: &Vec<usize>, state: &StateSet) -> (r: Option<(usize, StateSet)>)
    requires
        forall|k: int| 0 <= k < order@.len() ==> #[trigger] order@[k] < rba@.rules.len(),
    ensures
        r is None ==> forall|k: int| 0 <= k < order@.len() ==> rule_apply(rba@.rules[#[trigger] order@[k] as int], state@) is None,
        r matches Some((k, ns)) ==> k < order@.len()
            && rule_apply(rba@.rules[order@[k as int] as int], state@) == Some(ns@)
            && forall|j: int| 0 <= j < k ==> rule_apply(rba@.rules[#[trigger] order@[j] as int], state@) is None,
{
    let n = order.len();
    let mut k: usize = 0;
    while k < n
        invariant
            n == order@.len(),
            0 <= k <= n,
            forall|q: int| 0 <= q < order@.len() ==> #[trigger] order@[q] < rba@.rules.len(),
            forall|j: int| 0 <= j < k ==> rule_apply(rba@.rules[#[trigger] order@[j] as int], state@) is None,
        decreases n - k,
    {
        let idx = order[k];
        assert(idx < rba@.rules.len());
        let rules = rba.rules();
        assert(rules@[idx as int]@ == rba@.rules[idx as int]);
        match rules[idx].apply(state) {
            Some(ns) => {
                return Some((k, ns));
            },
            None => {},
        }
        k = k + 1;
    }
    None
}

/// The first atomic rule that involves `port` and simulates the step to
/// `target` from `from`, giving the masked state it reaches.
fn match_atomic(atomic: &Rbpa, port: PortId, from: &StateSet, target: &StateSet) -> (r: Option<StateSet>)
    ensures
        r is None ==> forall|k: int| !#[trigger] atomic_match_at(atomic@, k, port, from@, target@),
        r matches Some(x) ==> exists|k: int| #[trigger] atomic_match_at(atomic@, k, port, from@, target@)
            && x@ == mask_state(atomic@.mask, rule_apply(atomic@.rules[k], from@)->0)
            && forall|j: int| 0 <= j < k ==> !#[trigger] atomic_match_at(atomic@, j, port, from@, target@),
{
    let rules = atomic.rules();
    let n = rules.len();
    let masked_target = atomic.mask().mask(target.duplicate());
    let mut k: usize = 0;
    while k < n
        invariant
            n == atomic@.rules.len(),
            rules@.len() == n,
            crate::rbpa::rule_views(rules@) == atomic@.rules,
            masked_target@ == mask_state(atomic@.mask, target@),
            0 <= k <= n,
            forall|j: int| 0 <= j < k ==> !#[trigger] atomic_match_at(atomic@, j, port, from@, target@),
        decreases n - k,
    {
        assert(rules@[k as int]@ == atomic@.rules[k as int]);
        if rules[k].port() == Some(port) {
            match rules[k].apply(from) {
                Some(next) => {
                    let masked = atomic.mask().mask(next);
                    if masked.same_as(&masked_target) {
                        assert(atomic_match_at(atomic@, k as int, port, from@, target@));
                        return Some(masked);
                    }
                },
                None => {},
            }
        }
        k = k + 1;
    }
    assert forall|j: int| !#[trigger] atomic_match_at(atomic@, j, port, from@, target@) by {
        if 0 <= j < k {
        }
    }
    None
}

} // verus!

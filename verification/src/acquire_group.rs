//! Several getters acquiring one datum at once. Each runs the acquisition
//! state machine of `acquire`; their steps interleave on the putter space
//! they share: the countdown of cloners, the move flags and the mover
//! semaphore. A step lets one getter take the event its state awaits and
//! perform the batch of actions that the machine answers with. Within a
//! batch only the last action is observed by the other getters, or the
//! batch waits on the semaphore first, so performing a batch at once
//! loses no interleaving that matters.
use vstd::prelude::*;
use crate::acquire::{AcquireState, AcquireEvent, AcquireAction, accepts, acquire_transition, finalizes};

verus! {

/// The putter space as the getters see it, with a record of the datum's fate.
pub struct SpaceView {
    /// Getters that have not counted down yet.
    pub countdown: int,
    /// Some getter took a copyable datum.
    pub someone_moved: bool,
    /// Some getter asked for permission to move the datum.
    pub move_asked: bool,
    /// Releases of the mover semaphore not yet acquired.
    pub mover_sema: int,
    /// The answer to the last countdown or flag query.
    pub reply: AcquireEvent,
    /// Finalizations so far.
    pub finals: nat,
    /// Moves of the datum so far.
    pub moves: nat,
    /// Whether the last finalization said the datum was taken, if there was one.
    pub fin_flag: Option<bool>,
}

/// One action performed on the space.
pub open spec fn perform_one(sp: SpaceView, a: AcquireAction) -> SpaceView {
    match a {
        AcquireAction::MarkCopyMoved => SpaceView { someone_moved: true, ..sp },
        AcquireAction::CopyEach => sp,
        AcquireAction::CloneEach => sp,
        AcquireAction::MoveFirstCloneRest => SpaceView { moves: sp.moves + 1, ..sp },
        AcquireAction::CountDown => SpaceView {
            reply: AcquireEvent::Count(sp.countdown as usize),
            countdown: sp.countdown - 1,
            ..sp
        },
        AcquireAction::AskSomeoneMoved => SpaceView { reply: AcquireEvent::Flag(sp.someone_moved), ..sp },
        AcquireAction::AskMovePermission => SpaceView {
            reply: AcquireEvent::Flag(sp.move_asked),
            move_asked: true,
            ..sp
        },
        AcquireAction::AcquireMover => SpaceView { mover_sema: sp.mover_sema - 1, ..sp },
        AcquireAction::ReleaseMover => SpaceView { mover_sema: sp.mover_sema + 1, ..sp },
        AcquireAction::Finalize(taken) => SpaceView { finals: sp.finals + 1, fin_flag: Some(taken), ..sp },
    }
}

/// A batch of actions performed on the space in order.
pub open spec fn perform(sp: SpaceView, acts: Seq<AcquireAction>) -> SpaceView
    decreases acts.len(),
{
    if acts.len() == 0 {
        sp
    } else {
        perform(perform_one(sp, acts[0]), acts.drop_first())
    }
}

/// The getters' states, each with the last answer it received, and the space.
pub struct GroupView {
    pub copy: bool,
    pub procs: Seq<(AcquireState, AcquireEvent)>,
    pub space: SpaceView,
    /// Some getter finalized while another still had copying or cloning to do.
    pub early: bool,
    /// The number of destinations each getter started with.
    pub outs: Seq<usize>,
}

/// A getter that has not counted down yet, and so may still copy or clone.
pub open spec fn not_counted(s: AcquireState) -> bool {
    s is Start || s is AwaitPermission
}

/// The event that getter `p` takes next.
pub open spec fn next_event(p: (AcquireState, AcquireEvent)) -> AcquireEvent {
    if p.0 is Start {
        AcquireEvent::Begin
    } else {
        p.1
    }
}

/// The state and batch of actions of getter `i`'s next step.
pub open spec fn step_actions(g: GroupView, i: int) -> (AcquireState, Seq<AcquireAction>) {
    acquire_transition(g.procs[i].0, next_event(g.procs[i]))
}

/// The batch starts by waiting on the mover semaphore.
pub open spec fn waits_for_mover(acts: Seq<AcquireAction>) -> bool {
    acts.len() > 0 && acts[0] is AcquireMover
}

/// Getter `i` is not finished and, where its batch waits on the mover
/// semaphore, the semaphore has been released.
pub open spec fn can_step(g: GroupView, i: int) -> bool {
    &&& 0 <= i < g.procs.len()
    &&& !(g.procs[i].0 is Done)
    &&& waits_for_mover(step_actions(g, i).1) ==> g.space.mover_sema > 0
}

/// Getter `i` takes its step.
pub open spec fn group_step(g: GroupView, i: int) -> GroupView {
    let (next, acts) = step_actions(g, i);
    let sp = perform(g.space, acts);
    GroupView {
        copy: g.copy,
        procs: g.procs.update(i, (next, sp.reply)),
        space: sp,
        early: g.early || (finalizes(acts) > 0 && exists|k: int|
            0 <= k < g.procs.len() && k != i && #[trigger] not_counted(g.procs[k].0)),
        outs: g.outs,
    }
}

/// The group after the getters named by `sched` step in turn, or `None`
/// where one of them cannot step.
pub open spec fn group_run(g: GroupView, sched: Seq<int>) -> Option<GroupView>
    decreases sched.len(),
{
    if sched.len() == 0 {
        Some(g)
    } else if can_step(g, sched[0]) {
        group_run(group_step(g, sched[0]), sched.drop_first())
    } else {
        None
    }
}

/// Getters with `n_outs[k]` destinations each, starting together on a fresh
/// space whose countdown is their number.
pub open spec fn group_start(copy: bool, n_outs: Seq<usize>) -> GroupView {
    GroupView {
        copy,
        procs: Seq::new(n_outs.len(), |k: int| (AcquireState::Start { copy, n_out: n_outs[k] }, AcquireEvent::Begin)),
        space: SpaceView {
            countdown: n_outs.len() as int,
            someone_moved: false,
            move_asked: false,
            mover_sema: 0,
            reply: AcquireEvent::Begin,
            finals: 0,
            moves: 0,
            fin_flag: None,
        },
        early: false,
        outs: n_outs,
    }
}

/// Every getter has finished.
pub open spec fn all_done(g: GroupView) -> bool {
    forall|k: int| 0 <= k < g.procs.len() ==> (#[trigger] g.procs[k]).0 is Done
}

/// Number of getters that have not counted down.
pub open spec fn uncounted(procs: Seq<(AcquireState, AcquireEvent)>) -> nat
    decreases procs.len(),
{
    if procs.len() == 0 {
        0
    } else {
        uncounted(procs.drop_last()) + (if not_counted(procs.last().0) { 1nat } else { 0nat })
    }
}

proof fn lemma_uncounted_update(procs: Seq<(AcquireState, AcquireEvent)>, i: int, x: (AcquireState, AcquireEvent))
    requires
        0 <= i < procs.len(),
    ensures
        uncounted(procs.update(i, x)) + (if not_counted(procs[i].0) { 1int } else { 0int })
            == uncounted(procs) + (if not_counted(x.0) { 1int } else { 0int }),
    decreases procs.len(),
{
    let u = procs.update(i, x);
    if i == procs.len() - 1 {
        assert(u.drop_last() =~= procs.drop_last());
    } else {
        assert(u.drop_last() =~= procs.drop_last().update(i, x));
        lemma_uncounted_update(procs.drop_last(), i, x);
    }
}

proof fn lemma_uncounted_bounds(procs: Seq<(AcquireState, AcquireEvent)>, i: int)
    requires
        0 <= i < procs.len(),
        not_counted(procs[i].0),
    ensures
        uncounted(procs) >= 1,
        uncounted(procs) == 1 ==> forall|k: int| 0 <= k < procs.len() && k != i ==> !#[trigger] not_counted(procs[k].0),
    decreases procs.len(),
{
    let d = procs.drop_last();
    if i < procs.len() - 1 {
        lemma_uncounted_bounds(d, i);
        if !not_counted(procs.last().0) && uncounted(procs) == 1 {
            assert forall|k: int| 0 <= k < procs.len() && k != i implies !#[trigger] not_counted(procs[k].0) by {
                if k < procs.len() - 1 {
                    assert(d[k] == procs[k]);
                }
            }
        }
    } else {
        if uncounted(procs) == 1 {
            assert forall|k: int| 0 <= k < procs.len() && k != i implies !#[trigger] not_counted(procs[k].0) by {
                assert(d[k] == procs[k]);
                lemma_uncounted_zero(d);
            }
        }
    }
}

proof fn lemma_uncounted_zero(procs: Seq<(AcquireState, AcquireEvent)>)
    ensures
        uncounted(procs) == 0 ==> forall|k: int| 0 <= k < procs.len() ==> !#[trigger] not_counted(procs[k].0),
    decreases procs.len(),
{
    if procs.len() > 0 {
        let d = procs.drop_last();
        lemma_uncounted_zero(d);
        assert forall|k: int| 0 <= k < procs.len() && uncounted(procs) == 0 implies !#[trigger] not_counted(procs[k].0) by {
            if k < procs.len() - 1 {
                assert(d[k] == procs[k]);
            }
        }
    }
}

proof fn lemma_uncounted_start(procs: Seq<(AcquireState, AcquireEvent)>)
    requires
        forall|k: int| 0 <= k < procs.len() ==> (#[trigger] procs[k]).0 is Start,
    ensures
        uncounted(procs) == procs.len(),
    decreases procs.len(),
{
    if procs.len() > 0 {
        let d = procs.drop_last();
        assert forall|k: int| 0 <= k < d.len() implies (#[trigger] d[k]).0 is Start by {
            assert(d[k] == procs[k]);
        }
        lemma_uncounted_start(d);
    }
}

proof fn lemma_uncounted_le_len(procs: Seq<(AcquireState, AcquireEvent)>)
    ensures
        uncounted(procs) <= procs.len(),
    decreases procs.len(),
{
    if procs.len() > 0 {
        lemma_uncounted_le_len(procs.drop_last());
    }
}

proof fn lemma_uncounted_none(procs: Seq<(AcquireState, AcquireEvent)>)
    requires
        forall|k: int| 0 <= k < procs.len() ==> !#[trigger] not_counted(procs[k].0),
    ensures
        uncounted(procs) == 0,
    decreases procs.len(),
{
    if procs.len() > 0 {
        let d = procs.drop_last();
        assert forall|k: int| 0 <= k < d.len() implies !#[trigger] not_counted(d[k].0) by {
            assert(d[k] == procs[k]);
        }
        lemma_uncounted_none(d);
        assert(!not_counted(procs[procs.len() - 1].0));
    }
}

/// The number a countdown answer carries.
pub open spec fn count_of(r: AcquireEvent) -> int {
    match r {
        AcquireEvent::Count(w) => w as int,
        _ => 0,
    }
}

/// A getter's state agrees with the answer it holds and with the space.
spec fn proc_ok(copy: bool, p: (AcquireState, AcquireEvent), sp: SpaceView) -> bool {
    match p.0 {
        AcquireState::Start { copy: c, .. } => c == copy,
        AcquireState::CopyCounted => copy && p.1 is Count && count_of(p.1) > sp.countdown,
        AcquireState::CopyAwaitMoved => copy && p.1 is Flag && sp.countdown == 0,
        AcquireState::AwaitPermission => !copy && p.1 is Flag && sp.move_asked,
        AcquireState::WonCounted => !copy && p.1 is Count && count_of(p.1) > sp.countdown && sp.move_asked,
        AcquireState::LostCounted => !copy && p.1 is Count && count_of(p.1) > sp.countdown && sp.move_asked,
        AcquireState::EmptyCounted => !copy && p.1 is Count && count_of(p.1) > sp.countdown,
        AcquireState::EmptyAwaitPermission => !copy && p.1 is Flag && sp.countdown == 0 && sp.move_asked,
        AcquireState::Done => true,
    }
}

/// Getter `j` won the right to move the datum and has not finalized yet.
spec fn winner(g: GroupView, j: int) -> bool {
    ||| g.procs[j].0 is AwaitPermission && g.procs[j].1 == AcquireEvent::Flag(false)
    ||| g.procs[j].0 is WonCounted
}

/// Getter `j` is the one that will finalize.
spec fn finalizer(g: GroupView, j: int) -> bool {
    match g.procs[j].0 {
        AcquireState::CopyCounted => g.procs[j].1 == AcquireEvent::Count(1),
        AcquireState::CopyAwaitMoved => true,
        AcquireState::AwaitPermission => g.procs[j].1 == AcquireEvent::Flag(false),
        AcquireState::WonCounted => true,
        AcquireState::EmptyCounted => g.procs[j].1 == AcquireEvent::Count(1) && !g.space.move_asked,
        AcquireState::EmptyAwaitPermission => g.procs[j].1 == AcquireEvent::Flag(false),
        _ => false,
    }
}

/// What every reachable group keeps.
spec fn group_inv(g: GroupView) -> bool {
    let sp = g.space;
    let n = g.procs.len();
    &&& 1 <= n <= usize::MAX
    &&& sp.countdown == uncounted(g.procs)
    &&& forall|k: int| 0 <= k < n ==> #[trigger] proc_ok(g.copy, g.procs[k], sp)
    &&& sp.finals <= 1
    &&& sp.moves <= sp.finals
    &&& sp.finals == 1 ==> sp.countdown == 0 && forall|k: int| 0 <= k < n ==> !#[trigger] finalizer(g, k)
    &&& forall|j: int| 0 <= j < n && #[trigger] finalizer(g, j) ==>
            sp.finals == 0 && forall|k: int| 0 <= k < n && k != j ==> !#[trigger] finalizer(g, k)
    &&& sp.countdown == 0 ==> sp.finals == 1 || exists|j: int| 0 <= j < n && #[trigger] finalizer(g, j)
    &&& sp.mover_sema >= 0
    &&& sp.mover_sema > 0 ==> sp.countdown == 0
    &&& !g.copy && sp.move_asked && sp.countdown > 0 ==> exists|j: int| 0 <= j < n && #[trigger] winner(g, j)
    &&& !g.early
}

proof fn lemma_start_inv(copy: bool, n_outs: Seq<usize>)
    requires
        1 <= n_outs.len() <= usize::MAX,
    ensures
        group_inv(group_start(copy, n_outs)),
{
    let g = group_start(copy, n_outs);
    lemma_uncounted_start(g.procs);
    assert forall|k: int| 0 <= k < g.procs.len() implies !#[trigger] finalizer(g, k) by {}
}

/// What one getter's own step does, state by state.
proof fn lemma_own_step(g: GroupView, i: int)
    requires
        group_inv(g),
        can_step(g, i),
    ensures
        accepts(g.procs[i].0, next_event(g.procs[i])),
        ({
            let p = g.procs[i];
            let (next, acts) = step_actions(g, i);
            let sp = g.space;
            let sp2 = perform(sp, acts);
            let g2 = group_step(g, i);
            &&& proc_ok(g.copy, (next, sp2.reply), sp2)
            &&& sp2.countdown == sp.countdown - (if not_counted(p.0) && !not_counted(next) { 1int } else { 0int })
            &&& not_counted(next) ==> not_counted(p.0)
            &&& sp.move_asked ==> sp2.move_asked
            &&& sp2.move_asked != sp.move_asked ==> (p.0 is Start || (p.0 is EmptyCounted && count_of(p.1) == 1))
            &&& finalizes(acts) <= 1
            &&& sp2.finals == sp.finals + finalizes(acts)
            &&& finalizes(acts) > 0 ==> finalizer(g, i) && sp.countdown == 0 && next is Done
            &&& sp2.moves <= sp.moves + finalizes(acts)
            &&& sp2.mover_sema >= 0
            &&& sp2.mover_sema > sp.mover_sema ==> sp.countdown == 0
            &&& finalizer(g, i) && finalizes(acts) == 0 ==> finalizer(g2, i)
            &&& finalizer(g2, i) && !finalizer(g, i) ==> not_counted(p.0)
                && (!g.copy ==> !sp.move_asked) && (g.copy ==> sp.countdown == 1)
            &&& winner(g, i) ==> winner(g2, i) || finalizes(acts) > 0
            &&& winner(g2, i) && !winner(g, i) ==> !sp.move_asked
            &&& sp2.move_asked && !sp.move_asked && sp2.countdown > 0 ==> winner(g2, i)
            &&& !finalizer(g, i) && !finalizer(g2, i) && not_counted(p.0) && !not_counted(next) && sp.countdown == 1
                ==> !g.copy && sp.move_asked
        }),
{
    let p = g.procs[i];
    let sp = g.space;
    assert(proc_ok(g.copy, p, sp));
    lemma_uncounted_le_len(g.procs);
    reveal_with_fuel(perform, 4);
    reveal_with_fuel(finalizes, 4);
    match p.0 {
        AcquireState::Start { copy, n_out } => {
            if copy {
                if n_out > 0 {
                } else {
                }
            } else if n_out > 0 {
            } else {
            }
        },
        AcquireState::CopyCounted => {
            if count_of(p.1) == 1 {
            } else {
            }
        },
        AcquireState::CopyAwaitMoved => {},
        AcquireState::AwaitPermission => {
            if p.1 == AcquireEvent::Flag(false) {
            } else {
            }
        },
        AcquireState::WonCounted => {
            if count_of(p.1) == 1 {
            } else {
            }
        },
        AcquireState::LostCounted => {
            if count_of(p.1) == 1 {
            } else {
            }
        },
        AcquireState::EmptyCounted => {
            if count_of(p.1) == 1 {
            } else {
            }
        },
        AcquireState::EmptyAwaitPermission => {
            if p.1 == AcquireEvent::Flag(false) {
            } else {
            }
        },
        AcquireState::Done => {},
    }
}

proof fn lemma_step_inv(g: GroupView, i: int)
    requires
        group_inv(g),
        can_step(g, i),
    ensures
        accepts(g.procs[i].0, next_event(g.procs[i])),
        group_inv(group_step(g, i)),
{
    let n = g.procs.len();
    let p = g.procs[i];
    let (next, acts) = step_actions(g, i);
    let sp = g.space;
    let sp2 = perform(sp, acts);
    let g2 = group_step(g, i);
    lemma_own_step(g, i);
    lemma_uncounted_update(g.procs, i, (next, sp2.reply));
    assert(g2.procs.len() == n);
    assert(g2.procs[i] == (next, sp2.reply));
    assert forall|k: int| 0 <= k < n && k != i implies #[trigger] g2.procs[k] == g.procs[k] by {}
    if not_counted(p.0) {
        lemma_uncounted_bounds(g.procs, i);
    }
    lemma_uncounted_zero(g.procs);
    assert(!g2.early);
    // the getters other than `i` keep their standing
    assert forall|k: int| 0 <= k < n implies #[trigger] proc_ok(g2.copy, g2.procs[k], sp2) by {
        if k != i {
            assert(proc_ok(g.copy, g.procs[k], sp));
        }
    }
    assert forall|k: int| 0 <= k < n && k != i implies (#[trigger] winner(g2, k)) == winner(g, k) by {}
    assert forall|k: int| 0 <= k < n && k != i implies (#[trigger] finalizer(g2, k)) == finalizer(g, k) by {
        if g.procs[k].0 is EmptyCounted && g.procs[k].1 == AcquireEvent::Count(1) {
            assert(proc_ok(g.copy, g.procs[k], sp));
            if finalizer(g, k) && sp2.move_asked != sp.move_asked {
                assert(!finalizer(g, i));
            }
        }
    }
    assert forall|j: int| 0 <= j < n && #[trigger] finalizer(g2, j) implies
        sp2.finals == 0 && forall|k: int| 0 <= k < n && k != j ==> !#[trigger] finalizer(g2, k)
    by {
        if j != i {
            assert(finalizer(g, j));
            assert(proc_ok(g.copy, g.procs[j], sp));
            assert forall|k: int| 0 <= k < n && k != j implies !#[trigger] finalizer(g2, k) by {
                if k == i {
                    assert(!finalizer(g, i));
                }
            }
        } else {
            assert forall|k: int| 0 <= k < n && k != i implies !#[trigger] finalizer(g2, k) by {
                if finalizer(g, k) {
                    assert(!finalizer(g, i));
                    assert(proc_ok(g.copy, g.procs[k], sp));
                }
            }
        }
    }
    if sp2.finals == 1 {
        assert forall|k: int| 0 <= k < n implies !#[trigger] finalizer(g2, k) by {
            if k != i && sp.finals == 0 {
                assert(finalizer(g, i));
            }
        }
    }
    if sp2.countdown == 0 && sp2.finals != 1 {
        if sp.countdown == 0 {
            let j = choose|j: int| 0 <= j < n && #[trigger] finalizer(g, j);
            if j != i {
                assert(finalizer(g2, j));
            } else {
                assert(finalizer(g2, i));
            }
        } else if !g.copy && sp.move_asked && !finalizer(g2, i) {
            let j = choose|j: int| 0 <= j < n && #[trigger] winner(g, j);
            assert(finalizer(g, j));
            if j != i {
                assert(finalizer(g2, j));
            }
        }
    }
    if !g2.copy && sp2.move_asked && sp2.countdown > 0 {
        if sp.move_asked {
            let j = choose|j: int| 0 <= j < n && #[trigger] winner(g, j);
            if j != i {
                assert(winner(g2, j));
            } else {
                assert(winner(g2, i));
            }
        } else {
            assert(winner(g2, i));
        }
    }
}

proof fn lemma_run_inv(g: GroupView, sched: Seq<int>)
    requires
        group_inv(g),
        group_run(g, sched) is Some,
    ensures
        group_inv(group_run(g, sched)->0),
    decreases sched.len(),
{
    if sched.len() > 0 {
        lemma_step_inv(g, sched[0]);
        lemma_run_inv(group_step(g, sched[0]), sched.drop_first());
    }
}

/// Getters acquiring one datum at once, on a fresh space whose countdown is
/// their number, whatever the order in which their steps interleave: the
/// datum is finalized at most once and moved at most once, never while a
/// getter still has copying or cloning to do, and the countdown never goes
/// below zero; once every getter has finished, it was finalized exactly
/// once and the countdown is zero.
pub proof fn law_group_finalizes_once(copy: bool, n_outs: Seq<usize>, sched: Seq<int>)
    requires
        1 <= n_outs.len() <= usize::MAX,
        group_run(group_start(copy, n_outs), sched) is Some,
    ensures
        ({
            let g = group_run(group_start(copy, n_outs), sched)->0;
            &&& g.space.finals <= 1
            &&& g.space.moves <= 1
            &&& !g.early
            &&& g.space.countdown >= 0
            &&& (all_done(g) ==> g.space.finals == 1 && g.space.countdown == 0)
        }),
{
    lemma_start_inv(copy, n_outs);
    lemma_run_inv(group_start(copy, n_outs), sched);
    let g = group_run(group_start(copy, n_outs), sched)->0;
    if all_done(g) {
        assert forall|k: int| 0 <= k < g.procs.len() implies !#[trigger] not_counted(g.procs[k].0) by {
            assert(g.procs[k].0 is Done);
        }
        lemma_uncounted_none(g.procs);
        assert forall|k: int| 0 <= k < g.procs.len() implies !#[trigger] finalizer(g, k) by {
            assert(g.procs[k].0 is Done);
        }
    }
}

/// Some getter started with at least one destination.
pub open spec fn any_out(g: GroupView) -> bool {
    exists|k: int| 0 <= k < g.outs.len() && #[trigger] g.outs[k] > 0
}

/// The answer a flag query carries.
pub open spec fn flag_of(r: AcquireEvent) -> bool {
    match r {
        AcquireEvent::Flag(b) => b,
        _ => false,
    }
}

/// Getter `k`'s state agrees with the destinations it started with.
spec fn out_ok(g: GroupView, k: int) -> bool {
    match g.procs[k].0 {
        AcquireState::Start { n_out, .. } => n_out == g.outs[k],
        AcquireState::AwaitPermission => g.outs[k] > 0,
        AcquireState::WonCounted => g.outs[k] > 0,
        AcquireState::LostCounted => g.outs[k] > 0,
        AcquireState::EmptyCounted => g.outs[k] == 0,
        AcquireState::EmptyAwaitPermission => g.outs[k] == 0,
        _ => true,
    }
}

/// What every reachable group keeps about whether the datum was taken.
spec fn flag_inv(g: GroupView) -> bool {
    let n = g.procs.len();
    let sp = g.space;
    &&& g.outs.len() == n
    &&& forall|k: int| 0 <= k < n ==> #[trigger] out_ok(g, k)
    &&& sp.someone_moved ==> any_out(g)
    &&& g.copy ==> forall|k: int| 0 <= k < n && !(g.procs[k].0 is Start) && #[trigger] g.outs[k] > 0 ==> sp.someone_moved
    &&& !g.copy ==> forall|k: int| 0 <= k < n && !(g.procs[k].0 is Start) && #[trigger] g.outs[k] > 0 ==> sp.move_asked
    &&& forall|k: int| 0 <= k < n && (#[trigger] g.procs[k]).0 is CopyAwaitMoved ==> flag_of(g.procs[k].1) == any_out(g)
    &&& forall|k: int| 0 <= k < n && (#[trigger] g.procs[k]).0 is EmptyAwaitPermission && !flag_of(g.procs[k].1)
            ==> !any_out(g)
    &&& sp.finals == 0 ==> sp.fin_flag is None
    &&& sp.finals >= 1 ==> sp.fin_flag == Some(any_out(g))
}

/// What one getter's own step does to the record of the take, state by state.
proof fn lemma_own_flag(g: GroupView, i: int)
    requires
        group_inv(g),
        flag_inv(g),
        can_step(g, i),
    ensures
        ({
            let p = g.procs[i];
            let (next, acts) = step_actions(g, i);
            let sp = g.space;
            let sp2 = perform(sp, acts);
            let g2 = group_step(g, i);
            &&& out_ok(g2, i)
            &&& !(next is Start)
            &&& sp.someone_moved ==> sp2.someone_moved
            &&& sp2.someone_moved != sp.someone_moved ==> p.0 is Start && g.outs[i] > 0
            &&& p.0 is Start && g.copy && g.outs[i] > 0 ==> sp2.someone_moved
            &&& p.0 is Start && !g.copy && g.outs[i] > 0 ==> sp2.move_asked
            &&& next is CopyAwaitMoved ==> p.0 is CopyCounted && count_of(p.1) == 1
                && sp2.reply == AcquireEvent::Flag(sp.someone_moved)
            &&& next is EmptyAwaitPermission ==> p.0 is EmptyCounted && count_of(p.1) == 1
                && sp2.reply == AcquireEvent::Flag(sp.move_asked)
            &&& finalizes(acts) == 0 ==> sp2.fin_flag == sp.fin_flag
            &&& finalizes(acts) > 0 ==> {
                ||| p.0 is CopyAwaitMoved && sp2.fin_flag == Some(flag_of(p.1))
                ||| p.0 is WonCounted && sp2.fin_flag == Some(true)
                ||| p.0 is EmptyAwaitPermission && !flag_of(p.1) && sp2.fin_flag == Some(false)
            }
        }),
{
    let p = g.procs[i];
    let sp = g.space;
    assert(proc_ok(g.copy, p, sp));
    assert(out_ok(g, i));
    lemma_uncounted_le_len(g.procs);
    reveal_with_fuel(perform, 4);
    reveal_with_fuel(finalizes, 4);
    match p.0 {
        AcquireState::Start { copy, n_out } => {
            if copy {
                if n_out > 0 {
                } else {
                }
            } else if n_out > 0 {
            } else {
            }
        },
        AcquireState::CopyCounted => {
            if count_of(p.1) == 1 {
            } else {
            }
        },
        AcquireState::CopyAwaitMoved => {},
        AcquireState::AwaitPermission => {
            if p.1 == AcquireEvent::Flag(false) {
            } else {
            }
        },
        AcquireState::WonCounted => {
            if count_of(p.1) == 1 {
            } else {
            }
        },
        AcquireState::LostCounted => {
            if count_of(p.1) == 1 {
            } else {
            }
        },
        AcquireState::EmptyCounted => {
            if count_of(p.1) == 1 {
            } else {
            }
        },
        AcquireState::EmptyAwaitPermission => {
            if p.1 == AcquireEvent::Flag(false) {
            } else {
            }
        },
        AcquireState::Done => {},
    }
}

proof fn lemma_step_flag(g: GroupView, i: int)
    requires
        group_inv(g),
        flag_inv(g),
        can_step(g, i),
    ensures
        flag_inv(group_step(g, i)),
{
    let n = g.procs.len();
    let p = g.procs[i];
    let (next, acts) = step_actions(g, i);
    let sp = g.space;
    let sp2 = perform(sp, acts);
    let g2 = group_step(g, i);
    lemma_own_step(g, i);
    lemma_own_flag(g, i);
    assert(g2.outs == g.outs);
    assert(any_out(g2) == any_out(g));
    assert(g2.procs[i] == (next, sp2.reply));
    assert forall|k: int| 0 <= k < n && k != i implies #[trigger] g2.procs[k] == g.procs[k] by {}
    assert(proc_ok(g.copy, p, sp));
    // once every getter has counted down, what the flags say is settled
    if sp.countdown == 0 {
        lemma_uncounted_zero(g.procs);
    }
    assert forall|k: int| 0 <= k < n implies #[trigger] out_ok(g2, k) by {
        if k != i {
            assert(out_ok(g, k));
        }
    }
    if sp2.someone_moved {
        if !sp.someone_moved {
            assert(g.outs[i] > 0);
        }
    }
    if g.copy {
        assert forall|k: int| 0 <= k < n && !(g2.procs[k].0 is Start) && #[trigger] g2.outs[k] > 0
            implies sp2.someone_moved by {
            if k != i || !(p.0 is Start) {
                assert(g.outs[k] > 0);
            }
        }
    } else {
        assert forall|k: int| 0 <= k < n && !(g2.procs[k].0 is Start) && #[trigger] g2.outs[k] > 0
            implies sp2.move_asked by {
            if k != i || !(p.0 is Start) {
                assert(g.outs[k] > 0);
            }
        }
    }
    assert forall|k: int| 0 <= k < n && (#[trigger] g2.procs[k]).0 is CopyAwaitMoved
        implies flag_of(g2.procs[k].1) == any_out(g2) by {
        if k == i && !(p.0 is CopyAwaitMoved) {
            assert(sp.countdown == 0);
            assert(g.copy);
            if any_out(g) {
                let q = choose|q: int| 0 <= q < g.outs.len() && #[trigger] g.outs[q] > 0;
                assert(!not_counted(g.procs[q].0));
            }
        } else if k == i {
            assert(false);
        }
    }
    assert forall|k: int| 0 <= k < n && (#[trigger] g2.procs[k]).0 is EmptyAwaitPermission && !flag_of(g2.procs[k].1)
        implies !any_out(g2) by {
        if k == i && !(p.0 is EmptyAwaitPermission) {
            assert(sp.countdown == 0);
            assert(!g.copy);
            if any_out(g) {
                let q = choose|q: int| 0 <= q < g.outs.len() && #[trigger] g.outs[q] > 0;
                assert(!not_counted(g.procs[q].0));
            }
        } else if k == i {
            assert(false);
        }
    }
    if finalizes(acts) > 0 {
        assert(finalizer(g, i));
        assert(sp.finals == 0);
        if p.0 is WonCounted {
            assert(out_ok(g, i));
        }
        if p.0 is CopyAwaitMoved {
            assert(g.procs[i].0 is CopyAwaitMoved);
        }
        if p.0 is EmptyAwaitPermission {
            assert(g.procs[i].0 is EmptyAwaitPermission);
        }
    }
}

proof fn lemma_run_flag(g: GroupView, sched: Seq<int>)
    requires
        group_inv(g),
        flag_inv(g),
        group_run(g, sched) is Some,
    ensures
        flag_inv(group_run(g, sched)->0),
    decreases sched.len(),
{
    if sched.len() > 0 {
        lemma_step_inv(g, sched[0]);
        lemma_step_flag(g, sched[0]);
        lemma_run_flag(group_step(g, sched[0]), sched.drop_first());
    }
}

/// Getters acquiring one datum at once tell the putter truthfully whether
/// its datum was taken, whatever the order in which their steps
/// interleave: once every getter has finished, the one finalization says
/// the datum was taken exactly when some getter had a destination for it.
pub proof fn law_group_reports_take(copy: bool, n_outs: Seq<usize>, sched: Seq<int>)
    requires
        1 <= n_outs.len() <= usize::MAX,
        group_run(group_start(copy, n_outs), sched) is Some,
    ensures
        ({
            let g = group_run(group_start(copy, n_outs), sched)->0;
            all_done(g) ==> g.space.fin_flag == Some(exists|k: int| 0 <= k < n_outs.len() && #[trigger] n_outs[k] > 0)
        }),
{
    let g0 = group_start(copy, n_outs);
    lemma_start_inv(copy, n_outs);
    assert(flag_inv(g0)) by {
        assert forall|k: int| 0 <= k < g0.procs.len() implies #[trigger] out_ok(g0, k) by {}
    }
    lemma_run_flag(g0, sched);
    law_group_finalizes_once(copy, n_outs, sched);
    lemma_run_outs(g0, sched);
}

proof fn lemma_run_outs(g: GroupView, sched: Seq<int>)
    requires
        group_run(g, sched) is Some,
    ensures
        (group_run(g, sched)->0).outs == g.outs,
    decreases sched.len(),
{
    if sched.len() > 0 {
        lemma_run_outs(group_step(g, sched[0]), sched.drop_first());
    }
}

} // verus!

//! The decisions a putter's data source makes when getters acquire its
//! datum: who copies, who clones, who moves the datum itself, who waits for
//! whom, and who finalizes. The caller performs the actions (atomic
//! countdowns and flags, semaphore waits, copies and clones) and reports
//! their outcomes back as events.
use vstd::prelude::*;

verus! {

/// Where an acquisition stands.
#[derive(Debug, Copy, Clone, PartialEq, Eq, Structural)]
pub enum AcquireState {
    /// Nothing done yet; the datum is `copy`able or not, and `n_out` getters wait for it.
    Start { copy: bool, n_out: usize },
    /// Copies made; awaiting the value the countdown had.
    CopyCounted,
    /// Last to count down after copying; awaiting whether anyone moved the datum.
    CopyAwaitMoved,
    /// Awaiting whether someone else already asked to move the datum.
    AwaitPermission,
    /// Won the move; awaiting the value the countdown had.
    WonCounted,
    /// Lost the move and cloned; awaiting the value the countdown had.
    LostCounted,
    /// Nothing to hand out; awaiting the value the countdown had.
    EmptyCounted,
    /// Nothing to hand out and last to count down; awaiting whether someone else asked to move.
    EmptyAwaitPermission,
    /// Finished.
    Done,
}

/// The outcome of the last action, reported back by the caller.
#[derive(Debug, Copy, Clone, PartialEq, Eq, Structural)]
pub enum AcquireEvent {
    /// Start working.
    Begin,
    /// The value the countdown had before it was decremented.
    Count(usize),
    /// The answer of a flag query.
    Flag(bool),
}

/// An action for the caller to perform.
#[derive(Debug, Copy, Clone, PartialEq, Eq, Structural)]
pub enum AcquireAction {
    /// Record that a copyable datum was taken.
    MarkCopyMoved,
    /// Copy the datum into every destination.
    CopyEach,
    /// Clone the datum into every destination.
    CloneEach,
    /// Clone the datum into every destination but the first, then move it into the first.
    MoveFirstCloneRest,
    /// Decrement the countdown of cloners, and report the value it had.
    CountDown,
    /// Ask whether anyone took the datum, and report the answer.
    AskSomeoneMoved,
    /// Ask for permission to move the datum; report whether someone asked before.
    AskMovePermission,
    /// Wait until the cloners are done.
    AcquireMover,
    /// Tell the waiting mover that the cloners are done.
    ReleaseMover,
    /// Finish, saying whether the datum was moved out.
    Finalize(bool),
}

/// The event that a state awaits fits the event given.
pub open spec fn accepts(s: AcquireState, e: AcquireEvent) -> bool {
    match s {
        AcquireState::Start { .. } => e is Begin,
        AcquireState::CopyCounted | AcquireState::WonCounted | AcquireState::LostCounted
        | AcquireState::EmptyCounted => e is Count,
        AcquireState::CopyAwaitMoved | AcquireState::AwaitPermission
        | AcquireState::EmptyAwaitPermission => e is Flag,
        AcquireState::Done => false,
    }
}

/// The next state and the actions to perform, for a state and the event it awaits.
pub open spec fn acquire_transition(s: AcquireState, e: AcquireEvent) -> (AcquireState, Seq<AcquireAction>) {
    match (s, e) {
        (AcquireState::Start { copy: true, n_out }, _) => (
            AcquireState::CopyCounted,
            if n_out > 0 {
                seq![AcquireAction::MarkCopyMoved, AcquireAction::CopyEach, AcquireAction::CountDown]
            } else {
                seq![AcquireAction::CopyEach, AcquireAction::CountDown]
            },
        ),
        (AcquireState::Start { copy: false, n_out }, _) => if n_out > 0 {
            (AcquireState::AwaitPermission, seq![AcquireAction::AskMovePermission])
        } else {
            (AcquireState::EmptyCounted, seq![AcquireAction::CountDown])
        },
        (AcquireState::CopyCounted, AcquireEvent::Count(was)) => if was == 1 {
            (AcquireState::CopyAwaitMoved, seq![AcquireAction::AskSomeoneMoved])
        } else {
            (AcquireState::Done, seq![])
        },
        (AcquireState::CopyAwaitMoved, AcquireEvent::Flag(moved)) => (AcquireState::Done, seq![AcquireAction::Finalize(moved)]),
        (AcquireState::AwaitPermission, AcquireEvent::Flag(asked_before)) => if !asked_before {
            (AcquireState::WonCounted, seq![AcquireAction::CountDown])
        } else {
            (AcquireState::LostCounted, seq![AcquireAction::CloneEach, AcquireAction::CountDown])
        },
        (AcquireState::WonCounted, AcquireEvent::Count(was)) => if was == 1 {
            (AcquireState::Done, seq![AcquireAction::MoveFirstCloneRest, AcquireAction::Finalize(true)])
        } else {
            (AcquireState::Done, seq![AcquireAction::AcquireMover, AcquireAction::Finalize(true)])
        },
        (AcquireState::LostCounted, AcquireEvent::Count(was)) => if was == 1 {
            (AcquireState::Done, seq![AcquireAction::ReleaseMover])
        } else {
            (AcquireState::Done, seq![])
        },
        (AcquireState::EmptyCounted, AcquireEvent::Count(was)) => if was == 1 {
            (AcquireState::EmptyAwaitPermission, seq![AcquireAction::AskMovePermission])
        } else {
            (AcquireState::Done, seq![])
        },
        (AcquireState::EmptyAwaitPermission, AcquireEvent::Flag(asked_before)) => if !asked_before {
            (AcquireState::Done, seq![AcquireAction::Finalize(false)])
        } else {
            (AcquireState::Done, seq![AcquireAction::ReleaseMover])
        },
        _ => (s, seq![]),
    }
}

/// Takes one step of an acquisition: the next state, and the actions to
/// perform before reporting the next event.
pub fn acquire_step(s: AcquireState, e: AcquireEvent) -> (r: (AcquireState, Vec<AcquireAction>))
    requires
        accepts(s, e),
    ensures
        (r.0, r.1@) == acquire_transition(s, e),
{
    let r = match (s, e) {
        (AcquireState::Start { copy: true, n_out }, _) => {
            if n_out > 0 {
                (AcquireState::CopyCounted, vec![AcquireAction::MarkCopyMoved, AcquireAction::CopyEach, AcquireAction::CountDown])
            } else {
                (AcquireState::CopyCounted, vec![AcquireAction::CopyEach, AcquireAction::CountDown])
            }
        },
        (AcquireState::Start { copy: false, n_out }, _) => {
            if n_out > 0 {
                (AcquireState::AwaitPermission, vec![AcquireAction::AskMovePermission])
            } else {
                (AcquireState::EmptyCounted, vec![AcquireAction::CountDown])
            }
        },
        (AcquireState::CopyCounted, AcquireEvent::Count(was)) => {
            if was == 1 {
                (AcquireState::CopyAwaitMoved, vec![AcquireAction::AskSomeoneMoved])
            } else {
                (AcquireState::Done, vec![])
            }
        },
        (AcquireState::CopyAwaitMoved, AcquireEvent::Flag(moved)) => {
            (AcquireState::Done, vec![AcquireAction::Finalize(moved)])
        },
        (AcquireState::AwaitPermission, AcquireEvent::Flag(asked_before)) => {
            if !asked_before {
                (AcquireState::WonCounted, vec![AcquireAction::CountDown])
            } else {
                (AcquireState::LostCounted, vec![AcquireAction::CloneEach, AcquireAction::CountDown])
            }
        },
        (AcquireState::WonCounted, AcquireEvent::Count(was)) => {
            if was == 1 {
                (AcquireState::Done, vec![AcquireAction::MoveFirstCloneRest, AcquireAction::Finalize(true)])
            } else {
                (AcquireState::Done, vec![AcquireAction::AcquireMover, AcquireAction::Finalize(true)])
            }
        },
        (AcquireState::LostCounted, AcquireEvent::Count(was)) => {
            if was == 1 {
                (AcquireState::Done, vec![AcquireAction::ReleaseMover])
            } else {
                (AcquireState::Done, vec![])
            }
        },
        (AcquireState::EmptyCounted, AcquireEvent::Count(was)) => {
            if was == 1 {
                (AcquireState::EmptyAwaitPermission, vec![AcquireAction::AskMovePermission])
            } else {
                (AcquireState::Done, vec![])
            }
        },
        (AcquireState::EmptyAwaitPermission, AcquireEvent::Flag(asked_before)) => {
            if !asked_before {
                (AcquireState::Done, vec![AcquireAction::Finalize(false)])
            } else {
                (AcquireState::Done, vec![AcquireAction::ReleaseMover])
            }
        },
        _ => (s, vec![]),
    };
    assert(r.1@ =~= acquire_transition(s, e).1);
    r
}

/// The state and all actions after a sequence of events, or `None` where
/// some event does not fit.
pub open spec fn acquire_run(s: AcquireState, events: Seq<AcquireEvent>) -> Option<(AcquireState, Seq<AcquireAction>)>
    decreases events.len(),
{
    if events.len() == 0 {
        Some((s, seq![]))
    } else if !accepts(s, events[0]) {
        None
    } else {
        let (next, acts) = acquire_transition(s, events[0]);
        match acquire_run(next, events.drop_first()) {
            Some((last, more)) => Some((last, acts + more)),
            None => None,
        }
    }
}

/// How many of the actions decrement the countdown.
pub open spec fn count_downs(acts: Seq<AcquireAction>) -> nat
    decreases acts.len(),
{
    if acts.len() == 0 {
        0
    } else {
        (if acts[0] is CountDown { 1nat } else { 0nat }) + count_downs(acts.drop_first())
    }
}

/// How many of the actions finalize.
pub open spec fn finalizes(acts: Seq<AcquireAction>) -> nat
    decreases acts.len(),
{
    if acts.len() == 0 {
        0
    } else {
        (if acts[0] is Finalize { 1nat } else { 0nat }) + finalizes(acts.drop_first())
    }
}

proof fn lemma_counts_concat(a: Seq<AcquireAction>, b: Seq<AcquireAction>)
    ensures
        count_downs(a + b) == count_downs(a) + count_downs(b),
        finalizes(a + b) == finalizes(a) + finalizes(b),
    decreases a.len(),
{
    if a.len() == 0 {
        assert(a + b =~= b);
    } else {
        assert((a + b).drop_first() =~= a.drop_first() + b);
        lemma_counts_concat(a.drop_first(), b);
    }
}

/// The countdowns still to come and the finalizations still allowed from a state.
spec fn budget(s: AcquireState) -> (nat, nat) {
    match s {
        AcquireState::Start { .. } | AcquireState::AwaitPermission => (1, 1),
        AcquireState::Done => (0, 0),
        _ => (0, 1),
    }
}

proof fn lemma_transition_counts(s: AcquireState, e: AcquireEvent)
    requires
        accepts(s, e),
    ensures
        count_downs(acquire_transition(s, e).1) + budget(acquire_transition(s, e).0).0 == budget(s).0,
        finalizes(acquire_transition(s, e).1) + budget(acquire_transition(s, e).0).1 <= budget(s).1,
{
    let acts = acquire_transition(s, e).1;
    reveal_with_fuel(count_downs, 4);
    reveal_with_fuel(finalizes, 4);
    if acts.len() > 0 {
        assert(acts.drop_first().len() == acts.len() - 1);
        if acts.len() > 1 {
            assert(acts.drop_first().drop_first().len() == acts.len() - 2);
        }
    }
    match s {
        AcquireState::Start { copy, n_out } => {
            if copy {
                if n_out > 0 {
                    assert(acts.drop_first() =~= seq![AcquireAction::CopyEach, AcquireAction::CountDown]);
                    assert(acts.drop_first().drop_first() =~= seq![AcquireAction::CountDown]);
                } else {
                    assert(acts.drop_first() =~= seq![AcquireAction::CountDown]);
                }
            } else if n_out > 0 {
                assert(acts.drop_first() =~= seq![]);
            } else {
                assert(acts.drop_first() =~= seq![]);
            }
        },
        AcquireState::AwaitPermission => {
            if acts.len() == 2 {
                assert(acts.drop_first() =~= seq![AcquireAction::CountDown]);
            } else {
                assert(acts.drop_first() =~= seq![]);
            }
        },
        AcquireState::WonCounted => {
            assert(acts.drop_first() =~= seq![AcquireAction::Finalize(true)]);
            assert(acts.drop_first().drop_first() =~= seq![]);
        },
        _ => {
            if acts.len() == 1 {
                assert(acts.drop_first() =~= seq![]);
            }
        },
    }
}

proof fn lemma_run_budget(s: AcquireState, events: Seq<AcquireEvent>)
    requires
        acquire_run(s, events) matches Some((last, _)) && last == AcquireState::Done,
    ensures
        count_downs((acquire_run(s, events)->0).1) == budget(s).0,
        finalizes((acquire_run(s, events)->0).1) <= budget(s).1,
    decreases events.len(),
{
    if events.len() == 0 {
        assert(count_downs(seq![]) == 0);
        assert(finalizes(seq![]) == 0);
    } else {
        let (next, acts) = acquire_transition(s, events[0]);
        let more = (acquire_run(next, events.drop_first())->0).1;
        lemma_run_budget(next, events.drop_first());
        lemma_counts_concat(acts, more);
        lemma_transition_counts(s, events[0]);
    }
}

/// Every acquisition that finishes decrements the countdown of cloners
/// exactly once and finalizes at most once.
pub proof fn law_acquire_counts_down_once(copy: bool, n_out: usize, events: Seq<AcquireEvent>)
    requires
        acquire_run(AcquireState::Start { copy, n_out }, events) matches Some((last, _)) && last == AcquireState::Done,
    ensures
        count_downs((acquire_run(AcquireState::Start { copy, n_out }, events)->0).1) == 1,
        finalizes((acquire_run(AcquireState::Start { copy, n_out }, events)->0).1) <= 1,
{
    lemma_run_budget(AcquireState::Start { copy, n_out }, events);
}

} // verus!

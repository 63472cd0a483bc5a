use reo_rs::ports::{PortEvent, PortState};
use reo_rs::acquire::{acquire_step, AcquireAction, AcquireEvent, AcquireState};
use reo_rs::claim::{ClaimResult, PortInfo, PortRole, UnclaimedPorts};
use reo_rs::helper::with_first;
use reo_rs::proto::{await_step, check_fill_type, AwaitAction, AwaitEvent, EndlessIter};
use std::any::TypeId;
use reo_rs::tokens::{Advance, Transition};

#[test]
fn port_event_token() {
    assert_eq!(PortEvent::GetReady(3).token(), 3);
    assert_eq!(PortEvent::PutReady(4).token(), 4);
    assert_eq!(PortEvent::Dropped(5).token(), 5);
}

#[test]
fn port_state_put_then_get() {
    let mut s: PortState<u32> = PortState::new();
    assert!(s.can_put());
    assert_eq!(s.register_putter(10), Some(PortEvent::PutReady(10)));
    assert_eq!(s.register_getter(20), None);
    assert!(s.has_put_listener() && s.has_get_listener());
    assert_eq!(s.deposit(42), Some(PortEvent::GetReady(20)));
    assert!(!s.can_put());
    assert_eq!(s.withdraw(), (Some(42), Some(PortEvent::PutReady(10))));
    assert!(s.can_put());
    assert_eq!(s.withdraw(), (None, None));
    assert_eq!(s.putter_dropped(), Some(PortEvent::Dropped(10)));
    assert_eq!(s.getter_dropped(), Some(PortEvent::Dropped(20)));
}

#[test]
fn port_get_after_put_or_drop() {
    let mut s: PortState<u32> = PortState::new();
    assert_eq!(s.register_putter(7), Some(PortEvent::PutReady(7)));
    assert_eq!(s.deposit(5), None);
    assert_eq!(s.finish_get(true), (Ok(5), Some(PortEvent::PutReady(7))));
    assert!(s.can_put());
    // the putter went away without a put
    let mut gone: PortState<u32> = PortState::new();
    assert_eq!(gone.finish_get(false), (Err(()), None));
    assert!(gone.can_put());
    assert_eq!(gone.finish_get(true), (Err(()), None));
    // a failed rendezvous leaves a waiting datum in place
    let mut waiting: PortState<u32> = PortState::new();
    waiting.deposit(9);
    assert_eq!(waiting.finish_get(false), (Err(()), None));
    assert!(!waiting.can_put());
}

#[test]
fn port_state_register_getter_with_datum() {
    let mut s: PortState<&str> = PortState::new();
    assert_eq!(s.deposit("x"), None);
    assert_eq!(s.register_getter(1), Some(PortEvent::GetReady(1)));
    assert_eq!(s.register_putter(2), None);
    assert_eq!(s.putter_dropped(), Some(PortEvent::Dropped(2)));
    let fresh: PortState<u8> = PortState::new();
    assert_eq!(fresh.getter_dropped(), None);
}

fn run(copy: bool, n_out: usize, events: &[AcquireEvent]) -> (AcquireState, Vec<AcquireAction>) {
    let mut state = AcquireState::Start { copy, n_out };
    let (s, mut acts) = acquire_step(state, AcquireEvent::Begin);
    state = s;
    for &e in events {
        let (s, more) = acquire_step(state, e);
        state = s;
        acts.extend(more);
    }
    (state, acts)
}

#[test]
fn acquire_copy_last() {
    let (s, acts) = run(true, 2, &[AcquireEvent::Count(1), AcquireEvent::Flag(true)]);
    assert_eq!(s, AcquireState::Done);
    assert_eq!(
        acts,
        vec![
            AcquireAction::MarkCopyMoved,
            AcquireAction::CopyEach,
            AcquireAction::CountDown,
            AcquireAction::AskSomeoneMoved,
            AcquireAction::Finalize(true)
        ]
    );
}

#[test]
fn acquire_move_winner_and_loser() {
    let (s, acts) = run(false, 3, &[AcquireEvent::Flag(false), AcquireEvent::Count(1)]);
    assert_eq!(s, AcquireState::Done);
    assert_eq!(
        acts,
        vec![
            AcquireAction::AskMovePermission,
            AcquireAction::CountDown,
            AcquireAction::MoveFirstCloneRest,
            AcquireAction::Finalize(true)
        ]
    );
    let (_, acts2) = run(false, 3, &[AcquireEvent::Flag(false), AcquireEvent::Count(2)]);
    assert_eq!(acts2[2], AcquireAction::AcquireMover);
    let (_, acts3) = run(false, 1, &[AcquireEvent::Flag(true), AcquireEvent::Count(1)]);
    assert_eq!(
        acts3,
        vec![
            AcquireAction::AskMovePermission,
            AcquireAction::CloneEach,
            AcquireAction::CountDown,
            AcquireAction::ReleaseMover
        ]
    );
}

#[test]
fn acquire_nothing_to_hand_out() {
    let (s, acts) = run(false, 0, &[AcquireEvent::Count(1), AcquireEvent::Flag(false)]);
    assert_eq!(s, AcquireState::Done);
    assert_eq!(
        acts,
        vec![AcquireAction::CountDown, AcquireAction::AskMovePermission, AcquireAction::Finalize(false)]
    );
    let (s2, acts2) = run(false, 0, &[AcquireEvent::Count(3)]);
    assert_eq!(s2, AcquireState::Done);
    assert_eq!(acts2, vec![AcquireAction::CountDown]);
}

#[test]
fn claim_ports() {
    let mut u = UnclaimedPorts::new();
    u.declare(0, PortInfo { role: PortRole::Putter, type_id: TypeId::of::<u32>() });
    u.declare(1, PortInfo { role: PortRole::Getter, type_id: TypeId::of::<String>() });
    assert_eq!(u.claim(1, TypeId::of::<u32>()), ClaimResult::TypeMismatch);
    assert_eq!(u.claim(1, TypeId::of::<String>()), ClaimResult::GotGetter);
    assert_eq!(u.claim(1, TypeId::of::<String>()), ClaimResult::NotUnclaimed);
    assert_eq!(u.claim(0, TypeId::of::<u32>()), ClaimResult::GotPutter);
    assert_eq!(u.claim(7, TypeId::of::<u32>()), ClaimResult::NotUnclaimed);
    assert!(u.declaration(0).is_none());
    assert!(u.declaration(5).is_none());
}

#[test]
fn with_first_marks_first() {
    let mut it = with_first(vec![5, 6, 7].into_iter());
    assert_eq!(it.next(), Some((true, 5)));
    assert_eq!(it.next(), Some((false, 6)));
    assert_eq!(it.next(), Some((false, 7)));
    assert_eq!(it.next(), None);
}

#[test]
fn endless_iter_pads_with_zero() {
    let v: Vec<usize> = vec![3, 4];
    let mut e = v.endless_iter();
    assert_eq!(e.next(), 3);
    assert_eq!(e.next(), 4);
    assert_eq!(e.next(), 0);
    assert_eq!(e.next(), 0);
}

struct SharedSpace {
    countdown: usize,
    someone_moved: bool,
    move_asked: bool,
    mover_sema: usize,
    finals: usize,
    moves: usize,
}

fn perform(space: &mut SharedSpace, acts: &[AcquireAction]) -> AcquireEvent {
    let mut reply = AcquireEvent::Begin;
    for a in acts {
        match a {
            AcquireAction::MarkCopyMoved => space.someone_moved = true,
            AcquireAction::CopyEach | AcquireAction::CloneEach => {}
            AcquireAction::MoveFirstCloneRest => space.moves += 1,
            AcquireAction::CountDown => {
                reply = AcquireEvent::Count(space.countdown);
                space.countdown -= 1;
            }
            AcquireAction::AskSomeoneMoved => reply = AcquireEvent::Flag(space.someone_moved),
            AcquireAction::AskMovePermission => {
                reply = AcquireEvent::Flag(space.move_asked);
                space.move_asked = true;
            }
            AcquireAction::AcquireMover => space.mover_sema -= 1,
            AcquireAction::ReleaseMover => space.mover_sema += 1,
            AcquireAction::Finalize(_) => {
                space.finals += 1;
            }
        }
    }
    reply
}

/// Runs the getters in the cyclic order given until all are done.
fn run_group(copy: bool, n_outs: &[usize], order: &[usize]) -> SharedSpace {
    let mut space = SharedSpace {
        countdown: n_outs.len(),
        someone_moved: false,
        move_asked: false,
        mover_sema: 0,
        finals: 0,
        moves: 0,
    };
    let mut procs: Vec<(AcquireState, AcquireEvent)> =
        n_outs.iter().map(|&n_out| (AcquireState::Start { copy, n_out }, AcquireEvent::Begin)).collect();
    for _round in 0..100 {
        for &i in order {
            let (state, reply) = procs[i];
            if state == AcquireState::Done {
                continue;
            }
            let event = if let AcquireState::Start { .. } = state { AcquireEvent::Begin } else { reply };
            let (next, acts) = acquire_step(state, event);
            if acts.first() == Some(&AcquireAction::AcquireMover) && space.mover_sema == 0 {
                continue;
            }
            if acts.iter().any(|a| matches!(a, AcquireAction::Finalize(_))) {
                // every other getter has already counted down, so has no copying left
                assert_eq!(space.countdown, 0);
            }
            let reply = perform(&mut space, &acts);
            procs[i] = (next, reply);
        }
    }
    assert!(procs.iter().all(|p| p.0 == AcquireState::Done));
    space
}

#[test]
fn law_group_finalizes_once_on_examples() {
    let orders: [&[usize]; 4] = [&[0, 1, 2], &[2, 1, 0], &[1, 0, 2], &[0, 2, 1]];
    let outs: [&[usize]; 4] = [&[1, 2, 0], &[0, 0, 0], &[2, 0, 1], &[1, 1, 1]];
    for copy in [true, false] {
        for n_outs in outs.iter() {
            for order in orders.iter() {
                let space = run_group(copy, n_outs, order);
                assert_eq!(space.finals, 1);
                assert!(space.moves <= 1);
                assert_eq!(space.countdown, 0);
                if copy {
                    assert_eq!(space.moves, 0);
                }
            }
        }
    }
    // a single getter on its own
    let space = run_group(false, &[3], &[0]);
    assert_eq!((space.finals, space.moves), (1, 1));
}

#[test]
fn fill_type_check() {
    assert!(check_fill_type(TypeId::of::<u32>(), TypeId::of::<u32>()).is_ok());
    let err = check_fill_type(TypeId::of::<u32>(), TypeId::of::<u8>()).unwrap_err();
    assert_eq!(err.expected_type, TypeId::of::<u8>());
}

#[test]
fn dropbox_wait_decisions() {
    assert_eq!(await_step(AwaitEvent::Received(4)), AwaitAction::Return(Some(4)));
    assert_eq!(await_step(AwaitEvent::TimedOut), AwaitAction::RevokeReadiness);
    assert_eq!(await_step(AwaitEvent::Revoked(true)), AwaitAction::Return(None));
    assert_eq!(await_step(AwaitEvent::Revoked(false)), AwaitAction::WaitForMsg);
}

struct Waiting;
struct Fired(usize);

impl Transition<()> for Fired {
    fn from_rule_id(proto_rule_id: usize) -> Self {
        Fired(proto_rule_id)
    }
}

impl Advance<()> for Waiting {
    type Opts = Fired;
}

#[test]
fn advance_hands_the_choice_to_the_handler() {
    let r = Waiting.advance(Fired::from_rule_id(3), |f| f.0 * 2);
    assert_eq!(r, 6);
}

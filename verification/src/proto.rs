//! Protocol-facing helpers: endless iteration over rule positions, the
//! type check before filling memory and its error, the decision of a waiter
//! on its message dropbox, and the witness of a kept promise.
use vstd::prelude::*;
use std::any::TypeId;
use crate::claim::same_type_id;

verus! {

#[verifier::external_type_specification]
#[verifier::external_body]
pub struct ExTypeId(TypeId);

/// The item at position `i` of an endless iteration over `s`: the items of
/// `s`, then zeros forever.
pub open spec fn endless_at(s: Seq<usize>, i: int) -> usize {
    if 0 <= i < s.len() { s[i] } else { 0 }
}

/// Iterates over a vector's items, then over zeros forever.
pub struct Endless<'a> {
    items: &'a Vec<usize>,
    pos: usize,
}

impl<'a> Endless<'a> {
    /// The items iterated over.
    pub closed spec fn items(self) -> Seq<usize> {
        self.items@
    }

    /// How many items of the vector have been handed out.
    pub closed spec fn pos(self) -> int {
        self.pos as int
    }

    /// The next item: the next of the vector, or zero once it is exhausted.
    pub fn next(&mut self) -> (r: usize)
        requires
            old(self).pos() <= old(self).items().len(),
        ensures
            r == endless_at(old(self).items(), old(self).pos()),
            final(self).items() == old(self).items(),
            final(self).pos() == (if old(self).pos() < old(self).items().len() { old(self).pos() + 1 } else { old(self).pos() }),
            final(self).pos() <= final(self).items().len(),
    {
        if self.pos < self.items.len() {
            let x = self.items[self.pos];
            self.pos = self.pos + 1;
            x
        } else {
            0
        }
    }
}

/// Endless iteration: the items, then zeros forever.
pub trait EndlessIter {
    fn endless_iter(&self) -> Endless<'_>;
}

impl EndlessIter for Vec<usize> {
    fn endless_iter(&self) -> (r: Endless<'_>)
        ensures
            r.items() == self@,
            r.pos() == 0,
    {
        Endless { items: self, pos: 0 }
    }
}

/// Filling a memory cell failed: the value's type is not the cell's.
#[derive(Debug, Copy, Clone)]
pub struct WrongMemFillType {
    pub expected_type: TypeId,
}

/// The type test made before a memory cell is filled: a value of type `given`
/// may fill a cell that expects `expected` only where the two are the same
/// type; otherwise the error names the type expected.
pub fn check_fill_type(given: TypeId, expected: TypeId) -> (r: Result<(), WrongMemFillType>)
    ensures
        r is Ok <==> given == expected,
        r matches Err(e) ==> e.expected_type == expected,
{
    if same_type_id(&given, &expected) {
        Ok(())
    } else {
        Err(WrongMemFillType { expected_type: expected })
    }
}

/// What a waiter on its message dropbox learns.
#[derive(Debug, Copy, Clone, PartialEq, Eq, Structural)]
pub enum AwaitEvent {
    /// A message arrived within the timeout.
    Received(usize),
    /// The timeout passed with no message.
    TimedOut,
    /// The attempt to take back its readiness succeeded, or came too late
    /// because a rule already consumed it.
    Revoked(bool),
}

/// What a waiter on its message dropbox does next.
#[derive(Debug, Copy, Clone, PartialEq, Eq, Structural)]
pub enum AwaitAction {
    /// Stop waiting, with the message or with none.
    Return(Option<usize>),
    /// Try to take back the readiness it announced.
    RevokeReadiness,
    /// A message is on its way: wait for it without a timeout.
    WaitForMsg,
}

/// The waiting decision: a message that arrives is returned; after a
/// timeout the waiter tries to take back its readiness, and gives up with
/// no message where that works, but must wait for the message a rule is
/// already sending where it came too late.
pub fn await_step(e: AwaitEvent) -> (r: AwaitAction)
    ensures
        r == match e {
            AwaitEvent::Received(m) => AwaitAction::Return(Some(m)),
            AwaitEvent::TimedOut => AwaitAction::RevokeReadiness,
            AwaitEvent::Revoked(true) => AwaitAction::Return(None),
            AwaitEvent::Revoked(false) => AwaitAction::WaitForMsg,
        },
{
    match e {
        AwaitEvent::Received(m) => AwaitAction::Return(Some(m)),
        AwaitEvent::TimedOut => AwaitAction::RevokeReadiness,
        AwaitEvent::Revoked(revoked) => {
            if revoked {
                AwaitAction::Return(None)
            } else {
                AwaitAction::WaitForMsg
            }
        },
    }
}

/// Witness that a promise to fill memory or define a function was kept;
/// only this crate can make one.
pub struct PromiseFulfilled {
    kept: (),
}

} // verus!

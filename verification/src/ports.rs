//! Rendezvous ports: the state that a putter and a getter share, and the
//! decisions that each port operation makes on it. Blocking, locking and
//! channel sends are left to the caller, which performs the events that
//! these functions return.
use vstd::prelude::*;

verus! {

/// A component runs to completion, communicating through its ports.
pub trait Component {
    fn run(&mut self);
}

/// Identifies a port registered with a selector.
pub type Token = usize;

/// A readiness event that a port sends to the selector it is registered with.
#[derive(Debug, Copy, Clone, PartialEq, Eq, Structural)]
pub enum PortEvent {
    GetReady(Token),
    PutReady(Token),
    Dropped(Token),
}

impl PortEvent {
    /// The token of the port that the event concerns.
    pub fn token(self) -> (r: Token)
        ensures
            r == match self {
                PortEvent::GetReady(t) => t,
                PortEvent::PutReady(t) => t,
                PortEvent::Dropped(t) => t,
            },
    {
        match self {
            PortEvent::GetReady(t) => t,
            PortEvent::PutReady(t) => t,
            PortEvent::Dropped(t) => t,
        }
    }
}

/// The mathematical content of a port's shared state.
pub struct PortView<D> {
    pub datum: Option<D>,
    pub put_listener: Option<Token>,
    pub get_listener: Option<Token>,
}

/// The state that a putter and its getter share: the datum in transit, if
/// any, and the selector tokens that each side registered, if any.
pub struct PortState<D> {
    datum: Option<D>,
    put_listener: Option<Token>,
    get_listener: Option<Token>,
}

impl<D> View for PortState<D> {
    type V = PortView<D>;

    closed spec fn view(&self) -> PortView<D> {
        PortView { datum: self.datum, put_listener: self.put_listener, get_listener: self.get_listener }
    }
}

/// A datum deposited into an empty port: the new state, and the event for the getter's selector.
pub open spec fn port_deposit<D>(v: PortView<D>, datum: D) -> (PortView<D>, Option<PortEvent>) {
    (
        PortView { datum: Some(datum), ..v },
        match v.get_listener {
            Some(t) => Some(PortEvent::GetReady(t)),
            None => None,
        },
    )
}

/// The datum taken out of a port: the new state, the datum, and the event for the putter's selector.
pub open spec fn port_withdraw<D>(v: PortView<D>) -> (PortView<D>, Option<D>, Option<PortEvent>) {
    (
        PortView { datum: None, ..v },
        v.datum,
        if v.datum is Some {
            match v.put_listener {
                Some(t) => Some(PortEvent::PutReady(t)),
                None => None,
            }
        } else {
            None
        },
    )
}

/// What a get ends with once the rendezvous with the putter has happened
/// (`rendezvous_ok`) or failed because the putter is gone: the new state,
/// the datum or the error, and the event for the putter's selector.
pub open spec fn port_get<D>(v: PortView<D>, rendezvous_ok: bool) -> (PortView<D>, Result<D, ()>, Option<PortEvent>) {
    if !rendezvous_ok {
        (v, Err(()), None)
    } else {
        let (after, taken, event) = port_withdraw(v);
        match taken {
            Some(d) => (after, Ok(d), event),
            None => (after, Err(()), None),
        }
    }
}

/// The putter registered under `token`: the new state, and the event to send at once.
pub open spec fn port_register_putter<D>(v: PortView<D>, token: Token) -> (PortView<D>, Option<PortEvent>) {
    (
        PortView { put_listener: Some(token), ..v },
        if v.datum is None { Some(PortEvent::PutReady(token)) } else { None },
    )
}

/// The getter registered under `token`: the new state, and the event to send at once.
pub open spec fn port_register_getter<D>(v: PortView<D>, token: Token) -> (PortView<D>, Option<PortEvent>) {
    (
        PortView { get_listener: Some(token), ..v },
        if v.datum is Some { Some(PortEvent::GetReady(token)) } else { None },
    )
}

/// The event that tells a listener that its peer went away.
pub open spec fn dropped_event(listener: Option<Token>) -> Option<PortEvent> {
    match listener {
        Some(t) => Some(PortEvent::Dropped(t)),
        None => None,
    }
}

impl<D> PortState<D> {
    /// The state of a new port: empty, with no listeners.
    pub fn new() -> (r: Self)
        ensures
            r@ == (PortView::<D> { datum: None, put_listener: None, get_listener: None }),
    {
        PortState { datum: None, put_listener: None, get_listener: None }
    }

    /// Whether a putter may deposit a datum now; otherwise it waits.
    pub fn can_put(&self) -> (r: bool)
        ensures
            r == (self@.datum is None),
    {
        self.datum.is_none()
    }

    /// Deposits a datum for the getter, giving the event that tells the
    /// getter's selector, if it registered one.
    pub fn deposit(&mut self, datum: D) -> (event: Option<PortEvent>)
        requires
            old(self)@.datum is None,
        ensures
            (final(self)@, event) == port_deposit(old(self)@, datum),
    {
        self.datum = Some(datum);
        match self.get_listener {
            Some(t) => Some(PortEvent::GetReady(t)),
            None => None,
        }
    }

    /// Takes the datum after the rendezvous, giving the event that tells the
    /// putter's selector that the port is free again. With no datum there
    /// is nothing to take and nothing to tell.
    pub fn withdraw(&mut self) -> (r: (Option<D>, Option<PortEvent>))
        ensures
            (final(self)@, r.0, r.1) == port_withdraw(old(self)@),
    {
        let datum = self.datum.take();
        let event = match datum {
            Some(_) => match self.put_listener {
                Some(t) => Some(PortEvent::PutReady(t)),
                None => None,
            },
            None => None,
        };
        (datum, event)
    }

    /// Ends a get: with no rendezvous the getter fails and nothing changes;
    /// after it, the datum is taken, or the get fails where there is none.
    pub fn finish_get(&mut self, rendezvous_ok: bool) -> (r: (Result<D, ()>, Option<PortEvent>))
        ensures
            (final(self)@, r.0, r.1) == port_get(old(self)@, rendezvous_ok),
    {
        if !rendezvous_ok {
            return (Err(()), None);
        }
        let (datum, event) = self.withdraw();
        match datum {
            Some(x) => (Ok(x), event),
            None => (Err(()), None),
        }
    }

    /// Whether the putter already registered with a selector.
    pub fn has_put_listener(&self) -> (r: bool)
        ensures
            r == (self@.put_listener is Some),
    {
        self.put_listener.is_some()
    }

    /// Whether the getter already registered with a selector.
    pub fn has_get_listener(&self) -> (r: bool)
        ensures
            r == (self@.get_listener is Some),
    {
        self.get_listener.is_some()
    }

    /// Registers the putter with a selector under `token`, giving the event
    /// to send at once when the port is already free.
    pub fn register_putter(&mut self, token: Token) -> (event: Option<PortEvent>)
        requires
            old(self)@.put_listener is None,
        ensures
            (final(self)@, event) == port_register_putter(old(self)@, token),
    {
        let event = if self.datum.is_none() { Some(PortEvent::PutReady(token)) } else { None };
        self.put_listener = Some(token);
        event
    }

    /// Registers the getter with a selector under `token`, giving the event
    /// to send at once when a datum is already waiting.
    pub fn register_getter(&mut self, token: Token) -> (event: Option<PortEvent>)
        requires
            old(self)@.get_listener is None,
        ensures
            (final(self)@, event) == port_register_getter(old(self)@, token),
    {
        let event = if self.datum.is_some() { Some(PortEvent::GetReady(token)) } else { None };
        self.get_listener = Some(token);
        event
    }

    /// The event to send when the putter is dropped.
    pub fn putter_dropped(&self) -> (event: Option<PortEvent>)
        ensures
            event == dropped_event(self@.put_listener),
    {
        match self.put_listener {
            Some(t) => Some(PortEvent::Dropped(t)),
            None => None,
        }
    }

    /// The event to send when the getter is dropped.
    pub fn getter_dropped(&self) -> (event: Option<PortEvent>)
        ensures
            event == dropped_event(self@.get_listener),
    {
        match self.get_listener {
            Some(t) => Some(PortEvent::Dropped(t)),
            None => None,
        }
    }
}

/// A get gives back what a put deposited: withdrawing after a deposit into
/// an empty port yields exactly that datum, empties the port again, and
/// keeps the listeners; the getter's selector hears `GetReady` and the
/// putter's selector hears `PutReady`, each under its own token.
pub proof fn law_get_returns_put<D>(v: PortView<D>, datum: D)
    requires
        v.datum is None,
    ensures
        ({
            let (mid, put_event) = port_deposit(v, datum);
            let (after, taken, get_event) = port_withdraw(mid);
            &&& taken == Some(datum)
            &&& after == v
            &&& (v.get_listener matches Some(g) ==> put_event == Some(PortEvent::GetReady(g)))
            &&& (v.put_listener matches Some(p) ==> get_event == Some(PortEvent::PutReady(p)))
        }),
{
}

/// A get on a fresh port ends in one of two ways. After a put, it yields the
/// datum that was put, the port is empty again with its listeners kept, and
/// the putter's selector, if any, hears exactly one `PutReady` under its
/// token. When the putter went away without a put, the rendezvous fails and
/// the get fails, changing nothing and telling no one.
pub proof fn law_get_after_put_or_drop<D>(v: PortView<D>, datum: D)
    requires
        v.datum is None,
    ensures
        ({
            let (mid, _) = port_deposit(v, datum);
            let (after, got, event) = port_get(mid, true);
            &&& got == Ok::<D, ()>(datum)
            &&& after == v
            &&& event == (match v.put_listener {
                Some(t) => Some(PortEvent::PutReady(t)),
                None => None,
            })
        }),
        port_get(v, false) == (v, Err::<D, ()>(()), None::<PortEvent>),
        port_get(v, true) == (v, Err::<D, ()>(()), None::<PortEvent>),
{
    let (after, _, _) = port_withdraw(v);
    assert(after == v);
}

/// A registered side is told at once exactly when the port is ready for it:
/// a putter when the port is empty, a getter when a datum waits.
pub proof fn law_register_reports_readiness<D>(v: PortView<D>, token: Token)
    ensures
        port_register_putter(v, token).1 is Some <==> v.datum is None,
        port_register_getter(v, token).1 is Some <==> v.datum is Some,
        port_register_putter(v, token).0.datum == v.datum,
        port_register_getter(v, token).0.datum == v.datum,
{
}

} // verus!

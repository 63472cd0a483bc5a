//! Sets of ports, kept in a `hashbrown::HashSet`.
use vstd::prelude::*;
use crate::PortId;

verus! {

/// A set of port names, held in a `hashbrown::HashSet`. Contracts speak only of
/// the set of names it holds.
#[verifier::external_body]
pub struct PortSet {
    inner: hashbrown::HashSet<PortId>,
}

/// The port names that a `PortSet` holds.
pub uninterp spec fn port_set_contents(set: PortSet) -> Set<PortId>;

impl View for PortSet {
    type V = Set<PortId>;

    open spec fn view(&self) -> Set<PortId> {
        port_set_contents(*self)
    }
}

impl PortSet {
    /// `hashbrown::HashSet::new`: an empty set.
    #[verifier::external_body]
    fn empty() -> (r: PortSet)
        ensures
            port_set_contents(r) == Set::<PortId>::empty(),
    {
        PortSet { inner: hashbrown::HashSet::new() }
    }

    /// `hashbrown::HashSet::insert`: adds `port`, returning whether it was absent.
    #[verifier::external_body]
    fn add(&mut self, port: PortId) -> (r: bool)
        ensures
            port_set_contents(*final(self)) == port_set_contents(*old(self)).insert(port),
            r == !port_set_contents(*old(self)).contains(port),
    {
        self.inner.insert(port)
    }

    /// `hashbrown::HashSet::contains`: whether `port` is in the set.
    #[verifier::external_body]
    pub(crate) fn contains(&self, port: PortId) -> (r: bool)
        ensures
            r == port_set_contents(*self).contains(port),
    {
        self.inner.contains(&port)
    }

    /// The set of the given ports.
    pub fn from_ports(ports: &[PortId]) -> (r: PortSet)
        ensures
            forall|p: PortId| r@.contains(p) <==> ports@.contains(p),
    {
        let mut set = PortSet::empty();
        for i in 0..ports.len()
            invariant
                forall|p: PortId| set@.contains(p) <==> exists|k: int| 0 <= k < i && #[trigger] ports@[k] == p,
        {
            let ghost before = set@;
            let _ = set.add(ports[i]);
            assert forall|p: PortId| set@.contains(p) <==> exists|k: int| 0 <= k < i + 1 && #[trigger] ports@[k] == p by {
                if p == ports@[i as int] {
                    assert(0 <= i < i + 1 && ports@[i as int] == p);
                } else {
                    if exists|k: int| 0 <= k < i + 1 && #[trigger] ports@[k] == p {
                        let k = choose|k: int| 0 <= k < i + 1 && #[trigger] ports@[k] == p;
                        assert(0 <= k < i && ports@[k] == p);
                    }
                    if before.contains(p) {
                        let k = choose|k: int| 0 <= k < i && #[trigger] ports@[k] == p;
                        assert(0 <= k < i + 1 && ports@[k] == p);
                    }
                }
            }
        }
        set
    }

    /// Whether `port` is in the set.
    pub fn has(&self, port: PortId) -> (r: bool)
        ensures
            r == self@.contains(port),
    {
        self.contains(port)
    }
}

} // verus!

//! Claiming the ports of a protocol instance: each unclaimed port can be
//! claimed once, as the role it was declared with, by a party that names
//! the port's data type.
use vstd::prelude::*;
use std::any::TypeId;
use crate::LocId;

verus! {

/// Whether a port puts data into the protocol or gets data from it.
#[derive(Debug, Copy, Clone, PartialEq, Eq, Structural)]
pub enum PortRole {
    Putter,
    Getter,
}

/// What a protocol records of a port it declares.
#[derive(Debug, Copy, Clone)]
pub struct PortInfo {
    pub role: PortRole,
    pub type_id: TypeId,
}

/// The outcome of a claim.
#[derive(Debug, Copy, Clone, PartialEq, Eq, Structural)]
pub enum ClaimResult {
    GotPutter,
    GotGetter,
    /// The port exists but carries another type.
    TypeMismatch,
    /// The port does not exist or was claimed already.
    NotUnclaimed,
}

/// `==` on `TypeId`s: the two identifiers are the same.
#[verifier::external_body]
pub(crate) fn same_type_id(a: &TypeId, b: &TypeId) -> (r: bool)
    ensures
        r == (*a == *b),
{
    *a == *b
}

/// The ports not claimed yet, held in a `hashbrown::HashMap` from port to
/// its declared role and type. Contracts speak only of the map it holds.
#[verifier::external_body]
pub struct UnclaimedPorts {
    inner: hashbrown::HashMap<LocId, PortInfo>,
}

/// The ports that an `UnclaimedPorts` holds, with their declarations.
pub uninterp spec fn unclaimed_contents(ports: UnclaimedPorts) -> Map<LocId, PortInfo>;

impl View for UnclaimedPorts {
    type V = Map<LocId, PortInfo>;

    open spec fn view(&self) -> Map<LocId, PortInfo> {
        unclaimed_contents(*self)
    }
}

impl UnclaimedPorts {
    /// `hashbrown::HashMap::new`: no ports.
    #[verifier::external_body]
    fn empty() -> (r: UnclaimedPorts)
        ensures
            unclaimed_contents(r) =~= Map::empty(),
    {
        UnclaimedPorts { inner: hashbrown::HashMap::new() }
    }

    /// `hashbrown::HashMap::insert`: declares port `id`, replacing any earlier declaration.
    #[verifier::external_body]
    fn insert(&mut self, id: LocId, info: PortInfo)
        ensures
            unclaimed_contents(*final(self)) == unclaimed_contents(*old(self)).insert(id, info),
    {
        let _ = self.inner.insert(id, info);
    }

    /// `hashbrown::HashMap::get`: the declaration of port `id`, if it is unclaimed.
    #[verifier::external_body]
    fn get(&self, id: LocId) -> (r: Option<PortInfo>)
        ensures
            r == (if unclaimed_contents(*self).contains_key(id) { Some(unclaimed_contents(*self)[id]) } else { None }),
    {
        self.inner.get(&id).copied()
    }

    /// `hashbrown::HashMap::remove`: drops port `id` from the map.
    #[verifier::external_body]
    fn remove(&mut self, id: LocId)
        ensures
            unclaimed_contents(*final(self)) == unclaimed_contents(*old(self)).remove(id),
    {
        let _ = self.inner.remove(&id);
    }

    /// No unclaimed ports.
    pub fn new() -> (r: UnclaimedPorts)
        ensures
            r@ == Map::<LocId, PortInfo>::empty(),
    {
        UnclaimedPorts::empty()
    }

    /// Declares port `id`, replacing any earlier declaration.
    pub fn declare(&mut self, id: LocId, info: PortInfo)
        ensures
            final(self)@ == old(self)@.insert(id, info),
    {
        self.insert(id, info);
    }

    /// The declaration of port `id`, if it is unclaimed.
    pub fn declaration(&self, id: LocId) -> (r: Option<PortInfo>)
        ensures
            r == (if self@.contains_key(id) { Some(self@[id]) } else { None }),
    {
        self.get(id)
    }

    /// Claims port `id` for data of type `type_id`. Where the port is
    /// unclaimed and carries that type it is claimed, and the result names
    /// its role; otherwise nothing changes.
    pub fn claim(&mut self, id: LocId, type_id: TypeId) -> (r: ClaimResult)
        ensures
            !old(self)@.contains_key(id) ==> r == ClaimResult::NotUnclaimed && final(self)@ == old(self)@,
            old(self)@.contains_key(id) && old(self)@[id].type_id != type_id
                ==> r == ClaimResult::TypeMismatch && final(self)@ == old(self)@,
            old(self)@.contains_key(id) && old(self)@[id].type_id == type_id ==> {
                &&& final(self)@ == old(self)@.remove(id)
                &&& r == (match old(self)@[id].role {
                        PortRole::Putter => ClaimResult::GotPutter,
                        PortRole::Getter => ClaimResult::GotGetter,
                    })
            },
    {
        match self.get(id) {
            Some(info) => {
                if same_type_id(&info.type_id, &type_id) {
                    let role = info.role;
                    self.remove(id);
                    match role {
                        PortRole::Putter => ClaimResult::GotPutter,
                        PortRole::Getter => ClaimResult::GotGetter,
                    }
                } else {
                    ClaimResult::TypeMismatch
                }
            },
            None => ClaimResult::NotUnclaimed,
        }
    }
}

/// A port can be claimed only once: after a successful claim, claiming the
/// same port again finds it claimed.
pub proof fn law_claim_once(before: Map<LocId, PortInfo>, id: LocId, type_id: TypeId)
    requires
        before.contains_key(id),
        before[id].type_id == type_id,
    ensures
        !before.remove(id).contains_key(id),
{
}

} // verus!

//! Iterator helpers.
use vstd::prelude::*;
use vstd::std_specs::iter::IteratorSpec;

verus! {

/// An iterator that pairs each item with whether it is the first.
pub struct WithFirstIter<I: Iterator> {
    t: I,
    b: bool,
}

impl<I: Iterator> WithFirstIter<I> {
    /// The iterator that the items come from.
    pub closed spec fn inner(self) -> I {
        self.t
    }

    /// Whether no item has been handed out yet.
    pub closed spec fn at_first(self) -> bool {
        self.b
    }

    /// The next item of the inner iterator, with whether it is the first
    /// item that this iterator hands out.
    pub fn next(&mut self) -> (r: Option<(bool, I::Item)>)
        ensures
            !final(self).at_first(),
            r matches Some(p) ==> p.0 == old(self).at_first(),
            old(self).inner().obeys_prophetic_iter_laws() ==> {
                &&& (r is Some <==> old(self).inner().remaining().len() > 0)
                &&& (r matches Some(p) ==> p.1 == old(self).inner().remaining()[0])
                &&& final(self).inner().remaining() == (if old(self).inner().remaining().len() > 0 {
                        old(self).inner().remaining().drop_first()
                    } else {
                        old(self).inner().remaining()
                    })
            },
    {
        let was = self.b;
        self.b = false;
        match self.t.next() {
            Some(x) => Some((was, x)),
            None => None,
        }
    }
}

/// Pairs each item of `t` with whether it is the first.
pub fn with_first<I: Iterator>(t: I) -> (r: WithFirstIter<I>)
    ensures
        r.inner() == t,
        r.at_first(),
{
    WithFirstIter { t, b: true }
}

} // verus!

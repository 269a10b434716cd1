//! A cursor over registered parameter ids, consumed in binding order.

use crate::trace::NodeId;
use vstd::prelude::*;

verus! {

/// Walks a slice of parameter node ids; layers take their parameters from it
/// in the same order they were registered.
pub struct ParamCursor<'a> {
    p: &'a [NodeId],
    i: usize,
}

impl<'a> ParamCursor<'a> {
    /// The underlying id list.
    pub closed spec fn list(self) -> Seq<NodeId> {
        self.p@
    }

    /// How many ids have been taken.
    pub closed spec fn pos(self) -> nat {
        self.i as nat
    }

    pub fn new(p: &'a [NodeId]) -> (r: Self)
        ensures
            r.list() == p@,
            r.pos() == 0,
    {
        ParamCursor { p, i: 0 }
    }

    /// Take the next parameter id.
    pub fn take(&mut self) -> (r: NodeId)
        requires
            old(self).pos() < old(self).list().len(),
        ensures
            final(self).list() == old(self).list(),
            final(self).pos() == old(self).pos() + 1,
            r == old(self).list()[old(self).pos() as int],
    {
        let id = self.p[self.i];
        self.i = self.i + 1;
        id
    }

    /// Take the next two parameter ids.
    pub fn take2(&mut self) -> (r: (NodeId, NodeId))
        requires
            old(self).pos() + 2 <= old(self).list().len(),
        ensures
            final(self).list() == old(self).list(),
            final(self).pos() == old(self).pos() + 2,
            r.0 == old(self).list()[old(self).pos() as int],
            r.1 == old(self).list()[old(self).pos() as int + 1],
    {
        let first = self.take();
        let second = self.take();
        (first, second)
    }

    /// How many ids are left to take.
    pub fn remaining(&self) -> (r: usize)
        requires
            self.pos() <= self.list().len(),
        ensures
            r == self.list().len() - self.pos(),
    {
        self.p.len() - self.i
    }
}

} // verus!

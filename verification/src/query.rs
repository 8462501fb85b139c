//! Queries: the entities that have a given component, with its value.
//!
//! A query scans the archetype tables for those that hold the requested
//! component key and reads their rows, archetype by archetype, row by row.

use std::marker::PhantomData;

use vstd::prelude::*;

use crate::entity::EntityId;

verus! {

/// Marker trait for component types, implemented for every
/// `'static + Send + Sync` type.
pub trait Component: 'static + Send + Sync {

}

impl<T: 'static + Send + Sync> Component for T {

}

/// Placeholder kept for the query API of typed components.
pub struct Query<T>(PhantomData<T>);

/// A copy of `v`.
pub fn copy_bytes(v: &Vec<u8>) -> (r: Vec<u8>)
    ensures
        r@ == v@,
{
    let r = v.clone();
    proof {
        assert forall|i: int| 0 <= i < v@.len() implies r@[i] == v@[i] by {
            assert(vstd::pervasive::cloned(v@[i], r@[i]));
        }
        assert(r@ =~= v@);
    }
    r
}

/// The result of a query: `(entity, value)` pairs handed out one at a time.
pub struct QueryIter {
    /// The matching rows, collected when the query was made.
    items: Vec<(EntityId, Vec<u8>)>,
    index: usize,
}

/// The pairs of `items` from position `from` on, values taken as bytes.
pub open spec fn pairs_from(items: Seq<(EntityId, Vec<u8>)>, from: int) -> Seq<(EntityId, Seq<u8>)> {
    items.subrange(from, items.len() as int).map_values(|p: (EntityId, Vec<u8>)| (p.0, p.1@))
}

impl QueryIter {
    /// The pairs not yet handed out, in order.
    pub closed spec fn remaining(&self) -> Seq<(EntityId, Seq<u8>)> {
        pairs_from(self.items@, self.index as int)
    }

    pub closed spec fn wf(&self) -> bool {
        self.index <= self.items@.len()
    }

    /// A query over the given pairs.
    pub fn from_items(items: Vec<(EntityId, Vec<u8>)>) -> (r: Self)
        ensures
            r.wf(),
            r.remaining() == pairs_from(items@, 0),
    {
        QueryIter { items, index: 0 }
    }

    /// The next pair; `None` once all were handed out.
    pub fn next(&mut self) -> (r: Option<(EntityId, Vec<u8>)>)
        requires
            old(self).wf(),
        ensures
            final(self).wf(),
            old(self).remaining().len() == 0 ==> r is None && final(self).remaining() == old(
                self,
            ).remaining(),
            old(self).remaining().len() > 0 ==> (r matches Some(p) && (p.0, p.1@) == old(
                self,
            ).remaining()[0] && final(self).remaining() == old(self).remaining().drop_first()),
    {
        if self.index < self.items.len() {
            let e = self.items[self.index].0;
            let v = copy_bytes(&self.items[self.index].1);
            self.index = self.index + 1;
            proof {
                assert(final(self).remaining() =~= old(self).remaining().drop_first());
            }
            Some((e, v))
        } else {
            None
        }
    }

    /// Number of pairs not yet handed out, exactly: `(n, Some(n))`.
    pub fn size_hint(&self) -> (r: (usize, Option<usize>))
        requires
            self.wf(),
        ensures
            r.0 == self.remaining().len(),
            r.1 == Some(r.0),
    {
        let remaining = self.items.len() - self.index;
        (remaining, Some(remaining))
    }
}

} // verus!

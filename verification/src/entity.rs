//! Entity identity with generation counters.
//!
//! An [`EntityId`] is a 64-bit value: the lower 32 bits are the slot index,
//! the upper 32 bits the generation.  When an entity is despawned its slot is
//! handed out again with the generation bumped, so a stale handle to the old
//! occupant never names the new one.

use vstd::prelude::*;

verus! {

/// Two to the thirty-second: the weight of the generation half of an id.
pub open spec fn half() -> int {
    0x1_0000_0000
}

/// Packed entity id: upper 32 bits are the generation, lower 32 bits the index.
#[derive(Clone, Copy, Debug, PartialEq, Eq, Hash, Structural)]
pub struct EntityId(pub u64);

/// A live entity handle.
pub type Entity = EntityId;

/// The id made of `index` and `generation`.
pub open spec fn pack(index: u32, generation: u32) -> EntityId {
    EntityId((generation as int * half() + index as int) as u64)
}

/// The generation that follows `generation`, wrapping at `u32::MAX`.
pub open spec fn next_generation(generation: u32) -> u32 {
    if generation == u32::MAX {
        0
    } else {
        (generation + 1) as u32
    }
}

impl EntityId {
    /// The slot index: the lower half of the bits.
    pub open spec fn spec_index(self) -> u32 {
        (self.0 as int % half()) as u32
    }

    /// The generation: the upper half of the bits.
    pub open spec fn spec_generation(self) -> u32 {
        (self.0 as int / half()) as u32
    }

    #[verifier::when_used_as_spec(spec_index)]
    pub fn index(self) -> (r: u32)
        ensures
            r == self.spec_index(),
    {
        let b = self.0;
        assert(b as u32 == b % 0x1_0000_0000) by (bit_vector);
        b as u32
    }

    #[verifier::when_used_as_spec(spec_generation)]
    pub fn generation(self) -> (r: u32)
        ensures
            r == self.spec_generation(),
    {
        let b = self.0;
        assert((b >> 32u64) as u32 == b / 0x1_0000_0000) by (bit_vector);
        (b >> 32) as u32
    }

    pub fn new(index: u32, generation: u32) -> (r: Self)
        ensures
            r == pack(index, generation),
            r.spec_index() == index,
            r.spec_generation() == generation,
    {
        let g = generation as u64;
        let i = index as u64;
        assert(((g << 32u64) | i) == g * 0x1_0000_0000 + i) by (bit_vector)
            requires
                g < 0x1_0000_0000,
                i < 0x1_0000_0000,
        ;
        EntityId((g << 32) | i)
    }
}

/// Packing the index and generation of an id gives the id back.
pub proof fn lemma_pack_unpack(e: EntityId)
    ensures
        pack(e.spec_index(), e.spec_generation()) == e,
{
}

/// An id is determined by its index and its generation.
pub proof fn lemma_unpack_pack(index: u32, generation: u32)
    ensures
        pack(index, generation).spec_index() == index,
        pack(index, generation).spec_generation() == generation,
{
}

/// The id handed out after `e` is freed reuses `e`'s slot index with the
/// next generation, so it never equals the stale `e`.
pub proof fn law_free_then_allocate(before: EntityAllocator, after: EntityAllocator, e: EntityId)
    requires
        after.free_list() == before.free_list().push(e),
    ensures
        after.next_allocation() == pack(e.spec_index(), next_generation(e.spec_generation())),
        after.next_allocation().spec_index() == e.spec_index(),
        after.next_allocation().spec_generation() == next_generation(e.spec_generation()),
        after.next_allocation() != e,
{
    lemma_unpack_pack(e.spec_index(), next_generation(e.spec_generation()));
}

/// A fresh slot is handed out at the index of the fresh counter (modulo
/// `2^32`) with generation 0; a freed slot is handed out again at its index
/// with its generation plus one, wrapping from `u32::MAX` to 0.
pub proof fn law_allocation_ids(a: EntityAllocator)
    ensures
        a.free_list().len() == 0 ==> {
            &&& a.next_allocation().spec_generation() == 0
            &&& a.next_allocation().spec_index() as int == a.next_fresh() as int % 0x1_0000_0000
            &&& a.next_fresh() < 0x1_0000_0000 ==> a.next_allocation().0 == a.next_fresh()
        },
        a.free_list().len() > 0 ==> {
            let f = a.free_list().last();
            &&& a.next_allocation().spec_index() == f.spec_index()
            &&& f.spec_generation() < u32::MAX ==> a.next_allocation().spec_generation()
                == f.spec_generation() + 1
            &&& f.spec_generation() == u32::MAX ==> a.next_allocation().spec_generation() == 0
        },
{
    if a.free_list().len() == 0 {
        lemma_unpack_pack((a.next_fresh() as int % half()) as u32, 0);
    } else {
        let f = a.free_list().last();
        lemma_unpack_pack(f.spec_index(), next_generation(f.spec_generation()));
    }
}

/// Hands out entity ids: recycled slots (last freed first) with the
/// generation bumped, otherwise fresh slots in increasing order.
pub struct EntityAllocator {
    next_index: u64,
    /// Freed ids, each carrying the generation it had while alive.
    free: Vec<EntityId>,
}

impl EntityAllocator {
    /// The counter of fresh slots handed out so far.
    pub closed spec fn next_fresh(&self) -> u64 {
        self.next_index
    }

    /// The freed ids, oldest first.
    pub closed spec fn free_list(&self) -> Seq<EntityId> {
        self.free@
    }

    /// The id that the next call of `allocate` returns.
    pub open spec fn next_allocation(&self) -> EntityId {
        if self.free_list().len() > 0 {
            let recycled = self.free_list().last();
            pack(recycled.spec_index(), next_generation(recycled.spec_generation()))
        } else {
            pack((self.next_fresh() as int % half()) as u32, 0)
        }
    }

    /// Number of freed ids waiting to be handed out again.
    pub fn free_count(&self) -> (r: usize)
        ensures
            r == self.free_list().len(),
    {
        self.free.len()
    }

    /// Number of fresh slots handed out so far.
    pub fn fresh_count(&self) -> (r: u64)
        ensures
            r == self.next_fresh(),
    {
        self.next_index
    }

    pub fn new() -> (r: Self)
        ensures
            r.next_fresh() == 0,
            r.free_list() == Seq::<EntityId>::empty(),
    {
        EntityAllocator { next_index: 0, free: Vec::new() }
    }

    pub fn allocate(&mut self) -> (r: EntityId)
        ensures
            r == old(self).next_allocation(),
            old(self).free_list().len() == 0 ==> r.spec_generation() == 0 && r.spec_index() as int
                == old(self).next_fresh() as int % 0x1_0000_0000,
            old(self).free_list().len() > 0 ==> r.spec_index() == old(self).free_list().last().spec_index(),
            old(self).free_list().len() > 0 ==> {
                &&& final(self).free_list() == old(self).free_list().drop_last()
                &&& final(self).next_fresh() == old(self).next_fresh()
            },
            old(self).free_list().len() == 0 ==> {
                &&& final(self).free_list() == old(self).free_list()
                &&& final(self).next_fresh() == (if old(self).next_fresh() == u64::MAX {
                    0
                } else {
                    old(self).next_fresh() + 1
                })
            },
    {
        proof {
            law_allocation_ids(*self);
        }
        match self.free.pop() {
            Some(recycled) => {
                let g = recycled.generation().wrapping_add(1);
                EntityId::new(recycled.index(), g)
            },
            None => {
                let n = self.next_index;
                self.next_index = n.wrapping_add(1);
                assert(n as u32 == n % 0x1_0000_0000) by (bit_vector);
                EntityId::new(n as u32, 0)
            },
        }
    }

    pub fn free(&mut self, entity: EntityId)
        ensures
            final(self).free_list() == old(self).free_list().push(entity),
            final(self).next_fresh() == old(self).next_fresh(),
    {
        self.free.push(entity);
    }
}

} // verus!

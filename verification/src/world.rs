//! The world: every entity and its components.
//!
//! The world owns the entity allocator and the archetype tables.  Index 0 is
//! always the archetype with no components, where every entity starts when
//! it is spawned.
//!
//! ```text
//! spawn()          entity registered in the empty archetype
//! insert(e, k, v)  entity moved to the archetype that includes k
//! remove(e, k)     entity moved to the archetype that excludes k
//! despawn(e)       entity removed, its slot returned to the allocator
//! ```

use std::collections::HashMap;

use vstd::prelude::*;

use crate::archetype::{Archetype, ArchetypeId};
use crate::entity::{Entity, EntityAllocator, EntityId, half};
use crate::query::QueryIter;

verus! {

broadcast use vstd::std_specs::hash::group_hash_axioms;

/// Index of the archetype with no components.
pub const EMPTY_ARCHETYPE: usize = 0;

/// Where an entity is stored.
#[derive(Clone, Copy, Debug)]
pub struct EntityLocation {
    /// Which archetype holds the entity.
    pub archetype_index: usize,
    /// The entity's row in that archetype.
    pub row: usize,
}

/// Strictly increasing keys.
pub open spec fn sorted_keys(s: Seq<u64>) -> bool {
    forall|i: int, j: int| 0 <= i < j < s.len() ==> s[i] < s[j]
}

/// Two strictly increasing key lists with the same members are equal.
proof fn lemma_sorted_same_members(a: Seq<u64>, b: Seq<u64>)
    requires
        sorted_keys(a),
        sorted_keys(b),
        forall|x: u64| a.contains(x) <==> b.contains(x),
    ensures
        a == b,
    decreases a.len(),
{
    if a.len() == 0 {
        if b.len() > 0 {
            assert(b.contains(b[0]));
        }
        assert(a =~= b);
    } else if b.len() == 0 {
        assert(a.contains(a[0]));
    } else {
        let la = a.last();
        let lb = b.last();
        assert(a.contains(la));
        assert(b.contains(lb));
        assert(la == lb) by {
            let i = choose|i: int| 0 <= i < b.len() && b[i] == la;
            let j = choose|j: int| 0 <= j < a.len() && a[j] == lb;
            assert(la <= lb);
            assert(lb <= la);
        }
        let a2 = a.drop_last();
        let b2 = b.drop_last();
        assert forall|x: u64| a2.contains(x) <==> b2.contains(x) by {
            if a2.contains(x) {
                let i = choose|i: int| 0 <= i < a2.len() && a2[i] == x;
                assert(a.contains(x));
                assert(x != la);
                let j = choose|j: int| 0 <= j < b.len() && b[j] == x;
                assert(j != b.len() - 1);
                assert(b2[j] == x);
            }
            if b2.contains(x) {
                let i = choose|i: int| 0 <= i < b2.len() && b2[i] == x;
                assert(b.contains(x));
                assert(x != lb);
                let j = choose|j: int| 0 <= j < a.len() && a[j] == x;
                assert(j != a.len() - 1);
                assert(a2[j] == x);
            }
        }
        lemma_sorted_same_members(a2, b2);
        assert(a =~= a2.push(la));
        assert(b =~= b2.push(lb));
    }
}

fn keys_contain(ids: &Vec<u64>, k: u64) -> (r: bool)
    ensures
        r == ids@.contains(k),
{
    let mut i: usize = 0;
    while i < ids.len()
        invariant
            i <= ids@.len(),
            forall|j: int| 0 <= j < i ==> ids@[j] != k,
        decreases ids@.len() - i,
    {
        if ids[i] == k {
            assert(ids@[i as int] == k);
            return true;
        }
        i = i + 1;
    }
    false
}

fn keys_copy(ids: &Vec<u64>) -> (r: Vec<u64>)
    ensures
        r@ == ids@,
{
    let mut out: Vec<u64> = Vec::new();
    let mut i: usize = 0;
    while i < ids.len()
        invariant
            i <= ids@.len(),
            out@ == ids@.subrange(0, i as int),
        decreases ids@.len() - i,
    {
        out.push(ids[i]);
        i = i + 1;
        proof {
            assert(out@ =~= ids@.subrange(0, i as int));
        }
    }
    proof {
        assert(out@ =~= ids@);
    }
    out
}

fn keys_equal(a: &Vec<u64>, b: &Vec<u64>) -> (r: bool)
    ensures
        r == (a@ == b@),
{
    if a.len() != b.len() {
        return false;
    }
    let mut i: usize = 0;
    while i < a.len()
        invariant
            a@.len() == b@.len(),
            i <= a@.len(),
            forall|j: int| 0 <= j < i ==> a@[j] == b@[j],
        decreases a@.len() - i,
    {
        if a[i] != b[i] {
            return false;
        }
        i = i + 1;
    }
    assert(a@ =~= b@);
    true
}

/// `ids` with `k` added in order (`ids` must not hold `k`).
fn keys_with(ids: &Vec<u64>, k: u64) -> (r: Vec<u64>)
    requires
        sorted_keys(ids@),
        !ids@.contains(k),
    ensures
        sorted_keys(r@),
        forall|x: u64| r@.contains(x) <==> (ids@.contains(x) || x == k),
{
    let mut out: Vec<u64> = Vec::new();
    let mut i: usize = 0;
    while i < ids.len() && ids[i] < k
        invariant
            sorted_keys(ids@),
            i <= ids@.len(),
            out@ == ids@.subrange(0, i as int),
            forall|j: int| 0 <= j < i ==> ids@[j] < k,
        decreases ids@.len() - i,
    {
        out.push(ids[i]);
        i = i + 1;
        proof {
            assert(out@ =~= ids@.subrange(0, i as int));
        }
    }
    let split = i;
    out.push(k);
    while i < ids.len()
        invariant
            sorted_keys(ids@),
            split <= i <= ids@.len(),
            out@ == ids@.subrange(0, split as int).push(k) + ids@.subrange(split as int, i as int),
            forall|j: int| 0 <= j < split ==> ids@[j] < k,
            split < ids@.len() ==> ids@[split as int] > k,
        decreases ids@.len() - i,
    {
        out.push(ids[i]);
        i = i + 1;
        proof {
            assert(out@ =~= ids@.subrange(0, split as int).push(k) + ids@.subrange(
                split as int,
                i as int,
            ));
        }
    }
    proof {
        if split < ids@.len() {
            assert(ids@[split as int] != k) by {
                assert(ids@.contains(ids@[split as int]));
            }
        }
        let s = ids@.subrange(0, split as int).push(k) + ids@.subrange(split as int, ids@.len() as int);
        assert(out@ =~= s);
        assert forall|a: int, b: int| 0 <= a < b < out@.len() implies out@[a] < out@[b] by {
            if b < split {
            } else if b == split {
            } else if a < split {
                assert(out@[b] == ids@[b - 1]);
            } else if a == split {
                assert(out@[b] == ids@[b - 1]);
                assert(ids@[split as int] <= ids@[b - 1]);
            } else {
                assert(out@[a] == ids@[a - 1]);
                assert(out@[b] == ids@[b - 1]);
            }
        }
        assert forall|x: u64| out@.contains(x) <==> (ids@.contains(x) || x == k) by {
            if out@.contains(x) {
                let j = choose|j: int| 0 <= j < out@.len() && out@[j] == x;
                if j < split {
                    assert(ids@[j] == x);
                } else if j > split {
                    assert(ids@[j - 1] == x);
                }
            }
            if ids@.contains(x) {
                let j = choose|j: int| 0 <= j < ids@.len() && ids@[j] == x;
                if j < split {
                    assert(out@[j] == x);
                } else {
                    assert(out@[j + 1] == x);
                }
            }
            if x == k {
                assert(out@[split as int] == k);
            }
        }
    }
    out
}

/// `ids` without `k`.
fn keys_without(ids: &Vec<u64>, k: u64) -> (r: Vec<u64>)
    requires
        sorted_keys(ids@),
    ensures
        sorted_keys(r@),
        forall|x: u64| r@.contains(x) <==> (ids@.contains(x) && x != k),
{
    let mut p: usize = 0;
    while p < ids.len() && ids[p] != k
        invariant
            p <= ids@.len(),
            forall|j: int| 0 <= j < p ==> ids@[j] != k,
        decreases ids@.len() - p,
    {
        p = p + 1;
    }
    let mut out: Vec<u64> = Vec::new();
    let mut i: usize = 0;
    while i < ids.len()
        invariant
            p <= ids@.len(),
            i <= ids@.len(),
            i <= p ==> out@ == ids@.subrange(0, i as int),
            i > p ==> out@ == ids@.subrange(0, p as int) + ids@.subrange(p + 1, i as int),
        decreases ids@.len() - i,
    {
        if i != p {
            out.push(ids[i]);
        }
        i = i + 1;
        proof {
            if i <= p {
                assert(out@ =~= ids@.subrange(0, i as int));
            } else if i == p + 1 {
                assert(out@ =~= ids@.subrange(0, p as int) + ids@.subrange(p + 1, i as int));
            } else {
                assert(out@ =~= ids@.subrange(0, p as int) + ids@.subrange(p + 1, i as int));
            }
        }
    }
    proof {
        if p == ids@.len() {
            assert(out@ =~= ids@);
            assert(!ids@.contains(k));
        } else {
            assert(ids@[p as int] == k);
            assert(out@ =~= ids@.remove(p as int));
            assert forall|x: u64| out@.contains(x) <==> (ids@.contains(x) && x != k) by {
                if out@.contains(x) {
                    let j = choose|j: int| 0 <= j < out@.len() && out@[j] == x;
                    if j < p {
                        assert(ids@[j] == x);
                        assert(j < p);
                    } else {
                        assert(ids@[j + 1] == x);
                    }
                }
                if ids@.contains(x) && x != k {
                    let j = choose|j: int| 0 <= j < ids@.len() && ids@[j] == x;
                    if j < p {
                        assert(out@[j] == x);
                    } else {
                        assert(j != p);
                        assert(out@[j - 1] == x);
                    }
                }
            }
        }
        assert forall|a: int, b: int| 0 <= a < b < out@.len() implies out@[a] < out@[b] by {
            if p < ids@.len() {
                let a2 = if a < p { a } else { a + 1 };
                let b2 = if b < p { b } else { b + 1 };
                assert(out@[a] == ids@[a2]);
                assert(out@[b] == ids@[b2]);
            }
        }
    }
    out
}


/// The entities of the first `upto` tables that have a column for `k`,
/// table by table, each in row order.
pub open spec fn rows_with_column(archs: Seq<Archetype>, k: u64, upto: int) -> Seq<EntityId>
    decreases upto,
{
    if upto <= 0 {
        Seq::empty()
    } else {
        rows_with_column(archs, k, upto - 1) + (if archs[upto - 1].has_column(k) {
            archs[upto - 1].rows()
        } else {
            Seq::empty()
        })
    }
}

/// The archetype tables, the entity locations and the byte size of each
/// component key.
struct WorldInner {
    archetypes: Vec<Archetype>,
    /// Location of every live entity, keyed by its id bits.
    entity_map: HashMap<u64, EntityLocation>,
    /// Byte size of the values of each component key seen so far.
    component_sizes: HashMap<u64, usize>,
}

impl WorldInner {
    spec fn arch(&self, a: int) -> Archetype {
        self.archetypes@[a]
    }

    /// The components that the entity at `loc` has.
    spec fn comps_at(&self, loc: EntityLocation) -> Map<u64, Seq<u8>> {
        let x = self.arch(loc.archetype_index as int);
        Map::new(|k: u64| x.signature().contains(k), |k: u64| x.values(k)[loc.row as int])
    }

    /// Each live entity (by id bits) with its components.
    spec fn contents(&self) -> Map<u64, Map<u64, Seq<u8>>> {
        self.entity_map@.map_values(|loc: EntityLocation| self.comps_at(loc))
    }

    spec fn arch_ok(&self, a: int) -> bool {
        let x = self.arch(a);
        &&& x.wf()
        &&& sorted_keys(x.signature())
        &&& forall|k: u64| #[trigger]
            x.has_column(k) ==> x.signature().contains(k) && self.component_sizes@.contains_key(k)
                && x.column_size(k) == self.component_sizes@[k]
        &&& x.rows().len() > 0 ==> forall|k: u64| #[trigger]
            x.signature().contains(k) ==> x.has_column(k)
        &&& forall|r: int| #![trigger x.rows()[r]]
            0 <= r < x.rows().len() ==> self.entity_map@.contains_key(x.rows()[r].0)
                && self.entity_map@[x.rows()[r].0] == (EntityLocation {
                archetype_index: a as usize,
                row: r as usize,
            })
    }

    spec fn entry_ok(&self, b: u64) -> bool {
        let loc = self.entity_map@[b];
        &&& loc.archetype_index < self.archetypes@.len()
        &&& loc.row < self.arch(loc.archetype_index as int).rows().len()
        &&& self.arch(loc.archetype_index as int).rows()[loc.row as int].0 == b
    }

    spec fn wf(&self) -> bool {
        &&& self.archetypes@.len() > 0
        &&& self.arch(EMPTY_ARCHETYPE as int).signature() == Seq::<u64>::empty()
        &&& forall|a: int| 0 <= a < self.archetypes@.len() ==> #[trigger] self.arch_ok(a)
        &&& forall|a: int, b: int|
            #![trigger self.arch(a).signature(), self.arch(b).signature()]
            0 <= a < self.archetypes@.len() && 0 <= b < self.archetypes@.len() && a != b
                ==> self.arch(a).signature() != self.arch(b).signature()
        &&& forall|b: u64| #[trigger] self.entity_map@.contains_key(b) ==> self.entry_ok(b)
    }

    fn new() -> (r: Self)
        ensures
            r.wf(),
            r.entity_map@ == Map::<u64, EntityLocation>::empty(),
            r.component_sizes@ == Map::<u64, usize>::empty(),
            r.archetypes@.len() == 1,
    {
        let empty = Archetype::empty();
        let mut archetypes: Vec<Archetype> = Vec::new();
        archetypes.push(empty);
        let r = WorldInner {
            archetypes,
            entity_map: HashMap::new(),
            component_sizes: HashMap::new(),
        };
        proof {
            assert(r.arch_ok(0));
        }
        r
    }

    /// Find the archetype whose signature is `type_ids`, creating it when
    /// there is none.
    fn get_or_create_archetype(&mut self, type_ids: ArchetypeId) -> (r: usize)
        requires
            old(self).wf(),
            sorted_keys(type_ids@),
        ensures
            final(self).wf(),
            r < final(self).archetypes@.len(),
            r <= old(self).archetypes@.len(),
            final(self).arch(r as int).signature() == type_ids@,
            final(self).entity_map@ == old(self).entity_map@,
            final(self).component_sizes@ == old(self).component_sizes@,
            r < old(self).archetypes@.len() ==> final(self).archetypes@ == old(self).archetypes@,
            r == old(self).archetypes@.len() ==> final(self).archetypes@ == old(
                self,
            ).archetypes@.push(final(self).arch(r as int)),
            r == old(self).archetypes@.len() ==> final(self).arch(r as int).rows().len() == 0,
            r == old(self).archetypes@.len() ==> final(self).arch(r as int).keys() == Seq::<u64>::empty(),
            r < old(self).archetypes@.len() ==> forall|a: int|
                0 <= a < r ==> old(self).arch(a).signature() != type_ids@,
            r == old(self).archetypes@.len() ==> forall|a: int|
                0 <= a < old(self).archetypes@.len() ==> old(self).arch(a).signature()
                    != type_ids@,
    {
        let mut i: usize = 0;
        while i < self.archetypes.len()
            invariant
                self.wf(),
                self.archetypes@ == old(self).archetypes@,
                self.entity_map@ == old(self).entity_map@,
                self.component_sizes@ == old(self).component_sizes@,
                i <= self.archetypes@.len(),
                forall|a: int| 0 <= a < i ==> self.arch(a).signature() != type_ids@,
            decreases self.archetypes@.len() - i,
        {
            if keys_equal(self.archetypes[i].id(), &type_ids) {
                return i;
            }
            i = i + 1;
        }
        let idx = self.archetypes.len();
        self.archetypes.push(Archetype::new(type_ids));
        proof {
            assert forall|a: int| 0 <= a < self.archetypes@.len() implies #[trigger] self.arch_ok(a) by {
                if a < idx {
                    assert(old(self).arch_ok(a));
                    assert(self.arch(a) == old(self).arch(a));
                }
            }
            assert(self.arch(0) == old(self).arch(0));
            assert forall|b: u64| #[trigger] self.entity_map@.contains_key(b) implies self.entry_ok(b) by {
                assert(old(self).entry_ok(b));
                let la = self.entity_map@[b].archetype_index as int;
                assert(self.arch(la) == old(self).arch(la));
            }
            assert forall|a: int, b: int|
                #![trigger self.arch(a).signature(), self.arch(b).signature()]
                0 <= a < self.archetypes@.len() && 0 <= b < self.archetypes@.len() && a != b
                    implies self.arch(a).signature() != self.arch(b).signature() by {
                if a < idx && b < idx {
                    assert(self.arch(a) == old(self).arch(a));
                    assert(self.arch(b) == old(self).arch(b));
                } else if a < idx {
                    assert(self.arch(a) == old(self).arch(a));
                } else {
                    assert(self.arch(b) == old(self).arch(b));
                }
            }
        }
        idx
    }

    /// Take the live `entity`, stored at `loc`, out of its archetype and out
    /// of the location map.  The last entity of the archetype moves into the
    /// freed row.
    fn detach(&mut self, entity: EntityId, loc: EntityLocation)
        requires
            old(self).wf(),
            old(self).entity_map@.contains_key(entity.0),
            old(self).entity_map@[entity.0] == loc,
        ensures
            final(self).wf(),
            final(self).contents() == old(self).contents().remove(entity.0),
            final(self).entity_map@.dom() == old(self).entity_map@.dom().remove(entity.0),
            final(self).component_sizes@ == old(self).component_sizes@,
            final(self).archetypes@.len() == old(self).archetypes@.len(),
            forall|a: int|
                0 <= a < old(self).archetypes@.len() ==> (#[trigger] final(self).arch(a)).signature()
                    == old(self).arch(a).signature(),
    {
        let ghost m0 = self.entity_map@;
        // the number of tables is a `usize`: every table index fits one
        let table_count = self.archetypes.len();
        let a = loc.archetype_index;
        let r = loc.row;
        proof {
            assert(old(self).archetypes@.len() == table_count);
            assert(old(self).entry_ok(entity.0));
            assert(old(self).arch_ok(a as int));
        }
        let ghost x0 = self.arch(a as int);
        let ghost n = x0.rows().len();
        proof {
            x0.lemma_rows_bounded();
        }
        self.entity_map.remove(&entity.0);
        let swapped = self.archetypes[a].swap_remove(r);
        let ghost mid = self.entity_map@;
        match swapped {
            Some(moved) => {
                proof {
                    assert(x0.rows()[n - 1] == moved);
                    assert(m0.contains_key(moved.0));
                    assert(m0[moved.0] == EntityLocation { archetype_index: a, row: (n - 1) as usize });
                    assert(r + 1 != n);
                    assert(m0[entity.0].row == r);
                    if moved.0 == entity.0 {
                        assert(m0[moved.0].row == m0[entity.0].row);
                        assert(false);
                    }
                }
                match self.entity_map.get(&moved.0) {
                    Some(ml) => {
                        let mut l = *ml;
                        l.row = r;
                        self.entity_map.insert(moved.0, l);
                    },
                    None => {},
                }
            },
            None => {},
        }
        proof {
            let x1 = self.arch(a as int);
            let moved_bits = x0.rows()[n - 1].0;
            let last_moved = r + 1 != n;
            assert(x1.rows() == x0.rows().update(r as int, x0.rows().last()).drop_last());
            assert(last_moved ==> self.entity_map@ == m0.remove(entity.0).insert(
                moved_bits,
                EntityLocation { archetype_index: a, row: r },
            ));
            assert(!last_moved ==> self.entity_map@ == m0.remove(entity.0));
            assert forall|q: int| 0 <= q < self.archetypes@.len() && q != a implies #[trigger] self.arch(q)
                == old(self).arch(q) by {}
            // rows of the touched archetype
            assert forall|q: int| 0 <= q < n && q != r && q != n - 1 implies x0.rows()[q].0 != entity.0
                && x0.rows()[q].0 != moved_bits by {
                assert(m0[x0.rows()[q].0] == EntityLocation { archetype_index: a, row: q as usize });
                assert(m0[x0.rows()[n - 1].0] == EntityLocation {
                    archetype_index: a,
                    row: (n - 1) as usize,
                });
                assert(m0[entity.0].row == r);
                if x0.rows()[q].0 == entity.0 {
                    assert(m0[x0.rows()[q].0].row == m0[entity.0].row);
                }
                if x0.rows()[q].0 == moved_bits {
                    assert(m0[x0.rows()[q].0].row == m0[x0.rows()[n - 1].0].row);
                }
            }
            assert forall|aa: int| 0 <= aa < self.archetypes@.len() implies #[trigger] self.arch_ok(aa) by {
                assert(old(self).arch_ok(aa));
                let x = self.arch(aa);
                if aa != a {
                    assert forall|q: int| #![trigger x.rows()[q]]
                        0 <= q < x.rows().len() implies self.entity_map@.contains_key(x.rows()[q].0)
                            && self.entity_map@[x.rows()[q].0] == (EntityLocation {
                            archetype_index: aa as usize,
                            row: q as usize,
                        }) by {
                        let xo = old(self).arch(aa);
                        assert(x == xo);
                        assert(xo.rows()[q] == x.rows()[q]);
                        assert(m0.contains_key(xo.rows()[q].0));
                        assert(m0[x.rows()[q].0].archetype_index == aa);
                        assert(m0[entity.0].archetype_index == a);
                        assert(m0[x0.rows()[n - 1].0].archetype_index == a);
                        assert(x.rows()[q].0 != entity.0);
                        assert(x.rows()[q].0 != moved_bits);
                    }
                } else {
                    assert forall|k: u64| #[trigger] x.has_column(k) implies x.signature().contains(k)
                        && self.component_sizes@.contains_key(k) && x.column_size(k)
                        == self.component_sizes@[k] by {
                        assert(x0.has_column(k));
                    }
                    assert forall|q: int| #![trigger x.rows()[q]]
                        0 <= q < x.rows().len() implies self.entity_map@.contains_key(x.rows()[q].0)
                            && self.entity_map@[x.rows()[q].0] == (EntityLocation {
                            archetype_index: aa as usize,
                            row: q as usize,
                        }) by {
                        if q != r {
                            assert(x.rows()[q] == x0.rows()[q]);
                            assert(m0.contains_key(x0.rows()[q].0));
                        }
                    }
                }
            }
            assert forall|b: u64| #[trigger] self.entity_map@.contains_key(b) implies self.entry_ok(b) by {
                assert(m0.contains_key(b));
                assert(old(self).entry_ok(b));
                let l0 = m0[b];
                if last_moved && b == moved_bits {
                } else if l0.archetype_index != a {
                } else {
                    assert(l0.row != r);
                    assert(l0.row != n - 1);
                }
            }
            assert forall|aa: int, bb: int|
                #![trigger self.arch(aa).signature(), self.arch(bb).signature()]
                0 <= aa < self.archetypes@.len() && 0 <= bb < self.archetypes@.len() && aa != bb
                    implies self.arch(aa).signature() != self.arch(bb).signature() by {
                assert(old(self).arch(aa).signature() == self.arch(aa).signature());
                assert(old(self).arch(bb).signature() == self.arch(bb).signature());
            }
            assert(self.wf());
            assert forall|b: u64| #[trigger] self.entity_map@.contains_key(b) implies self.comps_at(
                self.entity_map@[b],
            ) == old(self).comps_at(m0[b]) by {
                let l0 = m0[b];
                if l0.archetype_index != a {
                } else {
                    assert forall|k: u64| x0.signature().contains(k) implies #[trigger] x1.values(k)[self.entity_map@[b].row as int]
                        == x0.values(k)[l0.row as int] by {
                        assert(x0.has_column(k));
                    }
                    assert(self.comps_at(self.entity_map@[b]) =~= old(self).comps_at(m0[b]));
                }
            }
            assert(self.entity_map@.dom() =~= m0.dom().remove(entity.0));
            assert(self.contents() =~= old(self).contents().remove(entity.0));
        }
    }

    /// Put `entity`, which has no location, into the archetype whose
    /// signature is `ids`, storing `data[i].1` as its value of key `data[i].0`.
    fn attach(
        &mut self,
        entity: EntityId,
        ids: ArchetypeId,
        data: Vec<(u64, Vec<u8>)>,
        Ghost(target): Ghost<Map<u64, Seq<u8>>>,
    )
        requires
            old(self).wf(),
            !old(self).entity_map@.contains_key(entity.0),
            sorted_keys(ids@),
            forall|i: int, j: int| 0 <= i < j < data@.len() ==> data@[i].0 != data@[j].0,
            forall|i: int|
                0 <= i < data@.len() ==> #[trigger] ids@.contains(data@[i].0)
                    && old(self).component_sizes@.contains_key(data@[i].0)
                    && old(self).component_sizes@[data@[i].0] == data@[i].1@.len()
                    && target.contains_key(data@[i].0) && target[data@[i].0] == data@[i].1@,
            forall|x: u64| #[trigger] target.contains_key(x) <==> ids@.contains(x),
            forall|x: u64|
                #[trigger] ids@.contains(x) ==> exists|i: int| 0 <= i < data@.len() && data@[i].0 == x,
        ensures
            final(self).wf(),
            final(self).contents() == old(self).contents().insert(entity.0, target),
            final(self).entity_map@.dom() == old(self).entity_map@.dom().insert(entity.0),
            final(self).component_sizes@ == old(self).component_sizes@,
    {
        let ghost m0 = self.entity_map@;
        let ghost s0 = *self;
        let idx = self.get_or_create_archetype(ids);
        let ghost s1 = *self;
        // the number of tables is a `usize`: every table index fits one
        let table_count = self.archetypes.len();
        let ghost pre = self.archetypes@;
        let row = self.archetypes[idx].entity_count();
        let ghost x0 = self.arch(idx as int);
        proof {
            assert(pre.len() == table_count);
            assert(self.arch_ok(idx as int));
            x0.lemma_rows_bounded();
        }
        self.archetypes[idx].push_entity(entity);
        proof {
            let x1 = self.arch(idx as int);
            assert forall|k: u64| #[trigger] x1.has_column(k) implies ids@.contains(k)
                && self.component_sizes@.contains_key(k) && x1.column_size(k)
                == self.component_sizes@[k] by {
                assert(x0.has_column(k));
            }
            assert forall|k: u64, r: int| #![trigger x1.values(k)[r]]
                x0.has_column(k) && 0 <= r < row implies x1.values(k)[r] == x0.values(k)[r] by {
                assert(x1.values(k) == x0.values(k).push(crate::archetype::zeros(x0.column_size(k))));
            }
        }
        let mut i: usize = 0;
        while i < data.len()
            invariant
                self.archetypes@.len() == pre.len(),
                idx < pre.len(),
                forall|q: int| #![trigger self.archetypes@[q]]
                    0 <= q < pre.len() && q != idx ==> self.archetypes@[q] == pre[q],
                self.entity_map@ == m0,
                self.component_sizes@ == old(self).component_sizes@,
                x0 == pre[idx as int],
                row == x0.rows().len(),
                i <= data@.len(),
                forall|i2: int, j: int| 0 <= i2 < j < data@.len() ==> data@[i2].0 != data@[j].0,
                forall|i2: int|
                    0 <= i2 < data@.len() ==> #[trigger] ids@.contains(data@[i2].0)
                        && self.component_sizes@.contains_key(data@[i2].0)
                        && self.component_sizes@[data@[i2].0] == data@[i2].1@.len(),
                x0.rows().len() > 0 ==> forall|k: u64| #[trigger]
                    ids@.contains(k) ==> x0.has_column(k),
                x0.signature() == ids@,
                self.arch(idx as int).wf(),
                self.arch(idx as int).signature() == ids@,
                self.arch(idx as int).rows() == x0.rows().push(entity),
                forall|k: u64| #[trigger]
                    self.arch(idx as int).has_column(k) ==> ids@.contains(k)
                        && self.component_sizes@.contains_key(k) && self.arch(
                        idx as int,
                    ).column_size(k) == self.component_sizes@[k],
                forall|k: u64| #[trigger]
                    x0.has_column(k) ==> self.arch(idx as int).has_column(k),
                forall|k: u64, r: int| #![trigger self.arch(idx as int).values(k)[r]]
                    x0.has_column(k) && 0 <= r < row ==> self.arch(idx as int).values(k)[r]
                        == x0.values(k)[r],
                forall|j: int| #![trigger data@[j]]
                    0 <= j < i ==> self.arch(idx as int).has_column(data@[j].0)
                        && self.arch(idx as int).values(data@[j].0)[row as int] == data@[j].1@,
            decreases data@.len() - i,
        {
            let ghost xb = self.arch(idx as int);
            let k = data[i].0;
            proof {
                assert(ids@.contains(data@[i as int].0));
                if !xb.has_column(k) {
                    if x0.rows().len() > 0 {
                        assert(x0.has_column(k));
                    }
                }
            }
            let bytes = data[i].1.as_slice();
            assert(bytes@ == data@[i as int].1@);
            self.archetypes[idx].write_raw_bytes(k, row, bytes);
            proof {
                let xa = self.arch(idx as int);
                assert(xa.has_column(k));
                assert(xa.values(k)[row as int] == bytes@);
                assert forall|j: int| #![trigger data@[j]] 0 <= j < i + 1 implies xa.has_column(data@[j].0)
                    && xa.values(data@[j].0)[row as int] == data@[j].1@ by {
                    if j == i {
                        assert(data@[j].0 == k);
                        assert(data@[j].1@ == bytes@);
                    } else {
                        assert(data@[j].0 != data@[i as int].0);
                        assert(xb.has_column(data@[j].0) && xb.values(data@[j].0)[row as int]
                            == data@[j].1@);
                        assert(xa.values(data@[j].0) == xb.values(data@[j].0));
                    }
                }
                assert forall|kk: u64| #[trigger] x0.has_column(kk) implies xa.has_column(kk) by {
                    assert(xb.has_column(kk));
                }
                assert forall|kk: u64, r: int| #![trigger xa.values(kk)[r]]
                    x0.has_column(kk) && 0 <= r < row implies xa.values(kk)[r] == x0.values(kk)[r] by {
                    assert(xb.has_column(kk));
                    assert(xb.values(kk)[r] == x0.values(kk)[r]);
                    if kk == k {
                        assert(xa.values(kk)[r] == xb.values(kk)[r]);
                    }
                }
                assert forall|kk: u64| #[trigger] xa.has_column(kk) implies ids@.contains(kk)
                    && self.component_sizes@.contains_key(kk) && xa.column_size(kk)
                    == self.component_sizes@[kk] by {
                    if kk != k {
                        assert(xb.has_column(kk));
                    }
                }
            }
            i = i + 1;
        }
        self.entity_map.insert(entity.0, EntityLocation { archetype_index: idx, row });
        proof {
            let x = self.arch(idx as int);
            let m = self.entity_map@;
            let new_loc = EntityLocation { archetype_index: idx, row };
            assert(m == m0.insert(entity.0, new_loc));
            assert forall|k: u64| #[trigger] ids@.contains(k) implies x.has_column(k)
                && x.values(k)[row as int] == target[k] by {
                assert(target.contains_key(k));
                let j = choose|j: int| 0 <= j < data@.len() && data@[j].0 == k;
                assert(ids@.contains(data@[j].0));
                assert(x.has_column(data@[j].0));
            }
            assert forall|aa: int| 0 <= aa < self.archetypes@.len() implies #[trigger] self.arch_ok(aa) by {
                let xx = self.arch(aa);
                if aa != idx {
                    assert(self.archetypes@[aa] == pre[aa]);
                    assert(s0.archetypes@.len() <= pre.len());
                    if aa < s0.archetypes@.len() {
                        assert(old(self).arch_ok(aa));
                        assert(pre[aa] == old(self).arch(aa));
                    } else {
                        assert(xx.rows().len() == 0);
                    }
                    assert forall|r: int| #![trigger xx.rows()[r]]
                        0 <= r < xx.rows().len() implies m.contains_key(xx.rows()[r].0)
                            && m[xx.rows()[r].0] == (EntityLocation {
                            archetype_index: aa as usize,
                            row: r as usize,
                        }) by {
                        assert(m0.contains_key(xx.rows()[r].0));
                    }
                } else {
                    if idx < s0.archetypes@.len() {
                        assert(old(self).arch_ok(aa));
                        assert(pre[aa] == old(self).arch(aa));
                    }
                    assert forall|r: int| #![trigger x.rows()[r]]
                        0 <= r < x.rows().len() implies m.contains_key(x.rows()[r].0)
                            && m[x.rows()[r].0] == (EntityLocation {
                            archetype_index: aa as usize,
                            row: r as usize,
                        }) by {
                        if r < row {
                            assert(x.rows()[r] == x0.rows()[r]);
                            assert(m0.contains_key(x0.rows()[r].0));
                        }
                    }
                }
            }
            assert forall|b: u64| #[trigger] m.contains_key(b) implies self.entry_ok(b) by {
                if b != entity.0 {
                    assert(old(self).entry_ok(b));
                    let la = m0[b].archetype_index as int;
                    assert(pre[la] == old(self).arch(la));
                    if la == idx {
                        assert(x.rows()[m0[b].row as int] == x0.rows()[m0[b].row as int]);
                    }
                }
            }
            assert forall|aa: int, bb: int|
                #![trigger self.arch(aa).signature(), self.arch(bb).signature()]
                0 <= aa < self.archetypes@.len() && 0 <= bb < self.archetypes@.len() && aa != bb
                    implies self.arch(aa).signature() != self.arch(bb).signature() by {
                assert(pre[aa].signature() == self.arch(aa).signature());
                assert(pre[bb].signature() == self.arch(bb).signature());
                assert(s1.arch(aa).signature() == pre[aa].signature());
                assert(s1.arch(bb).signature() == pre[bb].signature());
            }
            assert(self.arch(0).signature() == pre[0].signature());
            assert(self.wf());
            assert forall|b: u64| #[trigger] m0.contains_key(b) implies self.comps_at(m0[b])
                == old(self).comps_at(m0[b]) by {
                assert(old(self).entry_ok(b));
                let la = m0[b].archetype_index as int;
                assert(pre[la] == old(self).arch(la));
                if la == idx {
                    assert(old(self).arch_ok(la));
                    assert forall|k: u64| x0.signature().contains(k) implies #[trigger] x.values(k)[m0[b].row as int]
                        == x0.values(k)[m0[b].row as int] by {
                        assert(x0.has_column(k));
                    }
                    assert(self.comps_at(m0[b]) =~= old(self).comps_at(m0[b]));
                }
            }
            assert(self.comps_at(new_loc) =~= target);
            assert(self.entity_map@.dom() =~= m0.dom().insert(entity.0));
            assert(self.contents() =~= old(self).contents().insert(entity.0, target));
        }
    }
}

/// Id `x` is matched, at its slot index, by a live id or a freed id of at
/// least its generation.
pub open spec fn covered_by(x: EntityId, live: Set<u64>, free: Seq<EntityId>) -> bool {
    ||| exists|b: u64|
        #[trigger] live.contains(b) && EntityId(b).spec_index() == x.spec_index()
            && x.spec_generation() <= EntityId(b).spec_generation()
    ||| exists|j: int|
        0 <= j < free.len() && #[trigger] free[j].spec_index() == x.spec_index()
            && x.spec_generation() <= free[j].spec_generation()
}

/// Every id in `issued` has a slot index below `next` and either its slot
/// has wrapped its generation, or a live or freed id of at least its
/// generation holds that slot.
pub open spec fn history_holds(
    issued: Set<EntityId>,
    wrapped: Set<u32>,
    live: Set<u64>,
    free: Seq<EntityId>,
    next: u64,
) -> bool {
    forall|x: EntityId| #[trigger]
        issued.contains(x) ==> x.spec_index() < next && (wrapped.contains(x.spec_index())
            || covered_by(x, live, free))
}

proof fn lemma_history_despawn(
    issued: Set<EntityId>,
    wrapped: Set<u32>,
    live: Set<u64>,
    free: Seq<EntityId>,
    next: u64,
    e: EntityId,
)
    requires
        history_holds(issued, wrapped, live, free, next),
        live.contains(e.0),
    ensures
        history_holds(issued, wrapped, live.remove(e.0), free.push(e), next),
{
    let free2 = free.push(e);
    let live2 = live.remove(e.0);
    assert forall|x: EntityId| #[trigger] issued.contains(x) && !wrapped.contains(x.spec_index())
        implies covered_by(x, live2, free2) by {
        if exists|j: int|
            0 <= j < free.len() && #[trigger] free[j].spec_index() == x.spec_index()
                && x.spec_generation() <= free[j].spec_generation() {
            let j = choose|j: int|
                0 <= j < free.len() && #[trigger] free[j].spec_index() == x.spec_index()
                    && x.spec_generation() <= free[j].spec_generation();
            assert(free2[j] == free[j]);
        } else {
            let b = choose|b: u64|
                #[trigger] live.contains(b) && EntityId(b).spec_index() == x.spec_index()
                    && x.spec_generation() <= EntityId(b).spec_generation();
            if b == e.0 {
                assert(free2[free.len() as int] == e);
                assert(EntityId(b) == e);
            } else {
                assert(live2.contains(b));
            }
        }
    }
}

proof fn lemma_history_spawn_fresh(
    issued: Set<EntityId>,
    wrapped: Set<u32>,
    live: Set<u64>,
    free: Seq<EntityId>,
    next: u64,
    r: EntityId,
)
    requires
        history_holds(issued, wrapped, live, free, next),
        next < half(),
        r.spec_index() == next,
    ensures
        !issued.contains(r),
        history_holds(issued.insert(r), wrapped, live.insert(r.0), free, (next + 1) as u64),
{
    let live2 = live.insert(r.0);
    assert forall|x: EntityId| #[trigger] issued.insert(r).contains(x) && !wrapped.contains(x.spec_index())
        implies covered_by(x, live2, free) by {
        if x == r {
            assert(live2.contains(r.0));
            assert(EntityId(r.0) == r);
        } else if exists|j: int|
            0 <= j < free.len() && #[trigger] free[j].spec_index() == x.spec_index()
                && x.spec_generation() <= free[j].spec_generation() {
        } else {
            let b = choose|b: u64|
                #[trigger] live.contains(b) && EntityId(b).spec_index() == x.spec_index()
                    && x.spec_generation() <= EntityId(b).spec_generation();
            assert(live2.contains(b));
        }
    }
}

proof fn lemma_history_spawn_recycle(
    issued: Set<EntityId>,
    wrapped: Set<u32>,
    live: Set<u64>,
    free: Seq<EntityId>,
    next: u64,
    r: EntityId,
)
    requires
        history_holds(issued, wrapped, live, free, next),
        free.len() > 0,
        r.spec_index() == free.last().spec_index(),
        r.spec_generation() == crate::entity::next_generation(free.last().spec_generation()),
        free.last().spec_index() < next,
        forall|b: u64| #[trigger] live.contains(b) ==> EntityId(b).spec_index() != free.last().spec_index(),
        forall|j: int| 0 <= j < free.len() - 1 ==> (#[trigger] free[j]).spec_index() != free.last().spec_index(),
    ensures
        !wrapped.contains(r.spec_index()) && free.last().spec_generation() < u32::MAX ==> !issued.contains(r),
        history_holds(
            issued.insert(r),
            if free.last().spec_generation() == u32::MAX {
                wrapped.insert(r.spec_index())
            } else {
                wrapped
            },
            live.insert(r.0),
            free.drop_last(),
            next,
        ),
{
    let f = free.last();
    let k = free.len() - 1;
    let live2 = live.insert(r.0);
    let free2 = free.drop_last();
    let wrapped2 = if f.spec_generation() == u32::MAX {
        wrapped.insert(r.spec_index())
    } else {
        wrapped
    };
    assert(free[k] == f);
    if !wrapped.contains(r.spec_index()) && f.spec_generation() < u32::MAX && issued.contains(r) {
        assert(covered_by(r, live, free));
        if exists|j: int|
            0 <= j < free.len() && #[trigger] free[j].spec_index() == r.spec_index()
                && r.spec_generation() <= free[j].spec_generation() {
            let j = choose|j: int|
                0 <= j < free.len() && #[trigger] free[j].spec_index() == r.spec_index()
                    && r.spec_generation() <= free[j].spec_generation();
            if j < k {
                assert(free[j].spec_index() != f.spec_index());
            }
        } else {
            let b = choose|b: u64|
                #[trigger] live.contains(b) && EntityId(b).spec_index() == r.spec_index()
                    && r.spec_generation() <= EntityId(b).spec_generation();
        }
    }
    assert forall|x: EntityId| #[trigger] issued.insert(r).contains(x) && !wrapped2.contains(x.spec_index())
        implies covered_by(x, live2, free2) by {
        assert(live2.contains(r.0));
        assert(EntityId(r.0) == r);
        if x == r {
        } else if exists|b: u64|
            #[trigger] live.contains(b) && EntityId(b).spec_index() == x.spec_index()
                && x.spec_generation() <= EntityId(b).spec_generation() {
            let b = choose|b: u64|
                #[trigger] live.contains(b) && EntityId(b).spec_index() == x.spec_index()
                    && x.spec_generation() <= EntityId(b).spec_generation();
            assert(live2.contains(b));
        } else {
            let j = choose|j: int|
                0 <= j < free.len() && #[trigger] free[j].spec_index() == x.spec_index()
                    && x.spec_generation() <= free[j].spec_generation();
            if j < k {
                assert(free2[j] == free[j]);
            } else {
                assert(x.spec_index() == r.spec_index());
                assert(f.spec_generation() < u32::MAX);
            }
        }
    }
}

/// The central world: entities, their components, and the allocator of ids.
pub struct World {
    allocator: EntityAllocator,
    inner: WorldInner,
    /// Every id that `spawn` has returned.
    issued: Ghost<Set<EntityId>>,
    /// The slot indices whose generation has wrapped around.
    wrapped: Ghost<Set<u32>>,
}

impl View for World {
    /// Each live entity (by id bits) with its components (by key).
    type V = Map<u64, Map<u64, Seq<u8>>>;

    closed spec fn view(&self) -> Map<u64, Map<u64, Seq<u8>>> {
        self.inner.contents()
    }
}

impl World {
    /// The slot ids handed out and freed: what decides the next spawned id.
    spec fn alloc_ok(&self) -> bool {
        let next = self.allocator.next_fresh();
        let free = self.allocator.free_list();
        let m = self.inner.entity_map@;
        &&& next <= half()
        &&& forall|b: u64| #[trigger] m.contains_key(b) ==> EntityId(b).spec_index() < next
        &&& forall|b1: u64, b2: u64|
            #![trigger m.contains_key(b1), m.contains_key(b2)]
            m.contains_key(b1) && m.contains_key(b2) && EntityId(b1).spec_index() == EntityId(
                b2,
            ).spec_index() ==> b1 == b2
        &&& forall|i: int| 0 <= i < free.len() ==> (#[trigger] free[i]).spec_index() < next
        &&& forall|i: int, b: u64|
            #![trigger free[i], m.contains_key(b)]
            0 <= i < free.len() && m.contains_key(b) ==> free[i].spec_index() != EntityId(
                b,
            ).spec_index()
        &&& forall|i: int, j: int|
            #![trigger free[i], free[j]]
            0 <= i < j < free.len() ==> free[i].spec_index() != free[j].spec_index()
    }

    pub closed spec fn wf(&self) -> bool {
        &&& self.inner.wf()
        &&& self.alloc_ok()
        &&& history_holds(
            self.issued@,
            self.wrapped@,
            self.inner.entity_map@.dom(),
            self.allocator.free_list(),
            self.allocator.next_fresh(),
        )
    }

    /// Every id that `spawn` has returned so far.
    pub closed spec fn issued(&self) -> Set<EntityId> {
        self.issued@
    }

    /// The slot indices whose generation has wrapped around from `u32::MAX`
    /// to 0 when they were handed out again.
    pub closed spec fn wrapped_slots(&self) -> Set<u32> {
        self.wrapped@
    }

    /// The next `spawn` reuses a slot whose generation is `u32::MAX`, so the
    /// generation it hands out wraps around to 0.
    pub open spec fn recycles_wrapping(&self) -> bool {
        &&& self.allocator_state().free_list().len() > 0
        &&& self.allocator_state().free_list().last().spec_generation() == u32::MAX
    }

    /// The state of the id allocator: the slots freed so far, in the order
    /// they were freed, and the number of fresh slot indices handed out.
    pub closed spec fn allocator_state(&self) -> EntityAllocator {
        self.allocator
    }

    /// The id that the next `spawn` returns.
    pub open spec fn next_spawn(&self) -> EntityId {
        self.allocator_state().next_allocation()
    }

    /// There is a slot left for another entity: a freed one, or a fresh
    /// index below `2^32`.
    pub open spec fn spawn_possible(&self) -> bool {
        self.allocator_state().free_list().len() > 0 || self.allocator_state().next_fresh() < half()
    }

    /// Byte size of the values of each component key inserted so far.
    pub closed spec fn component_sizes(&self) -> Map<u64, usize> {
        self.inner.component_sizes@
    }

    /// `entity` is alive.
    pub open spec fn alive(&self, entity: EntityId) -> bool {
        self@.contains_key(entity.0)
    }

    /// The live entities that have component `k`, in storage order: table
    /// by table in the order the tables were created, row by row within a
    /// table.
    pub closed spec fn storage_order(&self, k: u64) -> Seq<EntityId> {
        rows_with_column(self.inner.archetypes@, k, self.inner.archetypes@.len() as int)
    }

    /// A value of `len` bytes may be stored under key `k`.
    pub open spec fn size_fits(&self, k: u64, len: nat) -> bool {
        self.component_sizes().contains_key(k) ==> self.component_sizes()[k] == len
    }

    /// Create an empty world.
    pub fn new() -> (r: Self)
        ensures
            r.wf(),
            r@ == Map::<u64, Map<u64, Seq<u8>>>::empty(),
            r.component_sizes() == Map::<u64, usize>::empty(),
            r.next_spawn() == EntityId(0),
            r.spawn_possible(),
            r.allocator_state().next_fresh() == 0,
            r.allocator_state().free_list() == Seq::<EntityId>::empty(),
            r.issued() == Set::<EntityId>::empty(),
            r.wrapped_slots() == Set::<u32>::empty(),
    {
        let r = World {
            allocator: EntityAllocator::new(),
            inner: WorldInner::new(),
            issued: Ghost(Set::empty()),
            wrapped: Ghost(Set::empty()),
        };
        proof {
            assert(r@ =~= Map::<u64, Map<u64, Seq<u8>>>::empty());
        }
        r
    }

    /// Returns `true` if `entity` is alive.
    pub fn is_alive(&self, entity: Entity) -> (r: bool)
        requires
            self.wf(),
        ensures
            r == self.alive(entity),
    {
        self.inner.entity_map.contains_key(&entity.0)
    }

    /// Number of live entities.
    pub fn entity_count(&self) -> (r: usize)
        requires
            self.wf(),
        ensures
            r == self@.len(),
    {
        proof {
            assert(self@.dom() =~= self.inner.entity_map@.dom());
        }
        self.inner.entity_map.len()
    }

    /// Whether another entity can be spawned: a freed slot exists, or fewer
    /// than `2^32` slots were ever handed out.
    pub fn can_spawn(&self) -> (r: bool)
        ensures
            r == self.spawn_possible(),
    {
        self.allocator.free_count() > 0 || self.allocator.fresh_count() < 0x1_0000_0000
    }

    /// Byte size of the values of key `k`, once a value of `k` was inserted.
    pub fn component_size(&self, k: u64) -> (r: Option<usize>)
        ensures
            r == (if self.component_sizes().contains_key(k) {
                Some(self.component_sizes()[k])
            } else {
                None
            }),
    {
        match self.inner.component_sizes.get(&k) {
            Some(s) => Some(*s),
            None => None,
        }
    }

    /// Spawn a new entity with no components.
    ///
    /// The entity is alive at once and counted by `entity_count`.
    pub fn spawn(&mut self) -> (r: Entity)
        requires
            old(self).wf(),
            old(self).spawn_possible(),
        ensures
            final(self).wf(),
            r == old(self).next_spawn(),
            !old(self).alive(r),
            final(self)@ == old(self)@.insert(r.0, Map::<u64, Seq<u8>>::empty()),
            final(self)@ == apply_change(old(self)@, (ChangeKind::Spawn, r, 0, Seq::empty())),
            old(self).allocator_state().free_list().len() == 0 ==> r.spec_generation() == 0 && r.0
                == old(self).allocator_state().next_fresh(),
            old(self).allocator_state().free_list().len() > 0 ==> r.spec_index() == old(
                self,
            ).allocator_state().free_list().last().spec_index(),
            final(self).issued() == old(self).issued().insert(r),
            !old(self).wrapped_slots().contains(r.spec_index()) && !old(self).recycles_wrapping()
                ==> !old(self).issued().contains(r),
            final(self).wrapped_slots() == (if old(self).recycles_wrapping() {
                old(self).wrapped_slots().insert(r.spec_index())
            } else {
                old(self).wrapped_slots()
            }),
            final(self).component_sizes() == old(self).component_sizes(),
            old(self).allocator_state().free_list().len() > 0 ==> {
                &&& final(self).allocator_state().free_list() == old(
                    self,
                ).allocator_state().free_list().drop_last()
                &&& final(self).allocator_state().next_fresh() == old(self).allocator_state().next_fresh()
            },
            old(self).allocator_state().free_list().len() == 0 ==> {
                &&& final(self).allocator_state().free_list() == old(self).allocator_state().free_list()
                &&& final(self).allocator_state().next_fresh() == old(self).allocator_state().next_fresh()
                    + 1
            },
    {
        let ghost m0 = self.inner.entity_map@;
        let ghost f0 = self.allocator.free_list();
        let ghost n0 = self.allocator.next_fresh();
        let entity = self.allocator.allocate();
        proof {
            if f0.len() > 0 {
                let fl = f0.last();
                assert(f0[f0.len() - 1] == fl);
                assert(entity.spec_index() == fl.spec_index());
                assert forall|b: u64| #[trigger] m0.contains_key(b) implies b != entity.0 by {
                    assert(EntityId(b).spec_index() != f0[f0.len() - 1].spec_index());
                }
            } else {
                assert(entity.spec_index() == n0);
                assert forall|b: u64| #[trigger] m0.contains_key(b) implies b != entity.0 by {
                    assert(EntityId(b).spec_index() < n0);
                }
            }
            assert(!m0.contains_key(entity.0));
        }
        let row = self.inner.archetypes[EMPTY_ARCHETYPE].entity_count();
        self.inner.entity_map.insert(entity.0, EntityLocation { archetype_index: EMPTY_ARCHETYPE, row });
        proof {
            assert(old(self).inner.arch_ok(0));
        }
        self.inner.archetypes[EMPTY_ARCHETYPE].push_entity(entity);
        proof {
            let inner = self.inner;
            let new_loc = EntityLocation { archetype_index: EMPTY_ARCHETYPE, row };
            assert(inner.entity_map@ == m0.insert(entity.0, new_loc));
            assert forall|a: int| 0 <= a < inner.archetypes@.len() implies #[trigger] inner.arch_ok(a) by {
                assert(old(self).inner.arch_ok(a));
                if a != 0 {
                    assert(inner.arch(a) == old(self).inner.arch(a));
                    let x = inner.arch(a);
                    assert forall|r: int| #![trigger x.rows()[r]]
                        0 <= r < x.rows().len() implies inner.entity_map@.contains_key(x.rows()[r].0)
                            && inner.entity_map@[x.rows()[r].0] == (EntityLocation {
                            archetype_index: a as usize,
                            row: r as usize,
                        }) by {
                        assert(m0.contains_key(x.rows()[r].0));
                    }
                } else {
                    let x = inner.arch(0);
                    let x0 = old(self).inner.arch(0);
                    assert forall|k: u64| #[trigger] x.has_column(k) implies x.signature().contains(k)
                        && inner.component_sizes@.contains_key(k) && x.column_size(k)
                        == inner.component_sizes@[k] by {
                        assert(x0.has_column(k));
                    }
                    assert forall|r: int| #![trigger x.rows()[r]]
                        0 <= r < x.rows().len() implies inner.entity_map@.contains_key(x.rows()[r].0)
                            && inner.entity_map@[x.rows()[r].0] == (EntityLocation {
                            archetype_index: a as usize,
                            row: r as usize,
                        }) by {
                        if r < x0.rows().len() {
                            assert(x.rows()[r] == x0.rows()[r]);
                            assert(m0.contains_key(x0.rows()[r].0));
                        }
                    }
                }
            }
            assert forall|b: u64| #[trigger] inner.entity_map@.contains_key(b) implies inner.entry_ok(b) by {
                if b != entity.0 {
                    assert(old(self).inner.entry_ok(b));
                    let la = inner.entity_map@[b].archetype_index as int;
                    if la != 0 {
                        assert(inner.arch(la) == old(self).inner.arch(la));
                    }
                }
            }
            assert forall|a: int, b: int|
                #![trigger inner.arch(a).signature(), inner.arch(b).signature()]
                0 <= a < inner.archetypes@.len() && 0 <= b < inner.archetypes@.len() && a != b
                    implies inner.arch(a).signature() != inner.arch(b).signature() by {
                assert(old(self).inner.arch(a).signature() == inner.arch(a).signature());
                assert(old(self).inner.arch(b).signature() == inner.arch(b).signature());
            }
            assert(inner.wf());
            assert forall|b: u64| #[trigger] m0.contains_key(b) implies inner.comps_at(m0[b])
                == old(self).inner.comps_at(m0[b]) by {
                let la = m0[b].archetype_index as int;
                if la != 0 {
                    assert(inner.arch(la) == old(self).inner.arch(la));
                } else {
                    assert(inner.comps_at(m0[b]) =~= old(self).inner.comps_at(m0[b]));
                }
            }
            assert(inner.comps_at(new_loc) =~= Map::<u64, Seq<u8>>::empty());
            assert(self@ =~= old(self)@.insert(entity.0, Map::<u64, Seq<u8>>::empty()));
            let next = self.allocator.next_fresh();
            let free = self.allocator.free_list();
            let m = inner.entity_map@;
            assert forall|b1: u64, b2: u64|
                #![trigger m.contains_key(b1), m.contains_key(b2)]
                m.contains_key(b1) && m.contains_key(b2) && EntityId(b1).spec_index() == EntityId(
                    b2,
                ).spec_index() implies b1 == b2 by {
                if b1 != entity.0 && b2 != entity.0 {
                    assert(m0.contains_key(b1) && m0.contains_key(b2));
                } else if b1 == entity.0 && b2 != entity.0 {
                    assert(m0.contains_key(b2));
                    if f0.len() > 0 {
                        assert(EntityId(b2).spec_index() != f0[f0.len() - 1].spec_index());
                    }
                } else if b2 == entity.0 && b1 != entity.0 {
                    assert(m0.contains_key(b1));
                    if f0.len() > 0 {
                        assert(EntityId(b1).spec_index() != f0[f0.len() - 1].spec_index());
                    }
                }
            }
            assert forall|i: int, b: u64|
                #![trigger free[i], m.contains_key(b)]
                0 <= i < free.len() && m.contains_key(b) implies free[i].spec_index() != EntityId(
                    b,
                ).spec_index() by {
                if f0.len() > 0 {
                    assert(free[i] == f0[i]);
                    if b == entity.0 {
                        assert(f0[i].spec_index() != f0[f0.len() - 1].spec_index());
                    } else {
                        assert(m0.contains_key(b));
                    }
                } else {
                    assert(free[i] == f0[i]);
                    assert(f0[i].spec_index() < n0);
                }
            }
            assert forall|i: int| 0 <= i < free.len() implies (#[trigger] free[i]).spec_index() < next by {
                assert(free[i] == f0[i]);
            }
            assert forall|i: int, j: int|
                #![trigger free[i], free[j]]
                0 <= i < j < free.len() implies free[i].spec_index() != free[j].spec_index() by {
                assert(free[i] == f0[i]);
                assert(free[j] == f0[j]);
            }
            assert forall|b: u64| #[trigger] m.contains_key(b) implies EntityId(b).spec_index() < next by {
                if b != entity.0 {
                    assert(m0.contains_key(b));
                } else if f0.len() > 0 {
                    assert(f0[f0.len() - 1].spec_index() < n0);
                }
            }
        }
        // record the id as handed out
        proof {
            assert(old(self).wf());
            crate::entity::law_allocation_ids(old(self).allocator);
            if f0.len() > 0 {
                let f = f0.last();
                crate::entity::lemma_unpack_pack(f.spec_index(), crate::entity::next_generation(f.spec_generation()));
                assert(f0[f0.len() - 1] == f);
                assert forall|b: u64| #[trigger] m0.dom().contains(b) implies EntityId(b).spec_index()
                    != f.spec_index() by {
                    assert(m0.contains_key(b));
                    assert(f0[f0.len() - 1].spec_index() != EntityId(b).spec_index());
                }
                assert forall|j: int| 0 <= j < f0.len() - 1 implies (#[trigger] f0[j]).spec_index()
                    != f.spec_index() by {
                    assert(f0[j].spec_index() != f0[f0.len() - 1].spec_index());
                }
                lemma_history_spawn_recycle(
                    old(self).issued@,
                    old(self).wrapped@,
                    m0.dom(),
                    f0,
                    n0,
                    entity,
                );
            } else {
                crate::entity::lemma_unpack_pack((n0 as int % half()) as u32, 0);
                lemma_history_spawn_fresh(old(self).issued@, old(self).wrapped@, m0.dom(), f0, n0, entity);
            }
            assert(self.inner.entity_map@.dom() =~= m0.dom().insert(entity.0));
        }
        self.issued = Ghost(self.issued@.insert(entity));
        self.wrapped = Ghost(
            if f0.len() > 0 && f0.last().spec_generation() == u32::MAX {
                self.wrapped@.insert(entity.spec_index())
            } else {
                self.wrapped@
            },
        );
        entity
    }

    /// Despawn `entity`, removing it and all its components.
    ///
    /// Its slot goes back to the allocator: the next spawn hands out the same
    /// index with the next generation.  No-op if `entity` is not alive.
    pub fn despawn(&mut self, entity: Entity)
        requires
            old(self).wf(),
        ensures
            final(self).wf(),
            final(self)@ == old(self)@.remove(entity.0),
            final(self)@ == apply_change(old(self)@, (ChangeKind::Despawn, entity, 0, Seq::empty())),
            final(self).issued() == old(self).issued(),
            final(self).wrapped_slots() == old(self).wrapped_slots(),
            final(self).component_sizes() == old(self).component_sizes(),
            old(self).alive(entity) ==> final(self).next_spawn() == crate::entity::pack(
                entity.spec_index(),
                crate::entity::next_generation(entity.spec_generation()),
            ),
            old(self).alive(entity) ==> final(self).spawn_possible(),
            !old(self).alive(entity) ==> final(self).next_spawn() == old(self).next_spawn()
                && final(self).spawn_possible() == old(self).spawn_possible(),
            old(self).alive(entity) ==> final(self).allocator_state().free_list() == old(
                self,
            ).allocator_state().free_list().push(entity) && final(self).allocator_state().next_fresh()
                == old(self).allocator_state().next_fresh(),
            !old(self).alive(entity) ==> final(self).allocator_state() == old(self).allocator_state(),
    {
        let loc = match self.inner.entity_map.get(&entity.0) {
            Some(l) => *l,
            None => {
                proof {
                    assert(old(self)@ =~= old(self)@.remove(entity.0));
                }
                return ;
            },
        };
        let ghost m0 = self.inner.entity_map@;
        let ghost f0 = self.allocator.free_list();
        self.inner.detach(entity, loc);
        self.allocator.free(entity);
        proof {
            assert(self.inner.entity_map@.dom() =~= m0.dom().remove(entity.0));
            lemma_history_despawn(self.issued@, self.wrapped@, m0.dom(), f0, self.allocator.next_fresh(), entity);
        }
        proof {
            let next = self.allocator.next_fresh();
            let free = self.allocator.free_list();
            let m = self.inner.entity_map@;
            assert(free == f0.push(entity));
            assert(free.last() == entity);
            assert forall|b: u64| #[trigger] m.contains_key(b) implies EntityId(b).spec_index() < next by {
                assert(m0.contains_key(b));
            }
            assert forall|b1: u64, b2: u64|
                #![trigger m.contains_key(b1), m.contains_key(b2)]
                m.contains_key(b1) && m.contains_key(b2) && EntityId(b1).spec_index() == EntityId(
                    b2,
                ).spec_index() implies b1 == b2 by {
                assert(m0.contains_key(b1) && m0.contains_key(b2));
            }
            assert forall|i: int| 0 <= i < free.len() implies (#[trigger] free[i]).spec_index() < next by {
                if i < f0.len() {
                    assert(free[i] == f0[i]);
                } else {
                    assert(m0.contains_key(entity.0));
                    assert(EntityId(entity.0) == entity);
                }
            }
            assert forall|i: int, b: u64|
                #![trigger free[i], m.contains_key(b)]
                0 <= i < free.len() && m.contains_key(b) implies free[i].spec_index() != EntityId(
                    b,
                ).spec_index() by {
                assert(m0.contains_key(b));
                if i < f0.len() {
                    assert(free[i] == f0[i]);
                } else {
                    assert(m0.contains_key(entity.0));
                    assert(EntityId(entity.0) == entity);
                    assert(b != entity.0);
                }
            }
            assert forall|i: int, j: int|
                #![trigger free[i], free[j]]
                0 <= i < j < free.len() implies free[i].spec_index() != free[j].spec_index() by {
                assert(free[i] == f0[i]);
                if j < f0.len() {
                    assert(free[j] == f0[j]);
                } else {
                    assert(m0.contains_key(entity.0));
                    assert(EntityId(entity.0) == entity);
                }
            }
        }
    }

    /// Add component `k`, with value `component`, to `entity`, replacing the
    /// value it had.  The entity moves to the archetype that includes `k`.
    ///
    /// The entity must be alive, and the value must have the size of the
    /// values already stored under `k`.
    pub fn insert(&mut self, entity: Entity, k: u64, component: Vec<u8>)
        requires
            old(self).wf(),
            old(self).alive(entity),
            old(self).size_fits(k, component@.len()),
        ensures
            final(self).wf(),
            final(self)@ == old(self)@.insert(entity.0, old(self)@[entity.0].insert(k, component@)),
            final(self)@ == apply_change(old(self)@, (ChangeKind::Insert, entity, k, component@)),
            final(self).issued() == old(self).issued(),
            final(self).wrapped_slots() == old(self).wrapped_slots(),
            final(self).component_sizes() == old(self).component_sizes().insert(
                k,
                component@.len() as usize,
            ),
            final(self).next_spawn() == old(self).next_spawn(),
            final(self).spawn_possible() == old(self).spawn_possible(),
            final(self).allocator_state() == old(self).allocator_state(),
    {
        let loc = match self.inner.entity_map.get(&entity.0) {
            Some(l) => *l,
            None => {
                proof {
                    assert(false);
                }
                return ;
            },
        };
        let ghost old_comps = old(self)@[entity.0];
        let ghost target = old_comps.insert(k, component@);
        let a = loc.archetype_index;
        let row = loc.row;
        proof {
            assert(self.inner.entry_ok(entity.0));
            assert(self.inner.arch_ok(a as int));
        }
        let ghost x0 = self.inner.arch(a as int);
        if !self.inner.component_sizes.contains_key(&k) {
            self.inner.component_sizes.insert(k, component.len());
            proof {
                assert forall|aa: int| 0 <= aa < self.inner.archetypes@.len() implies #[trigger] self.inner.arch_ok(aa) by {
                    assert(old(self).inner.arch_ok(aa));
                    let x = self.inner.arch(aa);
                    assert forall|kk: u64| #[trigger] x.has_column(kk) implies x.signature().contains(kk)
                        && self.inner.component_sizes@.contains_key(kk) && x.column_size(kk)
                        == self.inner.component_sizes@[kk] by {
                        assert(kk != k);
                    }
                }
                assert forall|b: u64| #[trigger] self.inner.entity_map@.contains_key(b) implies self.inner.entry_ok(b) by {
                    assert(old(self).inner.entry_ok(b));
                }
                assert forall|aa: int, bb: int|
                    #![trigger self.inner.arch(aa).signature(), self.inner.arch(bb).signature()]
                    0 <= aa < self.inner.archetypes@.len() && 0 <= bb < self.inner.archetypes@.len() && aa != bb
                        implies self.inner.arch(aa).signature() != self.inner.arch(bb).signature() by {
                    assert(old(self).inner.arch(aa).signature() == self.inner.arch(aa).signature());
                    assert(old(self).inner.arch(bb).signature() == self.inner.arch(bb).signature());
                }
                assert(self.inner.arch(0).signature() == old(self).inner.arch(0).signature());
                assert(self.inner.wf());
                assert(self.inner.contents() =~= old(self).inner.contents());
            }
        }
        assert(self.inner.component_sizes@.contains_key(k) && self.inner.component_sizes@[k]
            == component@.len());
        assert(self.inner.component_sizes@ == old(self).inner.component_sizes@.insert(
            k,
            component@.len() as usize,
        ));
        let ghost s1 = self.inner;
        let cur = keys_copy(self.inner.archetypes[a].id());
        proof {
            x0.lemma_rows_bounded();
        }
        if keys_contain(&cur, k) {
            proof {
                assert(x0.has_column(k));
                assert(self.inner.arch(a as int).wf());
            }
            self.inner.archetypes[a].write_raw_bytes(k, row, component.as_slice());
            proof {
                let x = self.inner.arch(a as int);
                assert forall|aa: int| 0 <= aa < self.inner.archetypes@.len() implies #[trigger] self.inner.arch_ok(aa) by {
                    assert(s1.arch_ok(aa));
                    if aa == a {
                        assert forall|kk: u64| #[trigger] x.has_column(kk) implies x.signature().contains(kk)
                            && self.inner.component_sizes@.contains_key(kk) && x.column_size(kk)
                            == self.inner.component_sizes@[kk] by {
                            assert(x0.has_column(kk));
                        }
                        assert forall|kk: u64| #[trigger] x.signature().contains(kk) implies x.has_column(kk) by {
                            assert(x0.has_column(kk));
                        }
                        assert forall|r: int| #![trigger x.rows()[r]]
                            0 <= r < x.rows().len() implies self.inner.entity_map@.contains_key(x.rows()[r].0)
                                && self.inner.entity_map@[x.rows()[r].0] == (EntityLocation {
                                archetype_index: aa as usize,
                                row: r as usize,
                            }) by {
                            assert(x.rows()[r] == x0.rows()[r]);
                        }
                    } else {
                        assert(self.inner.arch(aa) == s1.arch(aa));
                    }
                }
                assert forall|b: u64| #[trigger] self.inner.entity_map@.contains_key(b) implies self.inner.entry_ok(b) by {
                    assert(s1.entry_ok(b));
                }
                assert forall|aa: int, bb: int|
                    #![trigger self.inner.arch(aa).signature(), self.inner.arch(bb).signature()]
                    0 <= aa < self.inner.archetypes@.len() && 0 <= bb < self.inner.archetypes@.len() && aa != bb
                        implies self.inner.arch(aa).signature() != self.inner.arch(bb).signature() by {
                    assert(s1.arch(aa).signature() == self.inner.arch(aa).signature());
                    assert(s1.arch(bb).signature() == self.inner.arch(bb).signature());
                }
                assert(self.inner.arch(0).signature() == s1.arch(0).signature());
                assert(self.inner.wf());
                assert forall|b: u64| #[trigger] self.inner.entity_map@.contains_key(b) implies self.inner.comps_at(
                    self.inner.entity_map@[b],
                ) == (if b == entity.0 {
                    target
                } else {
                    s1.comps_at(self.inner.entity_map@[b])
                }) by {
                    let l = self.inner.entity_map@[b];
                    assert(s1.entry_ok(b));
                    if l.archetype_index == a {
                        if b == entity.0 {
                            assert(self.inner.comps_at(l) =~= target);
                        } else {
                            assert(l.row != row);
                            assert forall|kk: u64| x0.signature().contains(kk) implies #[trigger] x.values(kk)[l.row as int]
                                == x0.values(kk)[l.row as int] by {
                                assert(x0.has_column(kk));
                            }
                            assert(self.inner.comps_at(l) =~= s1.comps_at(l));
                        }
                    } else {
                        assert(self.inner.arch(l.archetype_index as int) == s1.arch(l.archetype_index as int));
                    }
                }
                assert(self@ =~= old(self)@.insert(entity.0, target));
                assert(self.inner.component_sizes@ =~= old(self).inner.component_sizes@.insert(
                    k,
                    component@.len() as usize,
                ));
            }
            return ;
        }
        let mut data: Vec<(u64, Vec<u8>)> = Vec::new();
        let mut j: usize = 0;
        while j < cur.len()
            invariant
                self.inner == s1,
                s1.wf(),
                s1.arch(a as int) == x0,
                x0.wf(),
                row < x0.rows().len(),
                a < s1.archetypes@.len(),
                cur@ == x0.signature(),
                j <= cur@.len(),
                data@.len() == j,
                forall|i: int| #![trigger data@[i]]
                    0 <= i < j ==> data@[i].0 == cur@[i] && data@[i].1@ == x0.values(cur@[i])[row as int],
                forall|kk: u64| #[trigger] x0.signature().contains(kk) ==> x0.has_column(kk),
            decreases cur@.len() - j,
        {
            let tid = cur[j];
            proof {
                assert(x0.signature().contains(tid));
            }
            match self.inner.archetypes[a].read_component(row, tid) {
                Some(bytes) => data.push((tid, bytes)),
                None => {},
            }
            j = j + 1;
        }
        let ghost n_cur = data@.len();
        data.push((k, component));
        let new_ids = keys_with(&cur, k);
        proof {
            assert forall|i: int, i2: int| 0 <= i < i2 < data@.len() implies data@[i].0 != data@[i2].0 by {
                if i2 < n_cur {
                } else {
                    assert(cur@.contains(cur@[i]));
                }
            }
            assert forall|i: int|
                0 <= i < data@.len() implies #[trigger] new_ids@.contains(data@[i].0)
                    && s1.component_sizes@.contains_key(data@[i].0)
                    && s1.component_sizes@[data@[i].0] == data@[i].1@.len()
                    && target.contains_key(data@[i].0) && target[data@[i].0] == data@[i].1@ by {
                assert(s1.arch_ok(a as int));
                if i < n_cur {
                    let key = cur@[i];
                    assert(cur@.contains(key));
                    assert(x0.has_column(key));
                    x0.lemma_value_len(key, row as int);
                    assert(key != k);
                    assert(old_comps.contains_key(key));
                } else {
                    assert(data@[i].0 == k);
                }
            }
            assert forall|x: u64| #[trigger] target.contains_key(x) <==> new_ids@.contains(x) by {}
            assert forall|x: u64| #[trigger] new_ids@.contains(x) implies exists|i: int|
                0 <= i < data@.len() && data@[i].0 == x by {
                if x == k {
                    assert(data@[n_cur as int].0 == x);
                } else {
                    let i = choose|i: int| 0 <= i < cur@.len() && cur@[i] == x;
                    assert(data@[i].0 == x);
                }
            }
        }
        self.inner.detach(entity, loc);
        self.inner.attach(entity, new_ids, data, Ghost(target));
        proof {
            assert(self.inner.entity_map@.dom() =~= old(self).inner.entity_map@.dom());
            assert(self@ =~= old(self)@.insert(entity.0, target));
            assert(self.inner.component_sizes@ =~= old(self).inner.component_sizes@.insert(
                k,
                component@.len() as usize,
            ));
            assert(self.alloc_ok());
        }
    }

    /// Remove component `k` from `entity`; the entity moves to the archetype
    /// that excludes `k`.  No-op if the entity does not have `k`.
    ///
    /// The entity must be alive.
    pub fn remove(&mut self, entity: Entity, k: u64)
        requires
            old(self).wf(),
            old(self).alive(entity),
        ensures
            final(self).wf(),
            final(self)@ == old(self)@.insert(entity.0, old(self)@[entity.0].remove(k)),
            final(self)@ == apply_change(old(self)@, (ChangeKind::Remove, entity, k, Seq::empty())),
            final(self).issued() == old(self).issued(),
            final(self).wrapped_slots() == old(self).wrapped_slots(),
            final(self).component_sizes() == old(self).component_sizes(),
            final(self).next_spawn() == old(self).next_spawn(),
            final(self).spawn_possible() == old(self).spawn_possible(),
            final(self).allocator_state() == old(self).allocator_state(),
    {
        let loc = match self.inner.entity_map.get(&entity.0) {
            Some(l) => *l,
            None => {
                proof {
                    assert(false);
                }
                return ;
            },
        };
        let ghost old_comps = old(self)@[entity.0];
        let ghost target = old_comps.remove(k);
        let a = loc.archetype_index;
        let row = loc.row;
        proof {
            assert(self.inner.entry_ok(entity.0));
            assert(self.inner.arch_ok(a as int));
        }
        let ghost x0 = self.inner.arch(a as int);
        let ghost s1 = self.inner;
        let cur = keys_copy(self.inner.archetypes[a].id());
        if !keys_contain(&cur, k) {
            proof {
                assert(old_comps =~= target);
                assert(old(self)@ =~= old(self)@.insert(entity.0, target));
            }
            return ;
        }
        let mut data: Vec<(u64, Vec<u8>)> = Vec::new();
        let mut j: usize = 0;
        while j < cur.len()
            invariant
                self.inner == s1,
                s1.wf(),
                s1.arch(a as int) == x0,
                x0.wf(),
                row < x0.rows().len(),
                a < s1.archetypes@.len(),
                cur@ == x0.signature(),
                sorted_keys(cur@),
                j <= cur@.len(),
                forall|i: int| #![trigger data@[i]]
                    0 <= i < data@.len() ==> data@[i].0 != k && cur@.contains(data@[i].0)
                        && data@[i].1@ == x0.values(data@[i].0)[row as int],
                forall|i: int, i2: int| 0 <= i < i2 < data@.len() ==> data@[i].0 < data@[i2].0,
                j < cur@.len() ==> forall|i: int| 0 <= i < data@.len() ==> #[trigger] data@[i].0 < cur@[j as int],
                forall|q: int| #![trigger cur@[q]] 0 <= q < j && cur@[q] != k ==> exists|i: int|
                    #![trigger data@[i]] 0 <= i < data@.len() && data@[i].0 == cur@[q],
                forall|kk: u64| #[trigger] x0.signature().contains(kk) ==> x0.has_column(kk),
            decreases cur@.len() - j,
        {
            let tid = cur[j];
            let ghost d0 = data@;
            proof {
                assert(x0.signature().contains(tid));
            }
            if tid != k {
                match self.inner.archetypes[a].read_component(row, tid) {
                    Some(bytes) => {
                        data.push((tid, bytes));
                    },
                    None => {},
                }
            }
            proof {
                assert forall|q: int| #![trigger cur@[q]] 0 <= q < j + 1 && cur@[q] != k implies exists|i: int|
                    #![trigger data@[i]] 0 <= i < data@.len() && data@[i].0 == cur@[q] by {
                    if q == j {
                        assert(data@[data@.len() - 1].0 == cur@[q]);
                    } else {
                        let i = choose|i: int| #![trigger d0[i]] 0 <= i < d0.len() && d0[i].0 == cur@[q];
                        assert(data@[i] == d0[i]);
                    }
                }
            }
            j = j + 1;
        }
        let new_ids = keys_without(&cur, k);
        proof {
            assert forall|i: int|
                0 <= i < data@.len() implies #[trigger] new_ids@.contains(data@[i].0)
                    && s1.component_sizes@.contains_key(data@[i].0)
                    && s1.component_sizes@[data@[i].0] == data@[i].1@.len()
                    && target.contains_key(data@[i].0) && target[data@[i].0] == data@[i].1@ by {
                assert(s1.arch_ok(a as int));
                let key = data@[i].0;
                assert(x0.has_column(key));
                x0.lemma_value_len(key, row as int);
                assert(old_comps.contains_key(key));
            }
            assert forall|x: u64| #[trigger] target.contains_key(x) <==> new_ids@.contains(x) by {}
            assert forall|x: u64| #[trigger] new_ids@.contains(x) implies exists|i: int|
                0 <= i < data@.len() && data@[i].0 == x by {
                let q = choose|q: int| 0 <= q < cur@.len() && cur@[q] == x;
                assert(cur@[q] != k);
            }
            assert forall|i: int, i2: int| 0 <= i < i2 < data@.len() implies data@[i].0 != data@[i2].0 by {}
        }
        self.inner.detach(entity, loc);
        self.inner.attach(entity, new_ids, data, Ghost(target));
        proof {
            assert(self.inner.entity_map@.dom() =~= old(self).inner.entity_map@.dom());
            assert(self@ =~= old(self)@.insert(entity.0, target));
            assert(self.alloc_ok());
        }
    }

    /// Every entity that has component `k`, with a copy of its value, in
    /// archetype order and then row order.
    pub fn query_ref(&self, k: u64) -> (r: QueryIter)
        requires
            self.wf(),
        ensures
            r.wf(),
            forall|i: int|
                0 <= i < r.remaining().len() ==> self.alive(#[trigger] r.remaining()[i].0)
                    && self@[r.remaining()[i].0.0].contains_key(k)
                    && self@[r.remaining()[i].0.0][k] == r.remaining()[i].1,
            forall|b: u64|
                self@.contains_key(b) && #[trigger] self@[b].contains_key(k) ==> exists|i: int|
                    0 <= i < r.remaining().len() && r.remaining()[i].0.0 == b,
            forall|i: int, j: int|
                0 <= i < j < r.remaining().len() ==> r.remaining()[i].0 != r.remaining()[j].0,
            r.remaining().map_values(|p: (EntityId, Seq<u8>)| p.0) == self.storage_order(k),
    {
        let mut items: Vec<(EntityId, Vec<u8>)> = Vec::new();
        let n = self.inner.archetypes.len();
        let ghost m = self.inner.entity_map@;
        let mut a: usize = 0;
        while a < n
            invariant
                self.wf(),
                n == self.inner.archetypes@.len(),
                m == self.inner.entity_map@,
                a <= n,
                forall|i: int| #![trigger items@[i]]
                    0 <= i < items@.len() ==> m.contains_key(items@[i].0.0) && m[items@[i].0.0].archetype_index
                        < a && self@[items@[i].0.0].contains_key(k) && self@[items@[i].0.0][k]
                        == items@[i].1@,
                forall|i: int, j: int| 0 <= i < j < items@.len() ==> items@[i].0 != items@[j].0,
                forall|b: u64|
                    m.contains_key(b) && m[b].archetype_index < a && #[trigger] self@[b].contains_key(k)
                        ==> exists|i: int| 0 <= i < items@.len() && items@[i].0.0 == b,
                items@.map_values(|p: (EntityId, Vec<u8>)| p.0) == rows_with_column(
                    self.inner.archetypes@,
                    k,
                    a as int,
                ),
            decreases n - a,
        {
            let arch = &self.inner.archetypes[a];
            proof {
                assert(self.inner.arch_ok(a as int));
            }
            match arch.column(k) {
                Some(col) => {
                    let ents = arch.entities();
                    let ghost before = items@;
                    let mut r: usize = 0;
                    while r < ents.len()
                        invariant
                            self.wf(),
                            n == self.inner.archetypes@.len(),
                            m == self.inner.entity_map@,
                            a < n,
                            *arch == self.inner.arch(a as int),
                            ents@ == arch.rows(),
                            arch.has_column(k),
                            col.holds_rows(arch.rows().len()),
                            forall|q: int| 0 <= q < arch.rows().len() ==> #[trigger] col.cell(q) == arch.values(k)[q],
                            r <= ents@.len(),
                            items@.len() == before.len() + r,
                            forall|i: int| 0 <= i < before.len() ==> #[trigger] items@[i] == before[i],
                            forall|i: int| #![trigger items@[i]]
                                0 <= i < before.len() ==> m.contains_key(items@[i].0.0)
                                    && m[items@[i].0.0].archetype_index < a,
                            forall|q: int| #![trigger ents@[q]]
                                0 <= q < r ==> items@[before.len() + q].0 == ents@[q]
                                    && items@[before.len() + q].1@ == arch.values(k)[q],
                            forall|i: int| #![trigger items@[i]]
                                0 <= i < items@.len() ==> m.contains_key(items@[i].0.0)
                                    && self@[items@[i].0.0].contains_key(k) && self@[items@[i].0.0][k]
                                    == items@[i].1@,
                            forall|i: int, j: int| 0 <= i < j < items@.len() ==> items@[i].0 != items@[j].0,
                        decreases ents@.len() - r,
                    {
                        let e = ents[r];
                        let v = col.row_bytes(r);
                        proof {
                            let x = self.inner.arch(a as int);
                            assert(self.inner.arch_ok(a as int));
                            assert(x.rows()[r as int] == e);
                            assert(m[e.0] == EntityLocation { archetype_index: a, row: r });
                            assert(x.signature().contains(k));
                            assert(self@[e.0] == self.inner.comps_at(m[e.0]));
                            assert forall|i: int| 0 <= i < items@.len() implies items@[i].0 != e by {
                                if i < before.len() {
                                    assert(m[items@[i].0.0].archetype_index < a);
                                } else {
                                    let q = i - before.len();
                                    assert(items@[before.len() + q].0 == ents@[q]);
                                    assert(m[ents@[q].0] == EntityLocation {
                                        archetype_index: a,
                                        row: q as usize,
                                    });
                                }
                            }
                        }
                        let ghost items0 = items@;
                        items.push((e, v));
                        r = r + 1;
                        proof {
                            assert forall|q: int| #![trigger ents@[q]]
                                0 <= q < r implies items@[before.len() + q].0 == ents@[q]
                                    && items@[before.len() + q].1@ == arch.values(k)[q] by {
                                if q < r - 1 {
                                    assert(items@[before.len() + q] == items0[before.len() + q]);
                                } else {
                                    assert(items@[before.len() + q] == (e, v));
                                }
                            }
                        }
                    }
                    proof {
                        let x = self.inner.arch(a as int);
                        assert forall|i: int| #![trigger items@[i]]
                            0 <= i < items@.len() implies m.contains_key(items@[i].0.0)
                                && m[items@[i].0.0].archetype_index < a + 1 && self@[items@[i].0.0].contains_key(k)
                                && self@[items@[i].0.0][k] == items@[i].1@ by {
                            if i >= before.len() {
                                let q = i - before.len();
                                assert(items@[before.len() + q].0 == ents@[q]);
                                assert(self.inner.arch_ok(a as int));
                            }
                        }
                        assert forall|b: u64|
                            m.contains_key(b) && m[b].archetype_index < a + 1 && #[trigger] self@[b].contains_key(k)
                                implies exists|i: int| 0 <= i < items@.len() && items@[i].0.0 == b by {
                            if m[b].archetype_index == a {
                                assert(self.inner.entry_ok(b));
                                let q = m[b].row as int;
                                assert(items@[before.len() + q].0 == ents@[q]);
                                assert(items@[before.len() + q].0.0 == b);
                            } else {
                                let i = choose|i: int| 0 <= i < before.len() && before[i].0.0 == b;
                                assert(items@[i] == before[i]);
                            }
                        }
                        let ids0 = before.map_values(|p: (EntityId, Vec<u8>)| p.0);
                        assert(items@.map_values(|p: (EntityId, Vec<u8>)| p.0) =~= ids0 + ents@) by {
                            assert forall|i: int| #![trigger items@[i]] 0 <= i < items@.len() implies items@.map_values(
                                |p: (EntityId, Vec<u8>)| p.0,
                            )[i] == (ids0 + ents@)[i] by {
                                if i >= before.len() {
                                    let q = i - before.len();
                                    assert(items@[before.len() + q].0 == ents@[q]);
                                } else {
                                    assert(items@[i] == before[i]);
                                }
                            }
                        }
                    }
                },
                None => {
                    proof {
                        let x = self.inner.arch(a as int);
                        assert forall|b: u64|
                            m.contains_key(b) && m[b].archetype_index < a + 1 && #[trigger] self@[b].contains_key(k)
                                implies exists|i: int| 0 <= i < items@.len() && items@[i].0.0 == b by {
                            if m[b].archetype_index == a {
                                assert(self.inner.entry_ok(b));
                                assert(self@[b] == self.inner.comps_at(m[b]));
                                assert(x.signature().contains(k));
                                assert(x.rows().len() > 0);
                                assert(x.has_column(k));
                            }
                        }
                        assert(rows_with_column(self.inner.archetypes@, k, a + 1) =~= rows_with_column(
                            self.inner.archetypes@,
                            k,
                            a as int,
                        ));
                    }
                },
            }
            a = a + 1;
        }
        let r = QueryIter::from_items(items);
        proof {
            let rem = r.remaining();
            assert forall|i: int| 0 <= i < rem.len() implies rem[i].0 == items@[i].0 && rem[i].1
                == items@[i].1@ by {}
            assert forall|b: u64|
                self@.contains_key(b) && #[trigger] self@[b].contains_key(k) implies exists|i: int|
                    0 <= i < rem.len() && rem[i].0.0 == b by {
                assert(self.inner.entry_ok(b));
                let i = choose|i: int| 0 <= i < items@.len() && items@[i].0.0 == b;
                assert(rem[i].0 == items@[i].0);
            }
            assert forall|i: int, j: int| 0 <= i < j < rem.len() implies rem[i].0 != rem[j].0 by {
                assert(rem[i].0 == items@[i].0);
                assert(rem[j].0 == items@[j].0);
            }
            assert(rem.map_values(|p: (EntityId, Seq<u8>)| p.0) =~= items@.map_values(
                |p: (EntityId, Vec<u8>)| p.0,
            ));
        }
        r
    }

    /// A copy of component `k` of `entity`; `None` if the entity is not
    /// alive or has no such component.
    pub fn get(&self, entity: Entity, k: u64) -> (r: Option<Vec<u8>>)
        requires
            self.wf(),
        ensures
            r matches Some(v) ==> self.alive(entity) && self@[entity.0].contains_key(k)
                && v@ == self@[entity.0][k],
            r is None ==> !self.alive(entity) || !self@[entity.0].contains_key(k),
    {
        let loc = match self.inner.entity_map.get(&entity.0) {
            Some(l) => *l,
            None => return None,
        };
        proof {
            assert(self.inner.entry_ok(entity.0));
            assert(self.inner.arch_ok(loc.archetype_index as int));
        }
        let arch = &self.inner.archetypes[loc.archetype_index];
        let r = arch.read_component(loc.row, k);
        proof {
            let x = self.inner.arch(loc.archetype_index as int);
            if x.signature().contains(k) {
                assert(x.has_column(k));
            }
        }
        r
    }
}

/// The world holds finitely many entities.
proof fn lemma_view_finite(w: World)
    ensures
        w@.dom().finite(),
{
    assert(w.inner.entity_map@.dom().finite());
    assert(w@.dom() =~= w.inner.entity_map@.dom());
}

/// Spawning makes exactly one more entity alive, the spawned one, with no
/// components; every other entity keeps its components.
pub proof fn law_spawn_adds_one(before: World, after: World, e: EntityId)
    requires
        !before.alive(e),
        after@ == before@.insert(e.0, Map::<u64, Seq<u8>>::empty()),
    ensures
        after.alive(e),
        after@[e.0] == Map::<u64, Seq<u8>>::empty(),
        after@.len() == before@.len() + 1,
        forall|b: u64| b != e.0 ==> (after@.contains_key(b) <==> before@.contains_key(b)),
        forall|b: u64| b != e.0 && #[trigger] before@.contains_key(b) ==> after@[b] == before@[b],
{
    lemma_view_finite(before);
}

/// Despawning a live entity makes exactly it dead, so the count drops by
/// one; despawning a dead one changes nothing.  Every other entity keeps its
/// components.
pub proof fn law_despawn_removes_one(before: World, after: World, e: EntityId)
    requires
        after@ == before@.remove(e.0),
    ensures
        !after.alive(e),
        before.alive(e) ==> after@.len() == before@.len() - 1,
        !before.alive(e) ==> after@ == before@,
        forall|b: u64| b != e.0 ==> (after@.contains_key(b) <==> before@.contains_key(b)),
        forall|b: u64| b != e.0 && #[trigger] before@.contains_key(b) ==> after@[b] == before@[b],
{
    lemma_view_finite(before);
    if !before.alive(e) {
        assert(after@ =~= before@);
    }
}

/// After a live entity is despawned, the next spawn hands out its slot index
/// again with the next generation: the new handle differs from the stale
/// one, which stays dead while the new one is alive.
pub proof fn law_despawn_then_spawn(
    w0: World,
    w1: World,
    w2: World,
    e: EntityId,
    e2: EntityId,
)
    requires
        w0.alive(e),
        w1@ == w0@.remove(e.0),
        w1.next_spawn() == crate::entity::pack(
            e.spec_index(),
            crate::entity::next_generation(e.spec_generation()),
        ),
        e2 == w1.next_spawn(),
        w2@ == w1@.insert(e2.0, Map::<u64, Seq<u8>>::empty()),
    ensures
        e2.spec_index() == e.spec_index(),
        e2.spec_generation() == crate::entity::next_generation(e.spec_generation()),
        e2 != e,
        !w2.alive(e),
        w2.alive(e2),
{
    crate::entity::lemma_unpack_pack(e.spec_index(), crate::entity::next_generation(e.spec_generation()));
    assert(e2.0 != e.0);
}

/// A component value reads back as written: after `insert(e, k, v)` the
/// entity has `k` with value `v`, its other components are unchanged, and so
/// are all other entities and the count.
pub proof fn law_insert_then_get(before: World, after: World, e: EntityId, k: u64, v: Seq<u8>)
    requires
        before.alive(e),
        after@ == before@.insert(e.0, before@[e.0].insert(k, v)),
    ensures
        after.alive(e),
        after@[e.0].contains_key(k),
        after@[e.0][k] == v,
        forall|k2: u64| k2 != k ==> (after@[e.0].contains_key(k2) <==> before@[e.0].contains_key(k2)),
        forall|k2: u64| k2 != k && #[trigger] before@[e.0].contains_key(k2) ==> after@[e.0][k2] == before@[e.0][k2],
        forall|b: u64| b != e.0 ==> (after@.contains_key(b) <==> before@.contains_key(b)),
        forall|b: u64| b != e.0 && #[trigger] before@.contains_key(b) ==> after@[b] == before@[b],
        after@.len() == before@.len(),
{
    lemma_view_finite(before);
}

/// After `remove(e, k)` the entity no longer has `k` while keeping its other
/// components; removing a component it does not have changes nothing.
pub proof fn law_remove_then_get(before: World, after: World, e: EntityId, k: u64)
    requires
        before.alive(e),
        after@ == before@.insert(e.0, before@[e.0].remove(k)),
    ensures
        after.alive(e),
        !after@[e.0].contains_key(k),
        forall|k2: u64| k2 != k ==> (after@[e.0].contains_key(k2) <==> before@[e.0].contains_key(k2)),
        forall|k2: u64| k2 != k && #[trigger] before@[e.0].contains_key(k2) ==> after@[e.0][k2] == before@[e.0][k2],
        forall|b: u64| b != e.0 ==> (after@.contains_key(b) <==> before@.contains_key(b)),
        forall|b: u64| b != e.0 && #[trigger] before@.contains_key(b) ==> after@[b] == before@[b],
        !before@[e.0].contains_key(k) ==> after@ == before@,
{
    if !before@[e.0].contains_key(k) {
        assert(before@[e.0].remove(k) =~= before@[e.0]);
        assert(after@ =~= before@);
    }
}

/// The kinds of change to a world.
pub enum ChangeKind {
    Spawn,
    Despawn,
    Insert,
    Remove,
}

/// A change to a world: its kind, the entity, and for `Insert` and `Remove`
/// the component key (and for `Insert` the value).
pub type Change = (ChangeKind, EntityId, u64, Seq<u8>);

/// The view of a world after change `c`, as the contracts of `spawn`,
/// `despawn`, `insert` and `remove` give it (an insert or remove on a dead
/// entity, which those functions do not accept, changes nothing here).
pub open spec fn apply_change(m: Map<u64, Map<u64, Seq<u8>>>, c: Change) -> Map<u64, Map<u64, Seq<u8>>> {
    match c.0 {
        ChangeKind::Spawn => m.insert(c.1.0, Map::empty()),
        ChangeKind::Despawn => m.remove(c.1.0),
        ChangeKind::Insert => if m.contains_key(c.1.0) {
            m.insert(c.1.0, m[c.1.0].insert(c.2, c.3))
        } else {
            m
        },
        ChangeKind::Remove => if m.contains_key(c.1.0) {
            m.insert(c.1.0, m[c.1.0].remove(c.2))
        } else {
            m
        },
    }
}

/// The view after the changes `cs`, in order, starting from `m`.
pub open spec fn replay(m: Map<u64, Map<u64, Seq<u8>>>, cs: Seq<Change>) -> Map<u64, Map<u64, Seq<u8>>>
    decreases cs.len(),
{
    if cs.len() == 0 {
        m
    } else {
        apply_change(replay(m, cs.drop_last()), cs.last())
    }
}

/// Change `c` bears on component `k` of entity `e`: it spawns or despawns
/// `e`, or inserts or removes `k` of `e`.
pub open spec fn bears_on(c: Change, e: EntityId, k: u64) -> bool {
    &&& c.1 == e
    &&& (c.0 is Spawn || c.0 is Despawn || c.2 == k)
}

/// A component reads as the value of its latest insert: when change `i`
/// inserts `v` as `k` of the live entity `e` and no later change bears on
/// it, `e` is alive in the end with `v` as `k`.
pub proof fn law_latest_insert_wins(m: Map<u64, Map<u64, Seq<u8>>>, cs: Seq<Change>, i: int, e: EntityId, k: u64, v: Seq<u8>)
    requires
        0 <= i < cs.len(),
        cs[i] == (ChangeKind::Insert, e, k, v),
        replay(m, cs.take(i)).contains_key(e.0),
        forall|j: int| i < j < cs.len() ==> !bears_on(#[trigger] cs[j], e, k),
    ensures
        replay(m, cs).contains_key(e.0),
        replay(m, cs)[e.0].contains_key(k),
        replay(m, cs)[e.0][k] == v,
    decreases cs.len(),
{
    let rest = cs.drop_last();
    if i == cs.len() - 1 {
        assert(rest =~= cs.take(i));
    } else {
        assert(rest.take(i) =~= cs.take(i));
        assert(rest[i] == cs[i]);
        law_latest_insert_wins(m, rest, i, e, k, v);
        let c = cs.last();
        assert(!bears_on(cs[cs.len() - 1], e, k));
        let r0 = replay(m, rest);
        assert(replay(m, cs) == apply_change(r0, c));
        match c.0 {
            ChangeKind::Spawn => {},
            ChangeKind::Despawn => {},
            ChangeKind::Insert => {
                if r0.contains_key(c.1.0) && c.1.0 == e.0 {
                    assert(c.1 == e);
                }
            },
            ChangeKind::Remove => {
                if r0.contains_key(c.1.0) && c.1.0 == e.0 {
                    assert(c.1 == e);
                }
            },
        }
    }
}

/// A component is absent after a despawn or spawn of its entity or a
/// remove of it, until a later change bears on it again.
pub proof fn law_absent_after_remove(m: Map<u64, Map<u64, Seq<u8>>>, cs: Seq<Change>, i: int, e: EntityId, k: u64)
    requires
        0 <= i < cs.len(),
        bears_on(cs[i], e, k),
        !(cs[i].0 is Insert),
        forall|j: int| i < j < cs.len() ==> !bears_on(#[trigger] cs[j], e, k),
    ensures
        !(replay(m, cs).contains_key(e.0) && replay(m, cs)[e.0].contains_key(k)),
    decreases cs.len(),
{
    let rest = cs.drop_last();
    if i == cs.len() - 1 {
    } else {
        assert(rest[i] == cs[i]);
        law_absent_after_remove(m, rest, i, e, k);
        let c = cs.last();
        assert(!bears_on(cs[cs.len() - 1], e, k));
        let r0 = replay(m, rest);
        match c.0 {
            ChangeKind::Spawn => {},
            ChangeKind::Despawn => {},
            ChangeKind::Insert => {
                if r0.contains_key(c.1.0) && c.1.0 == e.0 {
                    assert(c.1 == e);
                }
            },
            ChangeKind::Remove => {
                if r0.contains_key(c.1.0) && c.1.0 == e.0 {
                    assert(c.1 == e);
                }
            },
        }
    }
}

/// Inserting a component an entity did not have and removing it again gives
/// back the world as it was.
pub proof fn law_insert_then_remove_restores(
    w0: World,
    w1: World,
    w2: World,
    e: EntityId,
    k: u64,
    v: Seq<u8>,
)
    requires
        w0.alive(e),
        !w0@[e.0].contains_key(k),
        w1@ == w0@.insert(e.0, w0@[e.0].insert(k, v)),
        w2@ == w1@.insert(e.0, w1@[e.0].remove(k)),
    ensures
        w2@ == w0@,
{
    assert(w0@[e.0].insert(k, v).remove(k) =~= w0@[e.0]);
    assert(w2@ =~= w0@);
}

/// A query yields each live entity that has component `k` exactly once, so
/// it yields as many pairs as there are such entities.
pub proof fn law_query_count(w: World, results: Seq<(EntityId, Seq<u8>)>, k: u64)
    requires
        forall|i: int|
            0 <= i < results.len() ==> w.alive(#[trigger] results[i].0) && w@[results[i].0.0].contains_key(k)
                && w@[results[i].0.0][k] == results[i].1,
        forall|b: u64|
            w@.contains_key(b) && #[trigger] w@[b].contains_key(k) ==> exists|i: int|
                0 <= i < results.len() && results[i].0.0 == b,
        forall|i: int, j: int| 0 <= i < j < results.len() ==> results[i].0 != results[j].0,
    ensures
        results.len() == w@.dom().filter(|b: u64| w@[b].contains_key(k)).len(),
{
    let ids = results.map_values(|p: (EntityId, Seq<u8>)| p.0.0);
    assert(ids.no_duplicates()) by {
        assert forall|i: int, j: int| 0 <= i < ids.len() && 0 <= j < ids.len() && i != j implies ids[i]
            != ids[j] by {
            if i < j {
                assert(results[i].0 != results[j].0);
            } else {
                assert(results[j].0 != results[i].0);
            }
        }
    }
    ids.unique_seq_to_set();
    let s = w@.dom().filter(|b: u64| w@[b].contains_key(k));
    assert(ids.to_set() =~= s) by {
        assert forall|b: u64| ids.to_set().contains(b) <==> s.contains(b) by {
            if ids.to_set().contains(b) {
                let i = choose|i: int| 0 <= i < ids.len() && ids[i] == b;
                assert(w.alive(results[i].0));
            }
            if s.contains(b) {
                let i = choose|i: int| 0 <= i < results.len() && results[i].0.0 == b;
                assert(ids[i] == b);
            }
        }
    }
}

impl Default for World {
    fn default() -> (r: Self)
        ensures
            r.wf(),
            r@ == Map::<u64, Map<u64, Seq<u8>>>::empty(),
            r.component_sizes() == Map::<u64, usize>::empty(),
            r.next_spawn() == EntityId(0),
            r.spawn_possible(),
            r.allocator_state().next_fresh() == 0,
            r.allocator_state().free_list() == Seq::<EntityId>::empty(),
            r.issued() == Set::<EntityId>::empty(),
            r.wrapped_slots() == Set::<u32>::empty(),
    {
        Self::new()
    }
}

} // verus!

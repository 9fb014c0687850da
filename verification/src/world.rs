//! The dynamic world: entities with runtime-typed components, stored in
//! column-oriented archetypes.

use crate::components::{
    bag, bag_holds_entries, distinct_ids, ids_of, insert_sorted, lists, normalize, remove_sorted,
    sorted_is_distinct, strictly_sorted,
};
use crate::error::{NotFoundError, SpawnError};
use crate::query::{Column, QueryPlan};
use vstd::prelude::*;

verus! {

/// Generational handle of an entity: the index of its slot and the
/// generation of the slot at the time the entity was spawned.
#[derive(Clone, Copy, Debug, PartialEq, Eq, Structural, Hash)]
pub struct EntityId {
    pub index: u32,
    pub generation: u32,
}

/// Lifecycle of an entity slot.
#[derive(Clone, Copy)]
enum Slot {
    /// Unoccupied; the next entity in the slot gets `generation`.
    Free { generation: u32 },
    /// Occupied by the entity of `generation`, stored at `row` of `archetype`.
    Live { generation: u32, archetype: usize, row: usize },
    /// Every generation of the slot has been used; the slot is never reused.
    Retired,
}

/// The entities with one set of layout ids, stored column by column.
struct Archetype {
    /// The layout ids, strictly increasing.
    signature: Vec<u64>,
    /// One column per layout id, one cell per row.
    columns: Vec<Vec<Vec<u8>>>,
    /// The entity of each row.
    entities: Vec<EntityId>,
}

impl Archetype {
    spec fn wf(&self) -> bool {
        &&& strictly_sorted(self.signature@)
        &&& self.columns.len() == self.signature.len()
        &&& forall|c: int| 0 <= c < self.columns.len() ==> (#[trigger] self.columns[c]).len() == self.entities.len()
    }

    spec fn row(&self, r: int) -> Map<u64, Seq<u8>> {
        Map::new(
            |id: u64| self.signature@.contains(id),
            |id: u64| self.columns[self.signature@.index_of(id)][r]@,
        )
    }
}

/// The host-side store of entities and their components.
pub struct World {
    slots: Vec<Slot>,
    /// The ids that free slots hand out next.
    free: Vec<EntityId>,
    archetypes: Vec<Archetype>,
}

impl View for World {
    type V = Map<EntityId, Map<u64, Seq<u8>>>;

    closed spec fn view(&self) -> Map<EntityId, Map<u64, Seq<u8>>> {
        Map::new(|id: EntityId| self.live(id), |id: EntityId| self.components(id))
    }
}

impl World {
    /// The entity is alive: its slot is occupied in the generation of the id.
    pub closed spec fn live(&self, id: EntityId) -> bool {
        &&& id.index < self.slots.len()
        &&& self.slots[id.index as int] matches Slot::Live { generation, .. }
        &&& generation == id.generation
    }

    /// The components stored for the slot of `id`.
    pub closed spec fn components(&self, id: EntityId) -> Map<u64, Seq<u8>> {
        match self.slots[id.index as int] {
            Slot::Live { archetype, row, .. } => self.archetypes[archetype as int].row(row as int),
            _ => Map::empty(),
        }
    }

    /// The id has been handed out at some time, whether or not its entity is
    /// still alive.
    pub closed spec fn issued(&self, id: EntityId) -> bool {
        &&& id.index < self.slots.len()
        &&& match self.slots[id.index as int] {
            Slot::Free { generation } => id.generation < generation,
            Slot::Live { generation, .. } => id.generation <= generation,
            Slot::Retired => true,
        }
    }

    /// No slot is free and no further slot can be added.
    pub closed spec fn exhausted(&self) -> bool {
        self.free.len() == 0 && self.slots.len() > u32::MAX
    }

    /// The entities outside slot `index`, with their components.
    spec fn rest(&self, index: u32) -> Map<EntityId, Map<u64, Seq<u8>>> {
        Map::new(
            |id: EntityId| id.index != index && self.live(id),
            |id: EntityId| self.components(id),
        )
    }

    spec fn slot_placed(&self, i: int) -> bool {
        self.slots[i] matches Slot::Live { generation, archetype, row } ==> {
            &&& archetype < self.archetypes.len()
            &&& row < self.archetypes[archetype as int].entities.len()
            &&& self.archetypes[archetype as int].entities[row as int] == EntityId {
                index: i as u32,
                generation,
            }
        }
    }

    spec fn row_owned(&self, a: int, r: int, hole: Option<u32>) -> bool {
        let e = self.archetypes[a].entities[r];
        &&& e.index < self.slots.len()
        &&& hole != Some(e.index)
        &&& self.slots[e.index as int] == Slot::Live {
            generation: e.generation,
            archetype: a as usize,
            row: r as usize,
        }
    }

    spec fn free_entry(&self, k: int, hole: Option<u32>) -> bool {
        &&& self.free[k].index < self.slots.len()
        &&& self.slots[self.free[k].index as int] == Slot::Free { generation: self.free[k].generation }
        &&& hole != Some(self.free[k].index)
    }

    /// The representation invariant. With a `hole`, the slot of that index is
    /// detached: it is in no row and not on the free list, whatever it says.
    spec fn inv(&self, hole: Option<u32>) -> bool {
        &&& self.slots.len() <= u32::MAX + 1
        &&& forall|a: int| 0 <= a < self.archetypes.len() ==> (#[trigger] self.archetypes[a]).wf()
        &&& forall|i: int|
            0 <= i < self.slots.len() && hole != Some(i as u32) ==> #[trigger] self.slot_placed(i)
        &&& forall|a: int, r: int|
            0 <= a < self.archetypes.len() && 0 <= r < self.archetypes[a].entities.len()
                ==> #[trigger] self.row_owned(a, r, hole)
        &&& self.free@.no_duplicates()
        &&& forall|k: int| 0 <= k < self.free.len() ==> #[trigger] self.free_entry(k, hole)
    }

    /// The world is well formed: rows and slots point at each other, columns
    /// are parallel, and the free list holds unoccupied slots.
    pub closed spec fn wf(&self) -> bool {
        self.inv(None)
    }

    /// A world without entities: no id has been handed out, every slot is still to be had.
    pub fn new() -> (r: Self)
        ensures
            r.wf(),
            r@ == Map::<EntityId, Map<u64, Seq<u8>>>::empty(),
            forall|id: EntityId| !r.issued(id),
            !r.exhausted(),
    {
        let r = World { slots: Vec::new(), free: Vec::new(), archetypes: Vec::new() };
        assert(r@ =~= Map::<EntityId, Map<u64, Seq<u8>>>::empty());
        r
    }
}


/// Two slot states agree on the lifecycle phase and the generation; they may
/// differ in where the entity is stored.
spec fn same_phase(a: Slot, b: Slot) -> bool {
    match a {
        Slot::Free { generation } => b == a,
        Slot::Live { generation, .. } => b is Live && b->Live_generation == generation,
        Slot::Retired => b is Retired,
    }
}

impl World {
    /// Every slot is in the phase and generation it has in `other`.
    spec fn same_phases(&self, other: &World) -> bool {
        &&& self.slots.len() == other.slots.len()
        &&& forall|j: int|
            0 <= j < self.slots.len() ==> same_phase(#[trigger] self.slots[j], other.slots[j])
    }

    /// Removes the row of the entity in slot `index` from its archetype and
    /// returns its components, sorted by layout id. The last row of the
    /// archetype takes the place of the removed one. The slot itself is left
    /// as it is, detached.
    fn take_row(&mut self, index: u32, a: usize, r: usize) -> (out: Vec<(u64, Vec<u8>)>)
        requires
            old(self).inv(None),
            index < old(self).slots.len(),
            old(self).slots[index as int] is Live,
            old(self).slots[index as int]->Live_archetype == a,
            old(self).slots[index as int]->Live_row == r,
        ensures
            final(self).inv(Some(index)),
            final(self).same_phases(old(self)),
            final(self).slots[index as int] == old(self).slots[index as int],
            final(self).free == old(self).free,
            final(self).rest(index) == old(self).rest(index),
            strictly_sorted(ids_of(out@)),
            bag(out@) == old(self).components(EntityId { index, generation: 0 }),
    {
        assert(old(self).slot_placed(index as int));
        let ghost before = *old(self);
        let ghost arch0 = before.archetypes[a as int];
        let ghost rows0 = arch0.entities.len() as int;
        assert(arch0.wf());
        let n = self.archetypes[a].columns.len();
        let mut out: Vec<(u64, Vec<u8>)> = Vec::new();
        let mut c: usize = 0;
        while c < n
            invariant
                c <= n,
                n == arch0.columns.len(),
                arch0 == before.archetypes[a as int],
                arch0.wf(),
                rows0 == arch0.entities.len(),
                0 <= r < rows0,
                a < before.archetypes.len(),
                self.slots == before.slots,
                self.free == before.free,
                self.archetypes.len() == before.archetypes.len(),
                forall|b: int|
                    0 <= b < self.archetypes.len() && b != a ==> self.archetypes[b]
                        == before.archetypes[b],
                self.archetypes[a as int].signature == arch0.signature,
                self.archetypes[a as int].entities == arch0.entities,
                self.archetypes[a as int].columns.len() == n,
                forall|k: int|
                    0 <= k < c ==> (#[trigger] self.archetypes[a as int].columns[k])@
                        == arch0.columns[k]@.update(r as int, arch0.columns[k]@.last()).drop_last(),
                forall|k: int|
                    c <= k < n ==> #[trigger] self.archetypes[a as int].columns[k] == arch0.columns[k],
                out.len() == c,
                forall|k: int|
                    0 <= k < c ==> (#[trigger] out@[k]).0 == arch0.signature[k] && out@[k].1
                        == arch0.columns[k][r as int],
            decreases n - c,
        {
            assert(self.archetypes[a as int].columns[c as int] == arch0.columns[c as int]);
            assert(arch0.columns[c as int].len() == rows0);
            let id = self.archetypes[a].signature[c];
            let bytes = self.archetypes[a].columns[c].swap_remove(r);
            out.push((id, bytes));
            c += 1;
        }
        let ghost mid = *self;
        let moved_from = self.archetypes[a].entities.len() - 1;
        let _ = self.archetypes[a].entities.swap_remove(r);
        if r < moved_from {
            let moved = self.archetypes[a].entities[r];
            assert(before.row_owned(a as int, moved_from as int, None));
            self.slots[moved.index as usize] = Slot::Live {
                generation: moved.generation,
                archetype: a,
                row: r,
            };
        }
        proof {
            let after = *self;
            let arch1 = after.archetypes[a as int];
            let last = rows0 - 1;
            assert(before.row_owned(a as int, r as int, None));
            assert(before.row_owned(a as int, last, None));
            assert(arch1.entities@ == arch0.entities@.update(r as int, arch0.entities@.last()).drop_last());
            // the rows of the archetype, after and before
            assert forall|q: int| 0 <= q < last implies #[trigger] arch1.row(q) == arch0.row(
                if q == r {
                    last
                } else {
                    q
                },
            ) by {
                let src = if q == r { last } else { q };
                assert forall|id: u64| arch0.signature@.contains(id) implies arch1.row(q)[id]
                    == arch0.row(src)[id] by {
                    let k = arch0.signature@.index_of(id);
                    assert(arch1.columns[k]@ == arch0.columns[k]@.update(
                        r as int,
                        arch0.columns[k]@.last(),
                    ).drop_last());
                    assert(arch0.columns[k].len() == rows0);
                }
                assert(arch1.row(q) =~= arch0.row(src));
            }
            assert(arch1.wf()) by {
                assert forall|k: int| 0 <= k < arch1.columns.len() implies (#[trigger] arch1.columns[k]).len()
                    == arch1.entities.len() by {
                    assert(arch0.columns[k].len() == rows0);
                    assert(arch1.columns[k]@ == arch0.columns[k]@.update(
                        r as int,
                        arch0.columns[k]@.last(),
                    ).drop_last());
                }
            }
            assert forall|b: int| 0 <= b < after.archetypes.len() implies (#[trigger] after.archetypes[b]).wf() by {
                if b != a {
                    assert(before.archetypes[b].wf());
                }
            }
            assert forall|j: int| 0 <= j < after.slots.len() implies same_phase(
                #[trigger] after.slots[j],
                before.slots[j],
            ) by {}
            assert forall|i: int|
                0 <= i < after.slots.len() && Some(index) != Some(i as u32) implies #[trigger] after.slot_placed(
                i,
            ) by {
                assert(before.slot_placed(i));
                if let Slot::Live { generation, archetype, row } = before.slots[i] {
                    if archetype == a {
                        assert(row != r);
                    }
                }
            }
            assert forall|b: int, q: int|
                0 <= b < after.archetypes.len() && 0 <= q < after.archetypes[b].entities.len() implies #[trigger] after.row_owned(
                b,
                q,
                Some(index),
            ) by {
                if b != a {
                    assert(before.row_owned(b, q, None));
                } else if q == r {
                    assert(before.row_owned(a as int, last, None));
                } else {
                    assert(before.row_owned(a as int, q, None));
                }
            }
            assert forall|k: int| 0 <= k < after.free.len() implies #[trigger] after.free_entry(
                k,
                Some(index),
            ) by {
                assert(before.free_entry(k, None));
            }
            assert forall|id: EntityId| id.index != index && before.live(id) implies after.components(id)
                == before.components(id) by {
                assert(before.slot_placed(id.index as int));
                assert(after.slot_placed(id.index as int));
                if let Slot::Live { generation, archetype, row } = before.slots[id.index as int] {
                    if archetype == a {
                        assert(row != r);
                        if row == last {
                            assert(arch1.row(r as int) == arch0.row(last));
                        } else {
                            assert(arch1.row(row as int) == arch0.row(row as int));
                        }
                    }
                }
            }
            assert(after.rest(index) =~= before.rest(index));
            // the components that were taken out
            assert forall|x: int, y: int| 0 <= x < y < out.len() implies ids_of(out@)[x] < ids_of(out@)[y] by {
                assert(out@[x].0 == arch0.signature[x]);
                assert(out@[y].0 == arch0.signature[y]);
            }
            sorted_is_distinct(out@);
            bag_holds_entries(out@);
            let taken = before.components(EntityId { index, generation: 0 });
            assert(taken == arch0.row(r as int));
            assert forall|id: u64| bag(out@).contains_key(id) implies taken.contains_key(id) && bag(out@)[id]
                == taken[id] by {
                let k = choose|k: int| 0 <= k < out.len() && (#[trigger] out@[k]).0 == id;
                assert(arch0.signature@[k] == id);
                let k2 = arch0.signature@.index_of(id);
                assert(k2 == k);
            }
            assert forall|id: u64| taken.contains_key(id) implies bag(out@).contains_key(id) by {
                let k = arch0.signature@.index_of(id);
                assert(out@[k].0 == id);
            }
            assert(bag(out@) =~= taken);
        }
        out
    }
}


/// Whether `signature` lists the layout ids of `components`, in order.
fn signature_of(signature: &Vec<u64>, components: &Vec<(u64, Vec<u8>)>) -> (r: bool)
    ensures
        r == (signature@ == ids_of(components@)),
{
    if signature.len() != components.len() {
        return false;
    }
    let mut k: usize = 0;
    while k < signature.len()
        invariant
            k <= signature.len(),
            signature.len() == components.len(),
            forall|j: int| 0 <= j < k ==> signature@[j] == ids_of(components@)[j],
        decreases signature.len() - k,
    {
        if signature[k] != components[k].0 {
            assert(signature@[k as int] != ids_of(components@)[k as int]);
            return false;
        }
        k += 1;
    }
    assert(signature@ =~= ids_of(components@));
    true
}

impl World {
    /// The index of the archetype whose signature lists the ids of
    /// `components`; the archetype is created, without rows, if there is none.
    fn archetype_for(&mut self, components: &Vec<(u64, Vec<u8>)>) -> (a: usize)
        requires
            strictly_sorted(ids_of(components@)),
        ensures
            a < final(self).archetypes.len(),
            final(self).archetypes[a as int].signature@ == ids_of(components@),
            final(self).archetypes[a as int].wf() || a < old(self).archetypes.len(),
            final(self).slots == old(self).slots,
            final(self).free == old(self).free,
            old(self).archetypes.len() <= final(self).archetypes.len() <= old(self).archetypes.len() + 1,
            forall|b: int|
                0 <= b < old(self).archetypes.len() ==> #[trigger] final(self).archetypes[b] == old(self).archetypes[b],
            forall|b: int|
                old(self).archetypes.len() <= b < final(self).archetypes.len() ==> (
                #[trigger] final(self).archetypes[b]).entities.len() == 0 && final(self).archetypes[b].wf(),
    {
        let mut a: usize = 0;
        while a < self.archetypes.len()
            invariant
                a <= self.archetypes.len(),
                *self == *old(self),
            decreases self.archetypes.len() - a,
        {
            if signature_of(&self.archetypes[a].signature, components) {
                return a;
            }
            a += 1;
        }
        let mut signature: Vec<u64> = Vec::new();
        let mut columns: Vec<Vec<Vec<u8>>> = Vec::new();
        let mut k: usize = 0;
        while k < components.len()
            invariant
                k <= components.len(),
                signature.len() == k,
                columns.len() == k,
                forall|j: int| 0 <= j < k ==> signature@[j] == ids_of(components@)[j],
                forall|j: int| 0 <= j < k ==> (#[trigger] columns[j]).len() == 0,
            decreases components.len() - k,
        {
            signature.push(components[k].0);
            columns.push(Vec::new());
            k += 1;
        }
        assert(signature@ =~= ids_of(components@));
        self.archetypes.push(Archetype { signature, columns, entities: Vec::new() });
        a
    }

    /// Stores `components` as the row of the entity `id`, whose slot is
    /// detached, and attaches the slot.
    fn place_row(&mut self, id: EntityId, components: Vec<(u64, Vec<u8>)>)
        requires
            old(self).inv(Some(id.index)),
            id.index < old(self).slots.len(),
            strictly_sorted(ids_of(components@)),
        ensures
            final(self).inv(None),
            final(self).slots.len() == old(self).slots.len(),
            forall|j: int|
                0 <= j < final(self).slots.len() && j != id.index ==> #[trigger] final(self).slots[j]
                    == old(self).slots[j],
            final(self).live(id),
            final(self).free == old(self).free,
            final(self).rest(id.index) == old(self).rest(id.index),
            final(self).components(id) == bag(components@),
    {
        let ghost before = *self;
        let ghost given = components@;
        let a = self.archetype_for(&components);
        let ghost mid = *self;
        let ghost arch0 = mid.archetypes[a as int];
        assert(arch0.wf()) by {
            if a < before.archetypes.len() {
                assert(before.archetypes[a as int].wf());
            }
        }
        let row = self.archetypes[a].entities.len();
        let mut components = components;
        let mut c: usize = components.len();
        while c > 0
            invariant
                c <= given.len(),
                components@ == given.take(c as int),
                arch0 == mid.archetypes[a as int],
                arch0.wf(),
                arch0.signature@ == ids_of(given),
                a < mid.archetypes.len(),
                self.slots == mid.slots,
                self.free == mid.free,
                self.archetypes.len() == mid.archetypes.len(),
                forall|b: int|
                    0 <= b < self.archetypes.len() && b != a ==> self.archetypes[b] == mid.archetypes[b],
                self.archetypes[a as int].signature == arch0.signature,
                self.archetypes[a as int].entities == arch0.entities,
                self.archetypes[a as int].columns.len() == arch0.columns.len(),
                forall|k: int|
                    c <= k < given.len() ==> (#[trigger] self.archetypes[a as int].columns[k])@
                        == arch0.columns[k]@.push(given[k].1),
                forall|k: int|
                    0 <= k < c ==> #[trigger] self.archetypes[a as int].columns[k] == arch0.columns[k],
            decreases c,
        {
            c -= 1;
            let entry = components.pop().unwrap();
            assert(entry == given[c as int]);
            self.archetypes[a].columns[c].push(entry.1);
            assert(components@ =~= given.take(c as int));
        }
        self.archetypes[a].entities.push(id);
        self.slots[id.index as usize] = Slot::Live {
            generation: id.generation,
            archetype: a,
            row,
        };
        proof {
            let after = *self;
            let arch1 = after.archetypes[a as int];
            assert(arch1.wf()) by {
                assert forall|k: int| 0 <= k < arch1.columns.len() implies (#[trigger] arch1.columns[k]).len()
                    == arch1.entities.len() by {
                    assert(arch0.columns[k].len() == arch0.entities.len());
                    assert(arch1.columns[k]@ == arch0.columns[k]@.push(given[k].1));
                }
            }
            assert forall|q: int| 0 <= q < row implies #[trigger] arch1.row(q) == arch0.row(q) by {
                assert forall|l: u64| arch0.signature@.contains(l) implies arch1.row(q)[l] == arch0.row(
                    q,
                )[l] by {
                    let k = arch0.signature@.index_of(l);
                    assert(arch1.columns[k]@ == arch0.columns[k]@.push(given[k].1));
                    assert(arch0.columns[k].len() == arch0.entities.len());
                }
                assert(arch1.row(q) =~= arch0.row(q));
            }
            sorted_is_distinct(given);
            bag_holds_entries(given);
            assert(arch1.row(row as int) =~= bag(given)) by {
                assert forall|l: u64| arch1.row(row as int).contains_key(l) implies bag(given).contains_key(
                    l,
                ) && arch1.row(row as int)[l] == bag(given)[l] by {
                    let k = arch0.signature@.index_of(l);
                    assert(ids_of(given)[k] == l);
                    assert(given[k].0 == l);
                    assert(arch1.columns[k]@ == arch0.columns[k]@.push(given[k].1));
                    assert(arch0.columns[k].len() == arch0.entities.len());
                }
                assert forall|l: u64| bag(given).contains_key(l) implies arch1.row(row as int).contains_key(
                    l,
                ) by {
                    let k = choose|k: int| 0 <= k < given.len() && (#[trigger] given[k]).0 == l;
                    assert(ids_of(given)[k] == l);
                }
            }
            assert forall|b: int| 0 <= b < after.archetypes.len() implies (#[trigger] after.archetypes[b]).wf() by {
                if b != a {
                    assert(after.archetypes[b] == mid.archetypes[b]);
                    if b < before.archetypes.len() {
                        assert(mid.archetypes[b] == before.archetypes[b]);
                        assert(before.archetypes[b].wf());
                    } else {
                        assert(mid.archetypes[b].wf());
                    }
                }
            }
            assert forall|i: int| 0 <= i < after.slots.len() implies #[trigger] after.slot_placed(i) by {
                if i != id.index {
                    assert(before.slot_placed(i));
                    if let Slot::Live { generation, archetype, row: q } = before.slots[i] {
                        assert(mid.archetypes[archetype as int] == before.archetypes[archetype as int]);
                        if archetype != a {
                            assert(after.archetypes[archetype as int] == mid.archetypes[archetype as int]);
                        }
                    }
                }
            }
            assert forall|b: int, q: int|
                0 <= b < after.archetypes.len() && 0 <= q < after.archetypes[b].entities.len() implies #[trigger] after.row_owned(
                b,
                q,
                None,
            ) by {
                if b == a && q == row {
                } else {
                    if b != a {
                        assert(after.archetypes[b] == mid.archetypes[b]);
                    }
                    if b >= before.archetypes.len() {
                        assert(mid.archetypes[b].entities.len() == 0);
                    }
                    assert(mid.archetypes[b] == before.archetypes[b]);
                    assert(before.row_owned(b, q, Some(id.index)));
                }
            }
            assert forall|k: int| 0 <= k < after.free.len() implies #[trigger] after.free_entry(k, None) by {
                assert(before.free_entry(k, Some(id.index)));
            }
            assert forall|e: EntityId| e.index != id.index && before.live(e) implies after.components(e)
                == before.components(e) by {
                assert(before.slot_placed(e.index as int));
                if let Slot::Live { generation, archetype, row: q } = before.slots[e.index as int] {
                    assert(mid.archetypes[archetype as int] == before.archetypes[archetype as int]);
                    if archetype == a {
                        assert(arch1.row(q as int) == arch0.row(q as int));
                    } else {
                        assert(after.archetypes[archetype as int] == mid.archetypes[archetype as int]);
                    }
                }
            }
            assert(after.rest(id.index) =~= before.rest(id.index));
        }
    }

    /// Whether the entity is alive.
    pub fn is_live(&self, id: EntityId) -> (r: bool)
        ensures
            r == self@.contains_key(id),
    {
        if (id.index as usize) < self.slots.len() {
            match self.slots[id.index as usize] {
                Slot::Live { generation, .. } => generation == id.generation,
                _ => false,
            }
        } else {
            false
        }
    }

    /// Spawns an entity with the given components and hands out its id.
    /// Fails, leaving the world as it is, when a layout id is listed twice
    /// or when no slot is left.
    pub fn spawn(&mut self, components: &Vec<(u64, Vec<u8>)>) -> (r: Result<EntityId, SpawnError>)
        requires
            old(self).wf(),
        ensures
            final(self).wf(),
            forall|e: EntityId| old(self).issued(e) ==> final(self).issued(e),
            match r {
                Ok(id) => {
                    &&& distinct_ids(components@)
                    &&& !old(self).exhausted()
                    &&& !old(self).issued(id)
                    &&& final(self).issued(id)
                    &&& final(self)@ == old(self)@.insert(id, bag(components@))
                },
                Err(SpawnError::DuplicateComponent) => !distinct_ids(components@) && final(self)@ == old(self)@,
                Err(SpawnError::Exhausted) => distinct_ids(components@) && old(self).exhausted()
                    && final(self)@ == old(self)@,
            },
    {
        let ghost before = *self;
        let sorted = match normalize(components) {
            Some(sorted) => sorted,
            None => {
                return Err(SpawnError::DuplicateComponent);
            },
        };
        let id = if self.free.len() > 0 {
            assert(before.free_entry(before.free.len() - 1, None));
            self.free.pop().unwrap()
        } else if self.slots.len() as u64 <= u32::MAX as u64 {
            let index = self.slots.len() as u32;
            self.slots.push(Slot::Free { generation: 0 });
            EntityId { index, generation: 0 }
        } else {
            return Err(SpawnError::Exhausted);
        };
        let ghost mid = *self;
        proof {
            assert forall|a: int| 0 <= a < mid.archetypes.len() implies (#[trigger] mid.archetypes[a]).wf() by {
                assert(before.archetypes[a].wf());
            }
            assert forall|i: int|
                0 <= i < mid.slots.len() && Some(id.index) != Some(i as u32) implies #[trigger] mid.slot_placed(
                i,
            ) by {
                assert(before.slot_placed(i));
            }
            assert forall|a: int, q: int|
                0 <= a < mid.archetypes.len() && 0 <= q < mid.archetypes[a].entities.len() implies #[trigger] mid.row_owned(
                a,
                q,
                Some(id.index),
            ) by {
                assert(before.row_owned(a, q, None));
            }
            assert forall|k: int| 0 <= k < mid.free.len() implies #[trigger] mid.free_entry(
                k,
                Some(id.index),
            ) by {
                assert(before.free_entry(k, None));
                if before.free.len() > 0 {
                    assert(before.free@[k] != before.free@[before.free.len() - 1]);
                }
            }
            assert(mid.free@.no_duplicates());
            assert(mid.rest(id.index) =~= before@);
        }
        self.place_row(id, sorted);
        proof {
            assert(self@ =~= self.rest(id.index).insert(id, self.components(id)));
        }
        Ok(id)
    }

    /// Despawns the entity and tells whether it was alive. The generation of
    /// its slot is bumped, so that the id stays invalid for good.
    pub fn despawn(&mut self, id: EntityId) -> (r: bool)
        requires
            old(self).wf(),
        ensures
            final(self).wf(),
            r == old(self)@.contains_key(id),
            final(self)@ == old(self)@.remove(id),
            forall|e: EntityId| old(self).issued(e) ==> final(self).issued(e),
    {
        let ghost before = *self;
        let (a, q) = match self.locate(id) {
            None => {
                assert(self@ =~= self@.remove(id));
                return false;
            },
            Some(found) => found,
        };
        let _ = self.take_row(id.index, a, q);
        let ghost mid = *self;
        if id.generation < u32::MAX {
            self.slots[id.index as usize] = Slot::Free { generation: id.generation + 1 };
            self.free.push(EntityId { index: id.index, generation: id.generation + 1 });
        } else {
            self.slots[id.index as usize] = Slot::Retired;
        }
        proof {
            let after = *self;
            assert forall|a: int| 0 <= a < after.archetypes.len() implies (#[trigger] after.archetypes[a]).wf() by {
                assert(mid.archetypes[a].wf());
            }
            assert forall|i: int| 0 <= i < after.slots.len() implies #[trigger] after.slot_placed(i) by {
                if i != id.index {
                    assert(mid.slot_placed(i));
                }
            }
            assert forall|a: int, q: int|
                0 <= a < after.archetypes.len() && 0 <= q < after.archetypes[a].entities.len() implies #[trigger] after.row_owned(
                a,
                q,
                None,
            ) by {
                assert(mid.row_owned(a, q, Some(id.index)));
            }
            assert forall|k: int| 0 <= k < after.free.len() implies #[trigger] after.free_entry(k, None) by {
                if k < mid.free.len() {
                    assert(mid.free_entry(k, Some(id.index)));
                }
            }
            assert(after.free@.no_duplicates()) by {
                assert forall|x: int, y: int|
                    0 <= x < after.free.len() && 0 <= y < after.free.len() && x != y implies after.free@[x]
                    != after.free@[y] by {
                    if x < mid.free.len() {
                        assert(mid.free_entry(x, Some(id.index)));
                    }
                    if y < mid.free.len() {
                        assert(mid.free_entry(y, Some(id.index)));
                    }
                }
            }
            assert(after.rest(id.index) =~= mid.rest(id.index));
            assert(after@ =~= after.rest(id.index));
            assert(before@.remove(id) =~= before.rest(id.index));
            assert forall|e: EntityId| before.issued(e) implies after.issued(e) by {
                assert(same_phase(mid.slots[e.index as int], before.slots[e.index as int]));
            }
        }
        true
    }
}


/// The position of `layout` in a signature.
fn column_of(signature: &Vec<u64>, layout: u64) -> (r: Option<usize>)
    requires
        strictly_sorted(signature@),
    ensures
        match r {
            Some(c) => c < signature.len() && signature@[c as int] == layout && signature@.contains(
                layout,
            ) && signature@.index_of(layout) == c,
            None => !signature@.contains(layout),
        },
{
    let mut c: usize = 0;
    while c < signature.len()
        invariant
            c <= signature.len(),
            strictly_sorted(signature@),
            forall|j: int| 0 <= j < c ==> signature@[j] != layout,
        decreases signature.len() - c,
    {
        if signature[c] == layout {
            proof {
                assert(signature@[c as int] == layout);
                assert(signature@.contains(layout));
                let k = signature@.index_of(layout);
                assert(0 <= k < signature@.len() && signature@[k] == layout);
                if k < c {
                    assert(signature@[k] < signature@[c as int]);
                } else if c < k {
                    assert(signature@[c as int] < signature@[k]);
                }
            }
            return Some(c);
        }
        c += 1;
    }
    None
}

impl World {
    /// Where the entity of a live id is stored.
    fn locate(&self, id: EntityId) -> (r: Option<(usize, usize)>)
        requires
            self.inv(None),
        ensures
            r is Some <==> self.live(id),
            r matches Some((a, q)) ==> {
                &&& a < self.archetypes.len()
                &&& q < self.archetypes[a as int].entities.len()
                &&& self.archetypes[a as int].wf()
                &&& self.slots[id.index as int] == Slot::Live {
                    generation: id.generation,
                    archetype: a,
                    row: q,
                }
                &&& self.components(id) == self.archetypes[a as int].row(q as int)
            },
    {
        if (id.index as usize) < self.slots.len() {
            match self.slots[id.index as usize] {
                Slot::Live { generation, archetype, row } => {
                    if generation == id.generation {
                        assert(self.slot_placed(id.index as int));
                        Some((archetype, row))
                    } else {
                        None
                    }
                },
                _ => None,
            }
        } else {
            None
        }
    }

    /// The bytes of one component of an entity.
    pub fn get(&self, id: EntityId, layout: u64) -> (r: Result<&Vec<u8>, NotFoundError>)
        requires
            self.wf(),
        ensures
            match r {
                Ok(bytes) => self@.contains_key(id) && self@[id].contains_key(layout) && bytes@
                    == self@[id][layout],
                Err(NotFoundError::StaleEntity) => !self@.contains_key(id),
                Err(NotFoundError::MissingComponent) => self@.contains_key(id) && !self@[id].contains_key(
                    layout,
                ),
            },
    {
        match self.locate(id) {
            None => Err(NotFoundError::StaleEntity),
            Some((a, q)) => match column_of(&self.archetypes[a].signature, layout) {
                None => Err(NotFoundError::MissingComponent),
                Some(c) => Ok(&self.archetypes[a].columns[c][q]),
            },
        }
    }

    /// Sets one component of an entity, adding the component if the entity
    /// has none of the layout. Fails, leaving the world as it is, when the
    /// entity is not alive.
    pub fn set(&mut self, id: EntityId, layout: u64, bytes: Vec<u8>) -> (r: Result<(), NotFoundError>)
        requires
            old(self).wf(),
        ensures
            final(self).wf(),
            forall|e: EntityId| old(self).issued(e) == final(self).issued(e),
            match r {
                Ok(()) => old(self)@.contains_key(id) && final(self)@ == old(self)@.insert(
                    id,
                    old(self)@[id].insert(layout, bytes@),
                ),
                Err(e) => e == NotFoundError::StaleEntity && !old(self)@.contains_key(id) && final(self)@ == old(self)@,
            },
    {
        let ghost before = *self;
        let (a, q) = match self.locate(id) {
            None => {
                return Err(NotFoundError::StaleEntity);
            },
            Some(found) => found,
        };
        match column_of(&self.archetypes[a].signature, layout) {
            Some(c) => {
                let ghost arch0 = before.archetypes[a as int];
                assert(arch0.columns[c as int].len() == arch0.entities.len());
                self.archetypes[a].columns[c][q] = bytes;
                proof {
                    let after = *self;
                    let arch1 = after.archetypes[a as int];
                    assert(arch1.wf()) by {
                        assert forall|k: int| 0 <= k < arch1.columns.len() implies (
                        #[trigger] arch1.columns[k]).len() == arch1.entities.len() by {
                            assert(arch0.columns[k].len() == arch0.entities.len());
                        }
                    }
                    assert forall|p: int| 0 <= p < arch0.entities.len() && p != q implies #[trigger] arch1.row(
                        p,
                    ) == arch0.row(p) by {
                        assert(arch1.row(p) =~= arch0.row(p));
                    }
                    assert(arch1.row(q as int) =~= arch0.row(q as int).insert(layout, bytes@)) by {
                        assert forall|l: u64| arch0.signature@.contains(l) && l != layout implies arch1.row(
                            q as int,
                        )[l] == arch0.row(q as int)[l] by {
                            let k = arch0.signature@.index_of(l);
                            assert(k != c);
                        }
                    }
                    assert forall|b: int| 0 <= b < after.archetypes.len() implies (
                    #[trigger] after.archetypes[b]).wf() by {
                        if b != a {
                            assert(before.archetypes[b].wf());
                        }
                    }
                    assert forall|i: int| 0 <= i < after.slots.len() implies #[trigger] after.slot_placed(
                        i,
                    ) by {
                        assert(before.slot_placed(i));
                    }
                    assert forall|b: int, p: int|
                        0 <= b < after.archetypes.len() && 0 <= p < after.archetypes[b].entities.len() implies #[trigger] after.row_owned(
                        b,
                        p,
                        None,
                    ) by {
                        assert(before.row_owned(b, p, None));
                    }
                    assert forall|k: int| 0 <= k < after.free.len() implies #[trigger] after.free_entry(
                        k,
                        None,
                    ) by {
                        assert(before.free_entry(k, None));
                    }
                    assert forall|e: EntityId| before.live(e) && e != id implies after.components(e)
                        == before.components(e) by {
                        assert(before.slot_placed(e.index as int));
                        assert(before.slot_placed(id.index as int));
                        if let Slot::Live { generation, archetype, row } = before.slots[e.index as int] {
                            if archetype == a {
                                assert(row != q);
                                assert(arch1.row(row as int) == arch0.row(row as int));
                            }
                        }
                    }
                    assert(after@ =~= before@.insert(id, before@[id].insert(layout, bytes@)));
                }
            },
            None => {
                let mut components = self.take_row(id.index, a, q);
                let ghost mid = *self;
                let ghost taken = components@;
                proof {
                    assert(before.components(id) == before.components(
                        EntityId { index: id.index, generation: 0 },
                    ));
                    assert(lists(taken, layout) == bag(taken).contains_key(layout));
                }
                insert_sorted(&mut components, layout, bytes);
                self.place_row(id, components);
                proof {
                    let after = *self;
                    assert(after@ =~= after.rest(id.index).insert(id, after.components(id)));
                    assert(before@ =~= before.rest(id.index).insert(id, before.components(id)));
                    assert(after@ =~= before@.insert(id, before@[id].insert(layout, bytes@)));
                    assert forall|e: EntityId| before.issued(e) == after.issued(e) by {
                        if e.index < before.slots.len() {
                            assert(same_phase(mid.slots[e.index as int], before.slots[e.index as int]));
                        }
                    }
                }
            },
        }
        Ok(())
    }

    /// Takes one component off an entity and returns its bytes. Fails,
    /// leaving the world as it is, when the entity is not alive or has no
    /// component of the layout.
    pub fn remove(&mut self, id: EntityId, layout: u64) -> (r: Result<Vec<u8>, NotFoundError>)
        requires
            old(self).wf(),
        ensures
            final(self).wf(),
            forall|e: EntityId| old(self).issued(e) == final(self).issued(e),
            match r {
                Ok(bytes) => {
                    &&& old(self)@.contains_key(id)
                    &&& old(self)@[id].contains_key(layout)
                    &&& bytes@ == old(self)@[id][layout]
                    &&& final(self)@ == old(self)@.insert(id, old(self)@[id].remove(layout))
                },
                Err(NotFoundError::StaleEntity) => !old(self)@.contains_key(id) && final(self)@ == old(self)@,
                Err(NotFoundError::MissingComponent) => old(self)@.contains_key(id) && !old(self)@[id].contains_key(layout) && final(self)@ == old(self)@,
            },
    {
        let ghost before = *self;
        let (a, q) = match self.locate(id) {
            None => {
                return Err(NotFoundError::StaleEntity);
            },
            Some(found) => found,
        };
        if column_of(&self.archetypes[a].signature, layout).is_none() {
            return Err(NotFoundError::MissingComponent);
        }
        let mut components = self.take_row(id.index, a, q);
        let ghost mid = *self;
        let ghost taken = components@;
        proof {
            assert(before.components(id) == before.components(
                EntityId { index: id.index, generation: 0 },
            ));
            assert(lists(taken, layout) == bag(taken).contains_key(layout));
        }
        let bytes = remove_sorted(&mut components, layout);
        self.place_row(id, components);
        proof {
            let after = *self;
            assert(after@ =~= after.rest(id.index).insert(id, after.components(id)));
            assert(before@ =~= before.rest(id.index).insert(id, before.components(id)));
            assert(after@ =~= before@.insert(id, before@[id].remove(layout)));
            assert forall|e: EntityId| before.issued(e) == after.issued(e) by {
                if e.index < before.slots.len() {
                    assert(same_phase(mid.slots[e.index as int], before.slots[e.index as int]));
                }
            }
        }
        Ok(bytes)
    }

}


/// One row of a query result: an entity and the bytes of its columns, in the
/// order of the plan. A column that the entity lacks shows nothing.
#[derive(Debug)]
pub struct QueryRow {
    pub entity: EntityId,
    pub immutable: Vec<Option<Vec<u8>>>,
    pub mutable: Vec<Option<Vec<u8>>>,
}

/// What `columns` show of an entity with the given components.
pub open spec fn cells_of(columns: Seq<Column>, components: Map<u64, Seq<u8>>) -> Seq<Option<Seq<u8>>> {
    Seq::new(
        columns.len(),
        |k: int|
            if components.contains_key(columns[k].id) {
                Some(components[columns[k].id])
            } else {
                None
            },
    )
}

/// The cells of a row as byte sequences.
pub open spec fn cells_view(cells: Seq<Option<Vec<u8>>>) -> Seq<Option<Seq<u8>>> {
    Seq::new(
        cells.len(),
        |k: int|
            match cells[k] {
                Some(bytes) => Some(bytes@),
                None => None,
            },
    )
}

impl QueryRow {
    /// The row shows the columns of `plan` for an entity with `components`.
    pub open spec fn shows(&self, plan: &QueryPlan, components: Map<u64, Seq<u8>>) -> bool {
        &&& cells_view(self.immutable@) == cells_of(plan.immutable@, components)
        &&& cells_view(self.mutable@) == cells_of(plan.mutable@, components)
    }
}

/// `rows` answer the query `plan` over the entities `world`: there is one
/// row for each entity that the plan selects and no other row, and each row
/// shows the columns of its entity.
pub open spec fn answers(
    rows: Seq<QueryRow>,
    plan: &QueryPlan,
    world: Map<EntityId, Map<u64, Seq<u8>>>,
) -> bool {
    &&& forall|k: int|
        0 <= k < rows.len() ==> {
            &&& world.contains_key((#[trigger] rows[k]).entity)
            &&& plan.matches(world[rows[k].entity].dom())
            &&& rows[k].shows(plan, world[rows[k].entity])
        }
    &&& forall|e: EntityId|
        #[trigger] world.contains_key(e) && plan.matches(world[e].dom()) ==> exists|k: int|
            0 <= k < rows.len() && (#[trigger] rows[k]).entity == e
    &&& forall|j: int, k: int|
        0 <= j < k < rows.len() ==> (#[trigger] rows[j]).entity != (#[trigger] rows[k]).entity
}

impl World {
    /// What `columns` show of the row `q` of archetype `a`.
    fn read_cells(&self, a: usize, q: usize, columns: &Vec<Column>) -> (cells: Vec<Option<Vec<u8>>>)
        requires
            a < self.archetypes.len(),
            self.archetypes[a as int].wf(),
            q < self.archetypes[a as int].entities.len(),
        ensures
            cells_view(cells@) == cells_of(columns@, self.archetypes[a as int].row(q as int)),
    {
        let mut cells: Vec<Option<Vec<u8>>> = Vec::new();
        let mut k: usize = 0;
        while k < columns.len()
            invariant
                k <= columns.len(),
                a < self.archetypes.len(),
                self.archetypes[a as int].wf(),
                q < self.archetypes[a as int].entities.len(),
                cells.len() == k,
                forall|j: int|
                    0 <= j < k ==> cells_view(cells@)[j] == cells_of(
                        columns@,
                        self.archetypes[a as int].row(q as int),
                    )[j],
            decreases columns.len() - k,
        {
            let ghost shown = cells@;
            let cell = match column_of(&self.archetypes[a].signature, columns[k].id) {
                Some(c) => {
                    assert(self.archetypes[a as int].columns[c as int].len()
                        == self.archetypes[a as int].entities.len());
                    Some(crate::components::copy_bytes(&self.archetypes[a].columns[c][q]))
                },
                None => None,
            };
            cells.push(cell);
            proof {
                assert forall|j: int| 0 <= j < k + 1 implies cells_view(cells@)[j] == cells_of(
                    columns@,
                    self.archetypes[a as int].row(q as int),
                )[j] by {
                    if j < k {
                        assert(cells@[j] == shown[j]);
                        assert(cells_view(shown)[j] == cells_of(
                            columns@,
                            self.archetypes[a as int].row(q as int),
                        )[j]);
                    }
                }
            }
            k += 1;
        }
        assert(cells_view(cells@) =~= cells_of(columns@, self.archetypes[a as int].row(q as int)));
        cells
    }

    /// Runs a compiled query: one row per entity that the plan selects,
    /// archetype by archetype in the order of their creation.
    pub fn query(&self, plan: &QueryPlan) -> (rows: Vec<QueryRow>)
        requires
            self.wf(),
        ensures
            answers(rows@, plan, self@),
    {
        let mut rows: Vec<QueryRow> = Vec::new();
        let mut a: usize = 0;
        while a < self.archetypes.len()
            invariant
                a <= self.archetypes.len(),
                self.inv(None),
                forall|k: int| 0 <= k < rows.len() ==> self.row_found(#[trigger] rows@[k], plan, a as int, 0),
                forall|j: int, k: int|
                    0 <= j < k < rows.len() ==> (#[trigger] rows@[j]).entity != (#[trigger] rows@[k]).entity,
                forall|b: int, q: int|
                    0 <= b < a && 0 <= q < self.archetypes[b].entities.len() && plan.matches(
                        self.archetypes[b].signature@.to_set(),
                    ) ==> Self::has_row(rows@, #[trigger] self.archetypes[b].entities[q]),
            decreases self.archetypes.len() - a,
        {
            assert(self.archetypes[a as int].wf());
            if plan.matches_signature(&self.archetypes[a].signature) {
                let mut q: usize = 0;
                while q < self.archetypes[a].entities.len()
                    invariant
                        a < self.archetypes.len(),
                        q <= self.archetypes[a as int].entities.len(),
                        self.inv(None),
                        self.archetypes[a as int].wf(),
                        plan.matches(self.archetypes[a as int].signature@.to_set()),
                        forall|k: int|
                            0 <= k < rows.len() ==> self.row_found(#[trigger] rows@[k], plan, a as int, q as int),
                        forall|j: int, k: int|
                            0 <= j < k < rows.len() ==> (#[trigger] rows@[j]).entity != (
                            #[trigger] rows@[k]).entity,
                        forall|b: int, p: int|
                            0 <= b < a && 0 <= p < self.archetypes[b].entities.len() && plan.matches(
                                self.archetypes[b].signature@.to_set(),
                            ) ==> Self::has_row(rows@, #[trigger] self.archetypes[b].entities[p]),
                        forall|p: int|
                            0 <= p < q ==> Self::has_row(
                                rows@,
                                #[trigger] self.archetypes[a as int].entities[p],
                            ),
                    decreases self.archetypes[a as int].entities.len() - q,
                {
                    let entity = self.archetypes[a].entities[q];
                    let immutable = self.read_cells(a, q, &plan.immutable);
                    let mutable = self.read_cells(a, q, &plan.mutable);
                    let ghost shown = rows@;
                    rows.push(QueryRow { entity, immutable, mutable });
                    proof {
                        assert(self.row_owned(a as int, q as int, None));
                        assert(self.archetypes[a as int].row(q as int).dom()
                            =~= self.archetypes[a as int].signature@.to_set());
                        assert forall|k: int| 0 <= k < rows.len() implies self.row_found(
                            #[trigger] rows@[k],
                            plan,
                            a as int,
                            q + 1,
                        ) by {
                            if k < shown.len() {
                                assert(rows@[k] == shown[k]);
                                assert(self.row_found(shown[k], plan, a as int, q as int));
                            }
                        }
                        assert forall|j: int, k: int| 0 <= j < k < rows.len() implies (
                        #[trigger] rows@[j]).entity != (#[trigger] rows@[k]).entity by {
                            assert(rows@[j] == shown[j]);
                            assert(self.row_found(shown[j], plan, a as int, q as int));
                            if k < shown.len() {
                                assert(rows@[k] == shown[k]);
                            }
                        }
                        assert forall|b: int, p: int|
                            0 <= b < a && 0 <= p < self.archetypes[b].entities.len() && plan.matches(
                                self.archetypes[b].signature@.to_set(),
                            ) implies Self::has_row(rows@, #[trigger] self.archetypes[b].entities[p]) by {
                            Self::has_row_grows(shown, rows@, self.archetypes[b].entities[p]);
                        }
                        assert forall|p: int| 0 <= p < q + 1 implies Self::has_row(
                            rows@,
                            #[trigger] self.archetypes[a as int].entities[p],
                        ) by {
                            if p < q {
                                Self::has_row_grows(shown, rows@, self.archetypes[a as int].entities[p]);
                            } else {
                                assert(rows@[shown.len() as int].entity == entity);
                            }
                        }
                    }
                    q += 1;
                }
            }
            proof {
                assert forall|k: int| 0 <= k < rows.len() implies self.row_found(
                    #[trigger] rows@[k],
                    plan,
                    a + 1,
                    0,
                ) by {
                    assert(self.row_found(rows@[k], plan, a as int, 0) || self.row_found(
                        rows@[k],
                        plan,
                        a as int,
                        self.archetypes[a as int].entities.len() as int,
                    ));
                    assert(self.slot_placed(rows@[k].entity.index as int));
                }
            }
            a += 1;
        }
        proof {
            assert forall|k: int| 0 <= k < rows.len() implies {
                &&& self@.contains_key((#[trigger] rows@[k]).entity)
                &&& plan.matches(self@[rows@[k].entity].dom())
                &&& rows@[k].shows(plan, self@[rows@[k].entity])
            } by {
                assert(self.row_found(rows@[k], plan, a as int, 0));
            }
            assert forall|e: EntityId| #[trigger]
                self@.contains_key(e) && plan.matches(self@[e].dom()) implies exists|k: int|
                0 <= k < rows.len() && (#[trigger] rows@[k]).entity == e by {
                assert(self.slot_placed(e.index as int));
                if let Slot::Live { generation, archetype, row } = self.slots[e.index as int] {
                    assert(self.archetypes[archetype as int].row(row as int).dom()
                        =~= self.archetypes[archetype as int].signature@.to_set());
                    assert(Self::has_row(rows@, self.archetypes[archetype as int].entities[row as int]));
                }
            }
        }
        rows
    }

    /// Some row is the row of `entity`.
    spec fn has_row(rows: Seq<QueryRow>, entity: EntityId) -> bool {
        exists|k: int| 0 <= k < rows.len() && (#[trigger] rows[k]).entity == entity
    }

    proof fn has_row_grows(shown: Seq<QueryRow>, rows: Seq<QueryRow>, entity: EntityId)
        requires
            Self::has_row(shown, entity),
            shown.len() <= rows.len(),
            forall|k: int| 0 <= k < shown.len() ==> rows[k] == shown[k],
        ensures
            Self::has_row(rows, entity),
    {
        let k = choose|k: int| 0 <= k < shown.len() && (#[trigger] shown[k]).entity == entity;
        assert(rows[k].entity == entity);
    }

    /// The row belongs to a live entity that the plan selects, shows its
    /// columns, and was found before row `q` of archetype `a` was reached.
    spec fn row_found(&self, row: QueryRow, plan: &QueryPlan, a: int, q: int) -> bool {
        &&& self.live(row.entity)
        &&& plan.matches(self.components(row.entity).dom())
        &&& row.shows(plan, self.components(row.entity))
        &&& self.slots[row.entity.index as int] matches Slot::Live { archetype, row: at, .. }
        &&& (archetype < a || (archetype == a && at < q))
    }
}


/// The entities after the first `count` write cells of `row` have been
/// stored. A cell that shows nothing, or whose entity is gone, stores
/// nothing.
pub open spec fn written(
    world: Map<EntityId, Map<u64, Seq<u8>>>,
    columns: Seq<Column>,
    row: QueryRow,
    count: nat,
) -> Map<EntityId, Map<u64, Seq<u8>>>
    decreases count,
{
    if count == 0 || count > columns.len() || count > row.mutable.len() {
        world
    } else {
        let prev = written(world, columns, row, (count - 1) as nat);
        match row.mutable[count - 1] {
            Some(bytes) => if prev.contains_key(row.entity) {
                prev.insert(row.entity, prev[row.entity].insert(columns[count - 1].id, bytes@))
            } else {
                prev
            },
            None => prev,
        }
    }
}

/// How many write cells of `row` the columns account for.
pub open spec fn write_cells(columns: Seq<Column>, row: QueryRow) -> nat {
    if columns.len() <= row.mutable@.len() {
        columns.len()
    } else {
        row.mutable@.len()
    }
}

/// The entities after the write cells of the first `count` rows have been
/// stored, row by row.
pub open spec fn committed(
    world: Map<EntityId, Map<u64, Seq<u8>>>,
    columns: Seq<Column>,
    rows: Seq<QueryRow>,
    count: nat,
) -> Map<EntityId, Map<u64, Seq<u8>>>
    decreases count,
{
    if count == 0 || count > rows.len() {
        world
    } else {
        let prev = committed(world, columns, rows, (count - 1) as nat);
        written(prev, columns, rows[count - 1], write_cells(columns, rows[count - 1]))
    }
}

impl World {
    /// Stores the write cells of the rows that a guest sends back: the cell
    /// of each write column of the plan replaces the component of the row's
    /// entity. Rows of entities that are gone store nothing; the result tells
    /// whether there was such a row.
    pub fn commit(&mut self, plan: &QueryPlan, rows: &Vec<QueryRow>) -> (r: Result<(), NotFoundError>)
        requires
            old(self).wf(),
        ensures
            final(self).wf(),
            forall|e: EntityId| old(self).issued(e) == final(self).issued(e),
            final(self)@ == committed(old(self)@, plan.mutable@, rows@, rows@.len()),
            r is Ok <==> forall|k: int|
                0 <= k < rows.len() ==> old(self)@.contains_key((#[trigger] rows@[k]).entity),
            r matches Err(e) ==> e == NotFoundError::StaleEntity,
    {
        let ghost before = *self;
        let mut all_live = true;
        let mut i: usize = 0;
        while i < rows.len()
            invariant
                i <= rows.len(),
                self.wf(),
                forall|e: EntityId| before.issued(e) == self.issued(e),
                self@.dom() == before@.dom(),
                self@ == committed(before@, plan.mutable@, rows@, i as nat),
                all_live <==> forall|k: int|
                    0 <= k < i ==> before@.contains_key((#[trigger] rows@[k]).entity),
            decreases rows.len() - i,
        {
            let row = &rows[i];
            if !self.is_live(row.entity) {
                all_live = false;
            }
            let cells = if plan.mutable.len() <= row.mutable.len() {
                plan.mutable.len()
            } else {
                row.mutable.len()
            };
            let ghost start = self@;
            let mut k: usize = 0;
            while k < cells
                invariant
                    k <= cells,
                    cells == write_cells(plan.mutable@, *row),
                    self.wf(),
                    forall|e: EntityId| before.issued(e) == self.issued(e),
                    self@.dom() == before@.dom(),
                    self@ == written(start, plan.mutable@, *row, k as nat),
                decreases cells - k,
            {
                match &row.mutable[k] {
                    Some(bytes) => {
                        let ghost prev = self@;
                        let _ = self.set(row.entity, plan.mutable[k].id, crate::components::copy_bytes(bytes));
                        assert(self@.dom() =~= prev.dom());
                    },
                    None => {},
                }
                k += 1;
            }
            i += 1;
        }
        if all_live {
            Ok(())
        } else {
            Err(NotFoundError::StaleEntity)
        }
    }
}


/// The entities of the rows, in order.
pub open spec fn entities_of(rows: Seq<QueryRow>) -> Seq<EntityId> {
    Seq::new(rows.len(), |k: int| rows[k].entity)
}

/// Whatever the order of the rows, and however the entities are stored, a
/// query yields each entity that its plan selects once, and no other.
pub proof fn answer_is_selection(
    rows: Seq<QueryRow>,
    plan: &QueryPlan,
    world: Map<EntityId, Map<u64, Seq<u8>>>,
)
    requires
        answers(rows, plan, world),
    ensures
        entities_of(rows).no_duplicates(),
        entities_of(rows).to_set() == Set::new(
            |e: EntityId| world.contains_key(e) && plan.matches(world[e].dom()),
        ),
{
    let entities = entities_of(rows);
    let selected = Set::new(|e: EntityId| world.contains_key(e) && plan.matches(world[e].dom()));
    assert forall|j: int, k: int| 0 <= j < entities.len() && 0 <= k < entities.len() && j != k implies entities[j]
        != entities[k] by {
        if j < k {
            assert(rows[j].entity != rows[k].entity);
        } else {
            assert(rows[k].entity != rows[j].entity);
        }
    }
    assert forall|e: EntityId| entities.to_set().contains(e) <==> selected.contains(e) by {
        if entities.to_set().contains(e) {
            let k = choose|k: int| 0 <= k < entities.len() && entities[k] == e;
            assert(world.contains_key(rows[k].entity));
        }
        if selected.contains(e) {
            assert(world.contains_key(e));
            let k = choose|k: int| 0 <= k < rows.len() && (#[trigger] rows[k]).entity == e;
            assert(entities[k] == e);
        }
    }
    assert(entities.to_set() =~= selected);
}

/// No two write cells of an answer stand for the same component of the same
/// entity, and no write cell stands for a component that a read cell shows.
pub proof fn write_cells_never_alias(
    rows: Seq<QueryRow>,
    plan: &QueryPlan,
    world: Map<EntityId, Map<u64, Seq<u8>>>,
    j: int,
    a: int,
    k: int,
    b: int,
)
    requires
        answers(rows, plan, world),
        plan.wf(),
        0 <= j < rows.len(),
        0 <= k < rows.len(),
        0 <= a < plan.mutable@.len(),
    ensures
        0 <= b < plan.mutable@.len() && (j != k || a != b) ==> (rows[j].entity, plan.mutable@[a].id) != (
            rows[k].entity,
            plan.mutable@[b].id,
        ),
        0 <= b < plan.immutable@.len() ==> plan.mutable@[a].id != plan.immutable@[b].id,
{
    if 0 <= b < plan.mutable@.len() && (j != k || a != b) {
        if j < k {
            assert(rows[j].entity != rows[k].entity);
        } else if k < j {
            assert(rows[k].entity != rows[j].entity);
        } else if a < b {
            assert(plan.mutable@[a].id != plan.mutable@[b].id);
        } else {
            assert(plan.mutable@[b].id != plan.mutable@[a].id);
        }
    }
    if 0 <= b < plan.immutable@.len() {
        assert(plan.immutable@[b].id != plan.mutable@[a].id);
    }
}

impl World {
    /// The id of every live entity has been handed out.
    pub proof fn live_is_issued(&self, id: EntityId)
        requires
            self@.contains_key(id),
        ensures
            self.issued(id),
    {
    }

    /// An id that is handed out never collides with an id that was valid
    /// before: no operation takes back that an id has been handed out, and
    /// a spawn hands out an id that has not been.
    pub proof fn fresh_id_is_new(before: &World, later: &World, known: EntityId, fresh: EntityId)
        requires
            before@.contains_key(known),
            forall|e: EntityId| before.issued(e) ==> later.issued(e),
            !later.issued(fresh),
        ensures
            known != fresh,
    {
        before.live_is_issued(known);
    }
}

} // verus!

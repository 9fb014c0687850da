//! Component lists: the serialized components of one entity, keyed by
//! layout id.

use vstd::prelude::*;

verus! {

/// The layout ids of a component list, in order.
pub open spec fn ids_of(components: Seq<(u64, Vec<u8>)>) -> Seq<u64> {
    Seq::new(components.len(), |i: int| components[i].0)
}

/// Whether `id` has a component in the list.
pub open spec fn lists(components: Seq<(u64, Vec<u8>)>, id: u64) -> bool {
    exists|i: int| 0 <= i < components.len() && (#[trigger] components[i]).0 == id
}

/// The component list as a map from layout id to bytes. Where an id is
/// listed more than once, the map holds one of its entries.
pub open spec fn bag(components: Seq<(u64, Vec<u8>)>) -> Map<u64, Seq<u8>> {
    Map::new(
        |id: u64| lists(components, id),
        |id: u64|
            components[choose|i: int| 0 <= i < components.len() && (#[trigger] components[i]).0 == id].1@,
    )
}

/// No layout id is listed twice.
pub open spec fn distinct_ids(components: Seq<(u64, Vec<u8>)>) -> bool {
    forall|i: int, j: int|
        0 <= i < j < components.len() ==> (#[trigger] components[i]).0 != (#[trigger] components[j]).0
}

/// The ids rise strictly from each element to the next.
pub open spec fn strictly_sorted(ids: Seq<u64>) -> bool {
    forall|i: int, j: int| 0 <= i < j < ids.len() ==> ids[i] < ids[j]
}

/// In a list without repeated ids, every entry is the one the map holds.
pub proof fn bag_holds_entries(components: Seq<(u64, Vec<u8>)>)
    requires
        distinct_ids(components),
    ensures
        forall|i: int|
            0 <= i < components.len() ==> bag(components).contains_key(
                (#[trigger] components[i]).0,
            ) && bag(components)[components[i].0] == components[i].1@,
{
    assert forall|i: int| 0 <= i < components.len() implies bag(components).contains_key(
        (#[trigger] components[i]).0,
    ) && bag(components)[components[i].0] == components[i].1@ by {
        let id = components[i].0;
        let k = choose|k: int| 0 <= k < components.len() && (#[trigger] components[k]).0 == id;
        if k < i {
            assert(components[k].0 != components[i].0);
        } else if i < k {
            assert(components[i].0 != components[k].0);
        }
    }
}

/// The list holds an entry of `bytes` under `id`.
pub open spec fn holds(components: Seq<(u64, Vec<u8>)>, id: u64, bytes: Seq<u8>) -> bool {
    exists|j: int|
        0 <= j < components.len() && (#[trigger] components[j]).0 == id && components[j].1@ == bytes
}

/// Two lists without repeated ids that hold the same entries are the same map.
pub proof fn bag_by_entries(a: Seq<(u64, Vec<u8>)>, b: Seq<(u64, Vec<u8>)>)
    requires
        distinct_ids(a),
        distinct_ids(b),
        forall|i: int| 0 <= i < a.len() ==> holds(b, (#[trigger] a[i]).0, a[i].1@),
        forall|j: int| 0 <= j < b.len() ==> holds(a, (#[trigger] b[j]).0, b[j].1@),
    ensures
        bag(a) == bag(b),
{
    bag_holds_entries(a);
    bag_holds_entries(b);
    assert forall|id: u64| bag(a).contains_key(id) implies bag(b).contains_key(id) && bag(a)[id] == bag(
        b,
    )[id] by {
        let i = choose|i: int| 0 <= i < a.len() && (#[trigger] a[i]).0 == id;
        assert(holds(b, a[i].0, a[i].1@));
        let j = choose|j: int| 0 <= j < b.len() && (#[trigger] b[j]).0 == id && b[j].1@ == a[i].1@;
        assert(b[j].0 == id);
    }
    assert forall|id: u64| bag(b).contains_key(id) implies bag(a).contains_key(id) by {
        let j = choose|j: int| 0 <= j < b.len() && (#[trigger] b[j]).0 == id;
        assert(holds(a, b[j].0, b[j].1@));
        let i = choose|i: int| 0 <= i < a.len() && (#[trigger] a[i]).0 == id && a[i].1@ == b[j].1@;
        assert(a[i].0 == id);
    }
    assert(bag(a) =~= bag(b));
}

/// Adding an entry under an id that is not yet listed, at any position,
/// inserts it into the map.
pub proof fn bag_insert(components: Seq<(u64, Vec<u8>)>, at: int, entry: (u64, Vec<u8>))
    requires
        distinct_ids(components),
        !lists(components, entry.0),
        0 <= at <= components.len(),
    ensures
        distinct_ids(components.insert(at, entry)),
        bag(components.insert(at, entry)) == bag(components).insert(entry.0, entry.1@),
{
    let after = components.insert(at, entry);
    assert forall|i: int, j: int| 0 <= i < j < after.len() implies (#[trigger] after[i]).0 != (
    #[trigger] after[j]).0 by {
        let oi = if i < at { i } else { i - 1 };
        let oj = if j < at { j } else { j - 1 };
        if i != at && j != at {
            assert(after[i] == components[oi]);
            assert(after[j] == components[oj]);
            assert(components[oi].0 != components[oj].0);
        } else if i == at {
            assert(after[j] == components[oj]);
            assert(components[oj].0 == after[j].0);
        } else {
            assert(after[i] == components[oi]);
            assert(components[oi].0 == after[i].0);
        }
    }
    bag_holds_entries(components);
    bag_holds_entries(after);
    let target = bag(components).insert(entry.0, entry.1@);
    assert forall|id: u64| bag(after).contains_key(id) implies target.contains_key(id) && bag(after)[id]
        == target[id] by {
        let i = choose|i: int| 0 <= i < after.len() && (#[trigger] after[i]).0 == id;
        if i != at {
            let oi = if i < at { i } else { i - 1 };
            assert(after[i] == components[oi]);
            assert(components[oi].0 == id);
        }
    }
    assert forall|id: u64| target.contains_key(id) implies bag(after).contains_key(id) by {
        if id == entry.0 {
            assert(after[at].0 == id);
        } else {
            let oi = choose|i: int| 0 <= i < components.len() && (#[trigger] components[i]).0 == id;
            let i = if oi < at { oi } else { oi + 1 };
            assert(after[i] == components[oi]);
            assert(after[i].0 == id);
        }
    }
    assert(bag(after) =~= target);
}

/// The position at which an entry under `id` keeps the list sorted: the
/// first position whose id is not below `id`.
pub fn insertion_point(components: &Vec<(u64, Vec<u8>)>, id: u64) -> (at: usize)
    requires
        strictly_sorted(ids_of(components@)),
    ensures
        at <= components.len(),
        forall|i: int| 0 <= i < at ==> (#[trigger] components@[i]).0 < id,
        forall|i: int| at <= i < components.len() ==> (#[trigger] components@[i]).0 >= id,
        lists(components@, id) <==> (at < components.len() && components@[at as int].0 == id),
{
    let mut at: usize = 0;
    while at < components.len() && components[at].0 < id
        invariant
            at <= components.len(),
            forall|i: int| 0 <= i < at ==> (#[trigger] components@[i]).0 < id,
        decreases components.len() - at,
    {
        at += 1;
    }
    proof {
        assert forall|i: int| at <= i < components.len() implies (#[trigger] components@[i]).0 >= id by {
            if at < i {
                assert(ids_of(components@)[at as int] < ids_of(components@)[i]);
            }
        }
        if lists(components@, id) {
            let k = choose|k: int| 0 <= k < components.len() && (#[trigger] components@[k]).0 == id;
            if k > at {
                assert(ids_of(components@)[at as int] < ids_of(components@)[k]);
            }
        }
    }
    at
}

/// Sorted lists list no id twice.
pub proof fn sorted_is_distinct(components: Seq<(u64, Vec<u8>)>)
    requires
        strictly_sorted(ids_of(components)),
    ensures
        distinct_ids(components),
{
    assert forall|i: int, j: int| 0 <= i < j < components.len() implies (#[trigger] components[i]).0 != (
    #[trigger] components[j]).0 by {
        assert(ids_of(components)[i] < ids_of(components)[j]);
    }
}

/// A copy of the bytes.
pub fn copy_bytes(bytes: &Vec<u8>) -> (r: Vec<u8>)
    ensures
        r@ == bytes@,
{
    let r = bytes.clone();
    assert(r@ =~= bytes@);
    r
}

/// Removing an entry removes its id from the map.
pub proof fn bag_remove(components: Seq<(u64, Vec<u8>)>, at: int)
    requires
        distinct_ids(components),
        0 <= at < components.len(),
    ensures
        distinct_ids(components.remove(at)),
        !lists(components.remove(at), components[at].0),
        bag(components.remove(at)) == bag(components).remove(components[at].0),
{
    let after = components.remove(at);
    assert forall|i: int, j: int| 0 <= i < j < after.len() implies (#[trigger] after[i]).0 != (
    #[trigger] after[j]).0 by {
        let oi = if i < at { i } else { i + 1 };
        let oj = if j < at { j } else { j + 1 };
        assert(after[i] == components[oi]);
        assert(after[j] == components[oj]);
        assert(components[oi].0 != components[oj].0);
    }
    if lists(after, components[at].0) {
        let i = choose|i: int| 0 <= i < after.len() && (#[trigger] after[i]).0 == components[at].0;
        let oi = if i < at { i } else { i + 1 };
        assert(after[i] == components[oi]);
        if oi < at {
            assert(components[oi].0 != components[at].0);
        } else {
            assert(components[at].0 != components[oi].0);
        }
    }
    bag_holds_entries(components);
    bag_holds_entries(after);
    let target = bag(components).remove(components[at].0);
    assert forall|id: u64| bag(after).contains_key(id) implies target.contains_key(id) && bag(after)[id]
        == target[id] by {
        let i = choose|i: int| 0 <= i < after.len() && (#[trigger] after[i]).0 == id;
        let oi = if i < at { i } else { i + 1 };
        assert(after[i] == components[oi]);
        assert(components[oi].0 == id);
    }
    assert forall|id: u64| target.contains_key(id) implies bag(after).contains_key(id) by {
        let oi = choose|i: int| 0 <= i < components.len() && (#[trigger] components[i]).0 == id;
        let i = if oi < at { oi } else { oi - 1 };
        assert(after[i] == components[oi]);
        assert(after[i].0 == id);
    }
    assert(bag(after) =~= target);
}

/// Adds an entry under an id that is not yet listed, keeping the list sorted.
pub fn insert_sorted(components: &mut Vec<(u64, Vec<u8>)>, id: u64, bytes: Vec<u8>)
    requires
        strictly_sorted(ids_of(old(components)@)),
        !lists(old(components)@, id),
    ensures
        strictly_sorted(ids_of(final(components)@)),
        bag(final(components)@) == bag(old(components)@).insert(id, bytes@),
        final(components).len() == old(components).len() + 1,
{
    let at = insertion_point(components, id);
    let ghost prev = components@;
    proof {
        sorted_is_distinct(prev);
        bag_insert(prev, at as int, (id, bytes));
    }
    components.insert(at, (id, bytes));
    proof {
        assert forall|a: int, b: int| 0 <= a < b < components.len() implies ids_of(components@)[a] < ids_of(
            components@,
        )[b] by {
            let oa = if a < at { a } else { a - 1 };
            let ob = if b < at { b } else { b - 1 };
            if a != at && b != at {
                assert(ids_of(prev)[oa] < ids_of(prev)[ob]);
            } else if a == at {
                assert(prev[ob].0 >= id);
                assert(prev[ob].0 != id);
            } else {
                assert(prev[oa].0 < id);
            }
        }
    }
}

/// Takes the entry under `id` out of a sorted list that holds one.
pub fn remove_sorted(components: &mut Vec<(u64, Vec<u8>)>, id: u64) -> (bytes: Vec<u8>)
    requires
        strictly_sorted(ids_of(old(components)@)),
        lists(old(components)@, id),
    ensures
        strictly_sorted(ids_of(final(components)@)),
        bytes@ == bag(old(components)@)[id],
        bag(final(components)@) == bag(old(components)@).remove(id),
        final(components).len() + 1 == old(components).len(),
{
    let at = insertion_point(components, id);
    let ghost prev = components@;
    proof {
        sorted_is_distinct(prev);
        bag_remove(prev, at as int);
        bag_holds_entries(prev);
    }
    let entry = components.remove(at);
    proof {
        assert forall|a: int, b: int| 0 <= a < b < components.len() implies ids_of(components@)[a] < ids_of(
            components@,
        )[b] by {
            let oa = if a < at { a } else { a + 1 };
            let ob = if b < at { b } else { b + 1 };
            assert(ids_of(prev)[oa] < ids_of(prev)[ob]);
        }
    }
    entry.1
}

/// Sorts a component list by layout id. Yields nothing exactly when some id
/// is listed twice.
pub fn normalize(components: &Vec<(u64, Vec<u8>)>) -> (r: Option<Vec<(u64, Vec<u8>)>>)
    ensures
        r is Some <==> distinct_ids(components@),
        r matches Some(sorted) ==> strictly_sorted(ids_of(sorted@)) && bag(sorted@) == bag(
            components@,
        ) && sorted.len() == components.len(),
{
    let mut sorted: Vec<(u64, Vec<u8>)> = Vec::new();
    let mut i: usize = 0;
    while i < components.len()
        invariant
            i <= components.len(),
            sorted.len() == i,
            strictly_sorted(ids_of(sorted@)),
            distinct_ids(components@.take(i as int)),
            bag(sorted@) == bag(components@.take(i as int)),
        decreases components.len() - i,
    {
        let id = components[i].0;
        let at = insertion_point(&sorted, id);
        let ghost before = components@.take(i as int);
        let ghost next = components@.take(i + 1);
        proof {
            assert(next =~= before.insert(i as int, components@[i as int]));
            assert(lists(sorted@, id) == bag(sorted@).contains_key(id));
            assert(lists(before, id) == bag(before).contains_key(id));
        }
        if at < sorted.len() && sorted[at].0 == id {
            proof {
                let k = choose|k: int| 0 <= k < before.len() && (#[trigger] before[k]).0 == id;
                assert(components@[k] == before[k]);
                assert(components@[k].0 == components@[i as int].0);
            }
            return None;
        }
        let bytes = copy_bytes(&components[i].1);
        proof {
            bag_insert(before, i as int, components@[i as int]);
        }
        insert_sorted(&mut sorted, id, bytes);
        i += 1;
    }
    assert(components@.take(i as int) =~= components@);
    Some(sorted)
}

} // verus!

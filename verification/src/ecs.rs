//! Entity-component vocabulary shared by host and guest.

pub mod type_layout;

use crate::ecs::type_layout::{IntoTypeLayout, LayoutView, TypeLayout};
use vstd::prelude::*;

verus! {

/// A compositional description of what a query reads, writes and filters on.
#[derive(Debug)]
pub enum QueryAccess {
    /// Demands nothing.
    Empty,
    /// A shared view of the component.
    Read(TypeLayout),
    /// An exclusive view of the component.
    Write(TypeLayout),
    /// The views below yield a null item where the component is missing.
    Optional(Box<QueryAccess>),
    /// The component must be present; it yields no data.
    With(TypeLayout, Box<QueryAccess>),
    /// The component must be absent; it yields no data.
    Without(TypeLayout, Box<QueryAccess>),
    /// Several accesses over the same entity.
    Union(Vec<QueryAccess>),
}

/// What a leaf of an access tree asks for.
#[derive(Clone, Copy, Debug, PartialEq, Eq, Structural)]
pub enum LeafKind {
    Read,
    Write,
    With,
    Without,
}

/// A leaf of an access tree: what it asks for, of which layout, and whether
/// it stands below an `Optional`.
pub struct Leaf {
    pub kind: LeafKind,
    pub layout: LayoutView,
    pub optional: bool,
}

/// The leaves of `access` in left-to-right order. `optional` says whether the
/// tree itself stands below an `Optional`; nesting `Optional` changes nothing.
pub open spec fn leaves(access: QueryAccess, optional: bool) -> Seq<Leaf>
    decreases access, 0nat,
{
    match access {
        QueryAccess::Empty => Seq::empty(),
        QueryAccess::Read(layout) => seq![Leaf { kind: LeafKind::Read, layout: layout@, optional }],
        QueryAccess::Write(layout) => seq![Leaf { kind: LeafKind::Write, layout: layout@, optional }],
        QueryAccess::Optional(inner) => leaves(*inner, true),
        QueryAccess::With(layout, inner) => seq![
            Leaf { kind: LeafKind::With, layout: layout@, optional },
        ] + leaves(*inner, optional),
        QueryAccess::Without(layout, inner) => seq![
            Leaf { kind: LeafKind::Without, layout: layout@, optional },
        ] + leaves(*inner, optional),
        QueryAccess::Union(children) => union_leaves(children, children.len() as nat, optional),
    }
}

/// The leaves of the first `count` children of a union, in order.
pub open spec fn union_leaves(children: Vec<QueryAccess>, count: nat, optional: bool) -> Seq<Leaf>
    decreases children, count,
{
    if count == 0 || count > children.len() {
        Seq::empty()
    } else {
        union_leaves(children, (count - 1) as nat, optional) + leaves(
            children[count - 1],
            optional,
        )
    }
}

impl QueryAccess {
    /// A shared view of `T`.
    pub fn read<T: Component>() -> (r: Self)
        ensures
            leaves(r, false) == seq![
                Leaf { kind: LeafKind::Read, layout: T::spec_layout(), optional: false },
            ],
            r is Read,
    {
        QueryAccess::Read(T::layout())
    }

    /// An exclusive view of `T`.
    pub fn write<T: Component>() -> (r: Self)
        ensures
            leaves(r, false) == seq![
                Leaf { kind: LeafKind::Write, layout: T::spec_layout(), optional: false },
            ],
            r is Write,
    {
        QueryAccess::Write(T::layout())
    }

    /// The accesses of a tuple query, in order.
    pub fn union(accesses: Vec<QueryAccess>) -> (r: Self)
        ensures
            r == QueryAccess::Union(accesses),
    {
        QueryAccess::Union(accesses)
    }
}

/// Types that can be stored as components.
pub trait Component: IntoTypeLayout + 'static {

}

impl<T> Component for T where T: IntoTypeLayout + 'static {

}

/// A query described by a type: what it fetches of each entity.
pub trait WorldQuery {
    type Fetch: Fetch;
}

/// The way one part of a query is fetched.
pub trait Fetch: Sized {
    type Item;

    /// The leaves of the access tree that `access` builds.
    spec fn spec_leaves() -> Seq<Leaf>;

    /// The access that the fetch demands.
    fn access() -> (r: QueryAccess)
        ensures
            leaves(r, false) == Self::spec_leaves(),
    ;
}

/// Fetches a shared view of a component.
pub struct FetchRead<T>(pub T);

/// Fetches an exclusive view of a component.
pub struct FetchWrite<T>(pub T);

impl<T: Component> Fetch for FetchRead<T> {
    type Item = T;

    open spec fn spec_leaves() -> Seq<Leaf> {
        seq![Leaf { kind: LeafKind::Read, layout: T::spec_layout(), optional: false }]
    }

    #[inline]
    fn access() -> (r: QueryAccess) {
        QueryAccess::read::<T>()
    }
}

impl<T: Component> Fetch for FetchWrite<T> {
    type Item = T;

    open spec fn spec_leaves() -> Seq<Leaf> {
        seq![Leaf { kind: LeafKind::Write, layout: T::spec_layout(), optional: false }]
    }

    fn access() -> (r: QueryAccess) {
        QueryAccess::write::<T>()
    }
}

impl<'a, T> WorldQuery for &'a T where T: Component {
    type Fetch = FetchRead<T>;
}

impl<'a, T> WorldQuery for &'a mut T where T: Component {
    type Fetch = FetchWrite<T>;
}

impl<T4, T3, T2, T1> Fetch for (T4, T3, T2, T1) where
    T4: WorldQuery,
    T3: WorldQuery,
    T2: WorldQuery,
    T1: WorldQuery,
{
    type Item = (T4::Fetch, T3::Fetch, T2::Fetch, T1::Fetch);

    open spec fn spec_leaves() -> Seq<Leaf> {
        <T4::Fetch as Fetch>::spec_leaves()
            + <T3::Fetch as Fetch>::spec_leaves()
            + <T2::Fetch as Fetch>::spec_leaves()
            + <T1::Fetch as Fetch>::spec_leaves()
    }

    fn access() -> (r: QueryAccess) {
        let mut parts: Vec<QueryAccess> = Vec::new();
        parts.push(<T4::Fetch as Fetch>::access());
        parts.push(<T3::Fetch as Fetch>::access());
        parts.push(<T2::Fetch as Fetch>::access());
        parts.push(<T1::Fetch as Fetch>::access());
        proof {
            union_of_parts(parts);
        }
        QueryAccess::union(parts)
    }
}

impl<T4, T3, T2, T1> WorldQuery for (T4, T3, T2, T1) where
    T4: WorldQuery,
    T3: WorldQuery,
    T2: WorldQuery,
    T1: WorldQuery,
{
    type Fetch = (T4, T3, T2, T1);
}

impl<T3, T2, T1> Fetch for (T3, T2, T1) where
    T3: WorldQuery,
    T2: WorldQuery,
    T1: WorldQuery,
{
    type Item = (T3::Fetch, T2::Fetch, T1::Fetch);

    open spec fn spec_leaves() -> Seq<Leaf> {
        <T3::Fetch as Fetch>::spec_leaves()
            + <T2::Fetch as Fetch>::spec_leaves()
            + <T1::Fetch as Fetch>::spec_leaves()
    }

    fn access() -> (r: QueryAccess) {
        let mut parts: Vec<QueryAccess> = Vec::new();
        parts.push(<T3::Fetch as Fetch>::access());
        parts.push(<T2::Fetch as Fetch>::access());
        parts.push(<T1::Fetch as Fetch>::access());
        proof {
            union_of_parts(parts);
        }
        QueryAccess::union(parts)
    }
}

impl<T3, T2, T1> WorldQuery for (T3, T2, T1) where
    T3: WorldQuery,
    T2: WorldQuery,
    T1: WorldQuery,
{
    type Fetch = (T3, T2, T1);
}

impl<T2, T1> Fetch for (T2, T1) where
    T2: WorldQuery,
    T1: WorldQuery,
{
    type Item = (T2::Fetch, T1::Fetch);

    open spec fn spec_leaves() -> Seq<Leaf> {
        <T2::Fetch as Fetch>::spec_leaves()
            + <T1::Fetch as Fetch>::spec_leaves()
    }

    fn access() -> (r: QueryAccess) {
        let mut parts: Vec<QueryAccess> = Vec::new();
        parts.push(<T2::Fetch as Fetch>::access());
        parts.push(<T1::Fetch as Fetch>::access());
        proof {
            union_of_parts(parts);
        }
        QueryAccess::union(parts)
    }
}

impl<T2, T1> WorldQuery for (T2, T1) where
    T2: WorldQuery,
    T1: WorldQuery,
{
    type Fetch = (T2, T1);
}

impl<T1> Fetch for (T1,) where
    T1: WorldQuery,
{
    type Item = (T1::Fetch,);

    open spec fn spec_leaves() -> Seq<Leaf> {
        <T1::Fetch as Fetch>::spec_leaves()
    }

    fn access() -> (r: QueryAccess) {
        let mut parts: Vec<QueryAccess> = Vec::new();
        parts.push(<T1::Fetch as Fetch>::access());
        proof {
            union_of_parts(parts);
        }
        QueryAccess::union(parts)
    }
}

impl<T1> WorldQuery for (T1,) where
    T1: WorldQuery,
{
    type Fetch = (T1,);
}

impl Fetch for () {
    type Item = ();

    open spec fn spec_leaves() -> Seq<Leaf> {
        Seq::empty()
    }

    fn access() -> (r: QueryAccess)
        ensures
            r matches QueryAccess::Union(parts) && parts@ == Seq::<QueryAccess>::empty(),
    {
        let parts: Vec<QueryAccess> = Vec::new();
        proof {
            union_of_parts(parts);
        }
        QueryAccess::union(parts)
    }
}

impl WorldQuery for () {
    type Fetch = ();
}

/// The leaves of a union are the leaves of its parts, one after the other.
pub proof fn union_of_parts(parts: Vec<QueryAccess>)
    ensures
        parts.len() == 0 ==> leaves(QueryAccess::Union(parts), false) == Seq::<Leaf>::empty(),
        parts.len() == 1 ==> leaves(QueryAccess::Union(parts), false) == leaves(parts[0], false),
        parts.len() == 2 ==> leaves(QueryAccess::Union(parts), false) == leaves(parts[0], false)
            + leaves(parts[1], false),
        parts.len() == 3 ==> leaves(QueryAccess::Union(parts), false) == leaves(parts[0], false)
            + leaves(parts[1], false) + leaves(parts[2], false),
        parts.len() == 4 ==> leaves(QueryAccess::Union(parts), false) == leaves(parts[0], false)
            + leaves(parts[1], false) + leaves(parts[2], false) + leaves(parts[3], false),
{
    let whole = QueryAccess::Union(parts);
    assert(leaves(whole, false) == union_leaves(parts, parts.len() as nat, false));
    assert(union_leaves(parts, 0, false) =~= Seq::<Leaf>::empty());
    if parts.len() >= 1 {
        assert(union_leaves(parts, 1, false) =~= leaves(parts[0], false));
    }
    if parts.len() >= 2 {
        assert(union_leaves(parts, 2, false) =~= leaves(parts[0], false) + leaves(parts[1], false));
    }
    if parts.len() >= 3 {
        assert(union_leaves(parts, 3, false) =~= leaves(parts[0], false) + leaves(parts[1], false)
            + leaves(parts[2], false));
    }
    if parts.len() >= 4 {
        assert(union_leaves(parts, 4, false) =~= leaves(parts[0], false) + leaves(parts[1], false)
            + leaves(parts[2], false) + leaves(parts[3], false));
    }
}

/// An entity as shipped by the guest: its components as pairs of descriptor
/// and serialized bytes.
#[derive(Debug)]
pub struct Entity {
    pub components: Vec<(TypeLayout, Vec<u8>)>,
}

/// The rows of a query as the guest holds them.
pub struct Query<Q: WorldQuery> {
    entities: Vec<Q>,
}

impl<Q: WorldQuery> Query<Q> {
    /// The rows that the query holds.
    pub closed spec fn rows(&self) -> Seq<Q> {
        self.entities@
    }

    /// A query that holds the given rows.
    pub fn new(entities: Vec<Q>) -> (r: Self)
        ensures
            r.rows() == entities@,
    {
        Query { entities }
    }

    /// Builds the rows of a query from their serialized form: each row is
    /// decoded by `decode`. Fails at the first row that does not decode and
    /// tells its index.
    pub fn from_data<F: Fn(&Vec<u8>) -> Option<Q>>(data: Vec<Vec<u8>>, decode: F) -> (r: Result<
        Self,
        usize,
    >)
        requires
            forall|row: &Vec<u8>| call_requires(decode, (row,)),
        ensures
            match r {
                Ok(query) => {
                    &&& query.rows().len() == data.len()
                    &&& forall|i: int|
                        0 <= i < data.len() ==> call_ensures(
                            decode,
                            (&data[i],),
                            Some(#[trigger] query.rows()[i]),
                        )
                },
                Err(row) => row < data.len() && call_ensures(decode, (&data[row as int],), None::<Q>),
            },
    {
        let mut entities: Vec<Q> = Vec::new();
        let mut i: usize = 0;
        while i < data.len()
            invariant
                i <= data.len(),
                entities.len() == i,
                forall|row: &Vec<u8>| call_requires(decode, (row,)),
                forall|j: int|
                    0 <= j < i ==> call_ensures(decode, (&data[j],), Some(#[trigger] entities[j])),
            decreases data.len() - i,
        {
            match decode(&data[i]) {
                Some(row) => {
                    entities.push(row);
                },
                None => {
                    return Err(i);
                },
            }
            i += 1;
        }
        Ok(Query { entities })
    }

    /// A cursor over the rows, from the first on, through which they can be
    /// rewritten.
    pub fn iter_mut(&mut self) -> (r: QueryIter<'_, Q>)
        ensures
            r.position() == 0,
            r.items() == old(self).rows(),
    {
        QueryIter::new(&mut self.entities)
    }
}

/// A cursor over the rows of a query.
pub struct QueryIter<'a, Q> {
    entities: &'a mut Vec<Q>,
    next: usize,
}

impl<'a, Q: WorldQuery> QueryIter<'a, Q> {
    /// The index of the row that comes next.
    pub closed spec fn position(&self) -> nat {
        self.next as nat
    }

    /// The rows under the cursor.
    pub closed spec fn items(&self) -> Seq<Q> {
        self.entities@
    }

    /// A cursor at the first of `entities`.
    pub fn new(entities: &'a mut Vec<Q>) -> (r: Self)
        ensures
            r.position() == 0,
            r.items() == old(entities)@,
    {
        QueryIter { next: 0, entities }
    }

    /// The next row, if one is left, and moves the cursor past it. What is
    /// written through the reference replaces the row.
    pub fn next_row(&mut self) -> (r: Option<&mut Q>)
        ensures
            match r {
                Some(row) => {
                    &&& old(self).position() < old(self).items().len()
                    &&& *row == old(self).items()[old(self).position() as int]
                    &&& final(self).position() == old(self).position() + 1
                    &&& final(self).items() == old(self).items().update(
                        old(self).position() as int,
                        *final(row),
                    )
                },
                None => {
                    &&& old(self).position() >= old(self).items().len()
                    &&& final(self).position() == old(self).position()
                    &&& final(self).items() == old(self).items()
                },
            },
    {
        if self.next < self.entities.len() {
            let at = self.next;
            self.next = at + 1;
            Some(&mut self.entities[at])
        } else {
            None
        }
    }
}

/// The systems that a guest announces: what each of them queries, and the
/// resources they share.
#[derive(Debug)]
pub struct RegisterSystem {
    pub queries: Vec<QueryAccess>,
    pub resources: Vec<TypeLayout>,
}

} // verus!

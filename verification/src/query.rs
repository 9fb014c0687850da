//! Query compilation: from an access tree to the id sets that select
//! archetypes and name the columns of a row.

use crate::ecs::type_layout::{LayoutView, TypeLayout};
use crate::ecs::{leaves, union_leaves, Leaf, LeafKind, QueryAccess};
use crate::error::QueryError;
use crate::layouts::{interned_table, Layouts};
use vstd::prelude::*;

verus! {

/// A leaf of an access tree after its layout has been interned.
#[derive(Clone, Copy, Debug, PartialEq, Eq, Structural)]
pub struct Term {
    pub kind: LeafKind,
    pub id: u64,
    pub optional: bool,
}

/// The registry table after the layouts of `ls` have been interned in order.
pub open spec fn intern_all(table: Seq<LayoutView>, ls: Seq<Leaf>) -> Seq<LayoutView>
    decreases ls.len(),
{
    if ls.len() == 0 {
        table
    } else {
        interned_table(intern_all(table, ls.drop_last()), ls.last().layout)
    }
}

/// `terms` are the leaves `ls`, each with the id that `table` gives its layout.
pub open spec fn lowered(terms: Seq<Term>, ls: Seq<Leaf>, table: Seq<LayoutView>) -> bool {
    &&& terms.len() == ls.len()
    &&& forall|i: int|
        0 <= i < terms.len() ==> {
            &&& (#[trigger] terms[i]).kind == ls[i].kind
            &&& terms[i].optional == ls[i].optional
            &&& terms[i].id < table.len()
            &&& table[terms[i].id as int] == ls[i].layout
        }
}

proof fn intern_all_concat(table: Seq<LayoutView>, a: Seq<Leaf>, b: Seq<Leaf>)
    ensures
        intern_all(table, a + b) == intern_all(intern_all(table, a), b),
    decreases b.len(),
{
    if b.len() == 0 {
        assert(a + b =~= a);
    } else {
        assert((a + b).drop_last() =~= a + b.drop_last());
        assert((a + b).last() == b.last());
        intern_all_concat(table, a, b.drop_last());
    }
}

proof fn intern_all_single(table: Seq<LayoutView>, leaf: Leaf)
    ensures
        intern_all(table, seq![leaf]) == interned_table(table, leaf.layout),
{
    assert(seq![leaf].drop_last() =~= Seq::<Leaf>::empty());
    assert(intern_all(table, seq![leaf].drop_last()) == table);
}

proof fn interned_table_grows(table: Seq<LayoutView>, layout: LayoutView)
    requires
        table.no_duplicates(),
    ensures
        table.is_prefix_of(interned_table(table, layout)),
        interned_table(table, layout).no_duplicates(),
{
    let after = interned_table(table, layout);
    if !table.contains(layout) {
        assert forall|i: int, j: int| 0 <= i < after.len() && 0 <= j < after.len() && i != j implies after[i]
            != after[j] by {
            if i < table.len() {
                assert(table.contains(after[i]));
            }
            if j < table.len() {
                assert(table.contains(after[j]));
            }
        }
    }
}

/// Interning only appends: every descriptor keeps its id, and no descriptor
/// is interned twice.
pub proof fn intern_all_grows(table: Seq<LayoutView>, ls: Seq<Leaf>)
    requires
        table.no_duplicates(),
    ensures
        table.is_prefix_of(intern_all(table, ls)),
        intern_all(table, ls).no_duplicates(),
    decreases ls.len(),
{
    if ls.len() > 0 {
        intern_all_grows(table, ls.drop_last());
        interned_table_grows(intern_all(table, ls.drop_last()), ls.last().layout);
    }
}

proof fn lowered_in_larger_table(
    terms: Seq<Term>,
    ls: Seq<Leaf>,
    table: Seq<LayoutView>,
    larger: Seq<LayoutView>,
)
    requires
        lowered(terms, ls, table),
        table.is_prefix_of(larger),
    ensures
        lowered(terms, ls, larger),
{
    assert forall|i: int| 0 <= i < terms.len() implies {
        &&& (#[trigger] terms[i]).kind == ls[i].kind
        &&& terms[i].optional == ls[i].optional
        &&& terms[i].id < larger.len()
        &&& larger[terms[i].id as int] == ls[i].layout
    } by {
        assert(table[terms[i].id as int] == larger[terms[i].id as int]);
    }
}

proof fn lowered_concat(
    a: Seq<Term>,
    la: Seq<Leaf>,
    b: Seq<Term>,
    lb: Seq<Leaf>,
    table: Seq<LayoutView>,
)
    requires
        lowered(a, la, table),
        lowered(b, lb, table),
    ensures
        lowered(a + b, la + lb, table),
{
    assert forall|i: int| 0 <= i < (a + b).len() implies {
        &&& (#[trigger] (a + b)[i]).kind == (la + lb)[i].kind
        &&& (a + b)[i].optional == (la + lb)[i].optional
        &&& (a + b)[i].id < table.len()
        &&& table[(a + b)[i].id as int] == (la + lb)[i].layout
    } by {
        if i < a.len() {
            assert((a + b)[i] == a[i]);
        } else {
            assert((a + b)[i] == b[i - a.len()]);
        }
    }
}

/// Interns the layout of one leaf and appends its term.
fn lower_leaf(
    kind: LeafKind,
    layout: &TypeLayout,
    optional: bool,
    layouts: &mut Layouts,
    out: &mut Vec<Term>,
)
    requires
        old(layouts).wf(),
    ensures
        final(layouts).wf(),
        final(layouts)@ == intern_all(old(layouts)@, seq![Leaf { kind, layout: layout@, optional }]),
        final(out)@.len() == old(out)@.len() + 1,
        final(out)@.subrange(0, old(out)@.len() as int) == old(out)@,
        lowered(
            final(out)@.subrange(old(out)@.len() as int, final(out)@.len() as int),
            seq![Leaf { kind, layout: layout@, optional }],
            final(layouts)@,
        ),
{
    let id = layouts.external_id(layout);
    out.push(Term { kind, id, optional });
    proof {
        intern_all_single(old(layouts)@, Leaf { kind, layout: layout@, optional });
        assert(out@.subrange(0, old(out)@.len() as int) =~= old(out)@);
    }
}

/// Appends the terms of `access` to `out`, interning layouts on the way.
fn lower_into(access: &QueryAccess, optional: bool, layouts: &mut Layouts, out: &mut Vec<Term>)
    requires
        old(layouts).wf(),
    ensures
        final(layouts).wf(),
        final(layouts)@ == intern_all(old(layouts)@, leaves(*access, optional)),
        final(out)@.len() == old(out)@.len() + leaves(*access, optional).len(),
        final(out)@.subrange(0, old(out)@.len() as int) == old(out)@,
        lowered(
            final(out)@.subrange(old(out)@.len() as int, final(out)@.len() as int),
            leaves(*access, optional),
            final(layouts)@,
        ),
    decreases *access,
{
    let ghost table0 = layouts@;
    let ghost out0 = out@;
    match access {
        QueryAccess::Empty => {
            assert(out@.subrange(0, out0.len() as int) =~= out0);
        },
        QueryAccess::Read(layout) => {
            lower_leaf(LeafKind::Read, layout, optional, layouts, out);
        },
        QueryAccess::Write(layout) => {
            lower_leaf(LeafKind::Write, layout, optional, layouts, out);
        },
        QueryAccess::Optional(inner) => {
            lower_into(&**inner, true, layouts, out);
        },
        QueryAccess::With(layout, inner) => {
            lower_leaf(LeafKind::With, layout, optional, layouts, out);
            let ghost table1 = layouts@;
            let ghost out1 = out@;
            lower_into(&**inner, optional, layouts, out);
            proof {
                let head = seq![Leaf { kind: LeafKind::With, layout: layout@, optional }];
                let tail = leaves(**inner, optional);
                lower_step(table0, table1, layouts@, out0, out1, out@, head, tail);
            }
        },
        QueryAccess::Without(layout, inner) => {
            lower_leaf(LeafKind::Without, layout, optional, layouts, out);
            let ghost table1 = layouts@;
            let ghost out1 = out@;
            lower_into(&**inner, optional, layouts, out);
            proof {
                let head = seq![Leaf { kind: LeafKind::Without, layout: layout@, optional }];
                let tail = leaves(**inner, optional);
                lower_step(table0, table1, layouts@, out0, out1, out@, head, tail);
            }
        },
        QueryAccess::Union(children) => {
            let mut i: usize = 0;
            proof {
                assert(out@.subrange(0, out0.len() as int) =~= out0);
            }
            while i < children.len()
                invariant
                    i <= children.len(),
                    *access is Union,
                    access->Union_0 == *children,
                    layouts.wf(),
                    layouts@ == intern_all(table0, union_leaves(*children, i as nat, optional)),
                    out@.len() == out0.len() + union_leaves(*children, i as nat, optional).len(),
                    out@.subrange(0, out0.len() as int) == out0,
                    lowered(
                        out@.subrange(out0.len() as int, out@.len() as int),
                        union_leaves(*children, i as nat, optional),
                        layouts@,
                    ),
                decreases children.len() - i,
            {
                let ghost table1 = layouts@;
                let ghost out1 = out@;
                assert(decreases_to!(*children => children[i as int]));
                assert(decreases_to!(*access => access->Union_0));
                lower_into(&children[i], optional, layouts, out);
                proof {
                    let head = union_leaves(*children, i as nat, optional);
                    let tail = leaves(children[i as int], optional);
                    assert(union_leaves(*children, (i + 1) as nat, optional) == head + tail);
                    lower_step(table0, table1, layouts@, out0, out1, out@, head, tail);
                }
                i += 1;
            }
        },
    }
}

/// Two lowering steps in a row amount to lowering the concatenated leaves.
proof fn lower_step(
    table0: Seq<LayoutView>,
    table1: Seq<LayoutView>,
    table2: Seq<LayoutView>,
    out0: Seq<Term>,
    out1: Seq<Term>,
    out2: Seq<Term>,
    head: Seq<Leaf>,
    tail: Seq<Leaf>,
)
    requires
        table1.no_duplicates(),
        table1 == intern_all(table0, head),
        table2 == intern_all(table1, tail),
        out1.len() == out0.len() + head.len(),
        out1.subrange(0, out0.len() as int) == out0,
        lowered(out1.subrange(out0.len() as int, out1.len() as int), head, table1),
        out2.len() == out1.len() + tail.len(),
        out2.subrange(0, out1.len() as int) == out1,
        lowered(out2.subrange(out1.len() as int, out2.len() as int), tail, table2),
    ensures
        table2 == intern_all(table0, head + tail),
        out2.len() == out0.len() + (head + tail).len(),
        out2.subrange(0, out0.len() as int) == out0,
        lowered(out2.subrange(out0.len() as int, out2.len() as int), head + tail, table2),
{
    intern_all_concat(table0, head, tail);
    intern_all_grows(table1, tail);
    let a = out1.subrange(out0.len() as int, out1.len() as int);
    let b = out2.subrange(out1.len() as int, out2.len() as int);
    lowered_in_larger_table(a, head, table1, table2);
    lowered_concat(a, head, b, tail, table2);
    assert(out2.subrange(out0.len() as int, out2.len() as int) =~= a + b) by {
        assert forall|i: int| 0 <= i < a.len() implies a[i] == out2[out0.len() + i] by {
            assert(out2.subrange(0, out1.len() as int)[out0.len() + i] == out1[out0.len() + i]);
        }
    }
    assert(out2.subrange(0, out0.len() as int) =~= out0) by {
        assert forall|i: int| 0 <= i < out0.len() implies out2[i] == out0[i] by {
            assert(out2.subrange(0, out1.len() as int)[i] == out1[i]);
            assert(out1.subrange(0, out0.len() as int)[i] == out0[i]);
        }
    }
}

/// Lowers an access tree: walks it left to right, interns the layout of every
/// leaf, and returns the leaves with ids in place of layouts.
pub fn lower(access: &QueryAccess, layouts: &mut Layouts) -> (terms: Vec<Term>)
    requires
        old(layouts).wf(),
    ensures
        final(layouts).wf(),
        final(layouts)@ == intern_all(old(layouts)@, leaves(*access, false)),
        lowered(terms@, leaves(*access, false), final(layouts)@),
{
    let mut out: Vec<Term> = Vec::new();
    lower_into(access, false, layouts, &mut out);
    assert(out@.subrange(0, out@.len() as int) =~= out@);
    out
}


/// A column of a query row: the layout it holds and whether an entity must
/// have the component to be selected.
#[derive(Clone, Copy, Debug, PartialEq, Eq, Structural)]
pub struct Column {
    pub id: u64,
    pub required: bool,
}

/// Some term among the first `count` asks for `id` in the way `kind` says.
pub open spec fn demands_before(terms: Seq<Term>, kind: LeafKind, id: u64, count: int) -> bool {
    exists|i: int| 0 <= i < count && i < terms.len() && (#[trigger] terms[i]).kind == kind && terms[i].id == id
}

/// Some term asks for `id` in the way `kind` says, optional or not.
pub open spec fn demands(terms: Seq<Term>, kind: LeafKind, id: u64) -> bool {
    demands_before(terms, kind, id, terms.len() as int)
}

/// Some term among the first `count`, outside every `Optional`, asks for `id`
/// in the way `kind` says.
pub open spec fn insists_before(terms: Seq<Term>, kind: LeafKind, id: u64, count: int) -> bool {
    exists|i: int|
        0 <= i < count && i < terms.len() && (#[trigger] terms[i]).kind == kind && terms[i].id == id
            && !terms[i].optional
}

/// Some term outside every `Optional` asks for `id` in the way `kind` says.
pub open spec fn insists(terms: Seq<Term>, kind: LeafKind, id: u64) -> bool {
    insists_before(terms, kind, id, terms.len() as int)
}

/// A data leaf outside every `Optional` asks for `id`.
pub open spec fn needs_data(terms: Seq<Term>, id: u64) -> bool {
    insists(terms, LeafKind::Read, id) || insists(terms, LeafKind::Write, id)
}

/// Some layout is both demanded by `With` and forbidden by `Without`.
pub open spec fn contradictory(terms: Seq<Term>) -> bool {
    exists|id: u64| insists(terms, LeafKind::With, id) && insists(terms, LeafKind::Without, id)
}

/// Some column holds `id`.
pub open spec fn has_column(columns: Seq<Column>, id: u64) -> bool {
    exists|k: int| 0 <= k < columns.len() && (#[trigger] columns[k]).id == id
}

/// The write columns that the first `count` terms give: one per layout with a
/// `Write` leaf, in the order of first appearance.
pub open spec fn mutable_columns(terms: Seq<Term>, count: nat) -> Seq<Column>
    decreases count,
{
    if count == 0 || count > terms.len() {
        Seq::empty()
    } else {
        let rest = mutable_columns(terms, (count - 1) as nat);
        let t = terms[count - 1];
        if t.kind == LeafKind::Write && !has_column(rest, t.id) {
            rest.push(Column { id: t.id, required: needs_data(terms, t.id) })
        } else {
            rest
        }
    }
}

/// The read columns that the first `count` terms give: one per layout with a
/// `Read` leaf and no `Write` leaf anywhere, in the order of first appearance.
pub open spec fn immutable_columns(terms: Seq<Term>, count: nat) -> Seq<Column>
    decreases count,
{
    if count == 0 || count > terms.len() {
        Seq::empty()
    } else {
        let rest = immutable_columns(terms, (count - 1) as nat);
        let t = terms[count - 1];
        if t.kind == LeafKind::Read && !demands(terms, LeafKind::Write, t.id) && !has_column(
            rest,
            t.id,
        ) {
            rest.push(Column { id: t.id, required: needs_data(terms, t.id) })
        } else {
            rest
        }
    }
}

/// The presence filters that the first `count` terms give: the layouts with a
/// `With` leaf outside every `Optional` that no required column covers.
pub open spec fn with_ids(terms: Seq<Term>, count: nat) -> Seq<u64>
    decreases count,
{
    if count == 0 || count > terms.len() {
        Seq::empty()
    } else {
        let rest = with_ids(terms, (count - 1) as nat);
        let t = terms[count - 1];
        if t.kind == LeafKind::With && !t.optional && !needs_data(terms, t.id) && !rest.contains(
            t.id,
        ) {
            rest.push(t.id)
        } else {
            rest
        }
    }
}

/// The absence filters that the first `count` terms give: the layouts with a
/// `Without` leaf outside every `Optional`.
pub open spec fn without_ids(terms: Seq<Term>, count: nat) -> Seq<u64>
    decreases count,
{
    if count == 0 || count > terms.len() {
        Seq::empty()
    } else {
        let rest = without_ids(terms, (count - 1) as nat);
        let t = terms[count - 1];
        if t.kind == LeafKind::Without && !t.optional && !rest.contains(t.id) {
            rest.push(t.id)
        } else {
            rest
        }
    }
}

/// The terms select an entity whose components are exactly `signature`:
/// every leaf outside an `Optional` finds its layout present, or absent if it
/// is a `Without`.
pub open spec fn accepts(terms: Seq<Term>, signature: Set<u64>) -> bool {
    forall|i: int|
        0 <= i < terms.len() && !(#[trigger] terms[i]).optional ==> (terms[i].kind
            == LeafKind::Without) != signature.contains(terms[i].id)
}

/// A compiled query.
#[derive(Debug)]
pub struct QueryPlan {
    /// Read columns, in the order in which a row lists them.
    pub immutable: Vec<Column>,
    /// Write columns, in the order in which a row lists them.
    pub mutable: Vec<Column>,
    /// Layouts that must be present and yield no data.
    pub with: Vec<u64>,
    /// Layouts that must be absent.
    pub without: Vec<u64>,
}

/// Whether a query with these columns and filters selects an entity whose
/// components are exactly `signature`.
pub open spec fn selects(
    immutable: Seq<Column>,
    mutable: Seq<Column>,
    with: Seq<u64>,
    without: Seq<u64>,
    signature: Set<u64>,
) -> bool {
    &&& forall|k: int|
        0 <= k < immutable.len() && (#[trigger] immutable[k]).required ==> signature.contains(
            immutable[k].id,
        )
    &&& forall|k: int|
        0 <= k < mutable.len() && (#[trigger] mutable[k]).required ==> signature.contains(
            mutable[k].id,
        )
    &&& forall|k: int| 0 <= k < with.len() ==> signature.contains(#[trigger] with[k])
    &&& forall|k: int| 0 <= k < without.len() ==> !signature.contains(#[trigger] without[k])
}

/// No layout has two columns, and none has a column of either kind.
pub open spec fn columns_disjoint(immutable: Seq<Column>, mutable: Seq<Column>) -> bool {
    &&& forall|a: int, b: int|
        0 <= a < b < immutable.len() ==> (#[trigger] immutable[a]).id != (#[trigger] immutable[b]).id
    &&& forall|a: int, b: int|
        0 <= a < b < mutable.len() ==> (#[trigger] mutable[a]).id != (#[trigger] mutable[b]).id
    &&& forall|a: int, b: int|
        0 <= a < immutable.len() && 0 <= b < mutable.len() ==> (#[trigger] immutable[a]).id != (
        #[trigger] mutable[b]).id
}

impl QueryPlan {
    /// The plan is the one that `terms` compile to.
    pub open spec fn compiled_from(&self, terms: Seq<Term>) -> bool {
        &&& self.immutable@ == immutable_columns(terms, terms.len())
        &&& self.mutable@ == mutable_columns(terms, terms.len())
        &&& self.with@ == with_ids(terms, terms.len())
        &&& self.without@ == without_ids(terms, terms.len())
    }

    /// Columns are pairwise distinct and every filter is listed once.
    pub open spec fn wf(&self) -> bool {
        &&& columns_disjoint(self.immutable@, self.mutable@)
        &&& self.with@.no_duplicates()
        &&& self.without@.no_duplicates()
    }

    /// The plan selects an entity whose components are exactly `signature`.
    pub open spec fn matches(&self, signature: Set<u64>) -> bool {
        selects(self.immutable@, self.mutable@, self.with@, self.without@, signature)
    }
}

proof fn mutable_columns_facts(terms: Seq<Term>, count: nat)
    requires
        count <= terms.len(),
    ensures
        forall|id: u64|
            #[trigger] has_column(mutable_columns(terms, count), id) <==> demands_before(
                terms,
                LeafKind::Write,
                id,
                count as int,
            ),
        forall|k: int|
            0 <= k < mutable_columns(terms, count).len() ==> (#[trigger] mutable_columns(
                terms,
                count,
            )[k]).required == needs_data(terms, mutable_columns(terms, count)[k].id),
        forall|a: int, b: int|
            0 <= a < b < mutable_columns(terms, count).len() ==> (#[trigger] mutable_columns(
                terms,
                count,
            )[a]).id != (#[trigger] mutable_columns(terms, count)[b]).id,
    decreases count,
{
    let cols = mutable_columns(terms, count);
    if count > 0 {
        let rest = mutable_columns(terms, (count - 1) as nat);
        let t = terms[count - 1];
        mutable_columns_facts(terms, (count - 1) as nat);
        assert forall|id: u64| has_column(cols, id) <==> demands_before(
            terms,
            LeafKind::Write,
            id,
            count as int,
        ) by {
            if has_column(cols, id) {
                let k = choose|k: int| 0 <= k < cols.len() && (#[trigger] cols[k]).id == id;
                if k < rest.len() {
                    assert(rest[k].id == id);
                    assert(has_column(rest, id));
                    assert(demands_before(terms, LeafKind::Write, id, count - 1));
                } else {
                    assert(terms[count - 1].kind == LeafKind::Write && terms[count - 1].id == id);
                }
            }
            if demands_before(terms, LeafKind::Write, id, count as int) {
                let i = choose|i: int|
                    0 <= i < count && i < terms.len() && (#[trigger] terms[i]).kind
                        == LeafKind::Write && terms[i].id == id;
                if i < count - 1 {
                    assert(demands_before(terms, LeafKind::Write, id, count - 1));
                    assert(has_column(rest, id));
                    let k = choose|k: int| 0 <= k < rest.len() && (#[trigger] rest[k]).id == id;
                    assert(cols[k].id == id);
                } else if has_column(rest, id) {
                    let k = choose|k: int| 0 <= k < rest.len() && (#[trigger] rest[k]).id == id;
                    assert(cols[k].id == id);
                } else {
                    assert(cols[rest.len() as int].id == id);
                }
            }
        }
        assert forall|a: int, b: int| 0 <= a < b < cols.len() implies (#[trigger] cols[a]).id != (
        #[trigger] cols[b]).id by {
            if b < rest.len() {
                assert(rest[a].id != rest[b].id);
            } else {
                assert(rest[a].id == cols[a].id);
                assert(has_column(rest, cols[a].id));
            }
        }
    }
}

proof fn immutable_columns_facts(terms: Seq<Term>, count: nat)
    requires
        count <= terms.len(),
    ensures
        forall|id: u64|
            #[trigger] has_column(immutable_columns(terms, count), id) <==> (demands_before(
                terms,
                LeafKind::Read,
                id,
                count as int,
            ) && !demands(terms, LeafKind::Write, id)),
        forall|k: int|
            0 <= k < immutable_columns(terms, count).len() ==> (#[trigger] immutable_columns(
                terms,
                count,
            )[k]).required == needs_data(terms, immutable_columns(terms, count)[k].id),
        forall|a: int, b: int|
            0 <= a < b < immutable_columns(terms, count).len() ==> (#[trigger] immutable_columns(
                terms,
                count,
            )[a]).id != (#[trigger] immutable_columns(terms, count)[b]).id,
    decreases count,
{
    let cols = immutable_columns(terms, count);
    if count > 0 {
        let rest = immutable_columns(terms, (count - 1) as nat);
        let t = terms[count - 1];
        immutable_columns_facts(terms, (count - 1) as nat);
        assert forall|id: u64| has_column(cols, id) <==> (demands_before(
            terms,
            LeafKind::Read,
            id,
            count as int,
        ) && !demands(terms, LeafKind::Write, id)) by {
            if has_column(cols, id) {
                let k = choose|k: int| 0 <= k < cols.len() && (#[trigger] cols[k]).id == id;
                if k < rest.len() {
                    assert(rest[k].id == id);
                    assert(has_column(rest, id));
                    assert(demands_before(terms, LeafKind::Read, id, count - 1));
                } else {
                    assert(terms[count - 1].kind == LeafKind::Read && terms[count - 1].id == id);
                }
            }
            if demands_before(terms, LeafKind::Read, id, count as int) && !demands(
                terms,
                LeafKind::Write,
                id,
            ) {
                let i = choose|i: int|
                    0 <= i < count && i < terms.len() && (#[trigger] terms[i]).kind
                        == LeafKind::Read && terms[i].id == id;
                if i < count - 1 {
                    assert(demands_before(terms, LeafKind::Read, id, count - 1));
                    assert(has_column(rest, id));
                    let k = choose|k: int| 0 <= k < rest.len() && (#[trigger] rest[k]).id == id;
                    assert(cols[k].id == id);
                } else if has_column(rest, id) {
                    let k = choose|k: int| 0 <= k < rest.len() && (#[trigger] rest[k]).id == id;
                    assert(cols[k].id == id);
                } else {
                    assert(cols[rest.len() as int].id == id);
                }
            }
        }
        assert forall|a: int, b: int| 0 <= a < b < cols.len() implies (#[trigger] cols[a]).id != (
        #[trigger] cols[b]).id by {
            if b < rest.len() {
                assert(rest[a].id != rest[b].id);
            } else {
                assert(rest[a].id == cols[a].id);
                assert(has_column(rest, cols[a].id));
            }
        }
    }
}

proof fn with_ids_facts(terms: Seq<Term>, count: nat)
    requires
        count <= terms.len(),
    ensures
        forall|id: u64|
            #[trigger] with_ids(terms, count).contains(id) <==> insists_before(
                terms,
                LeafKind::With,
                id,
                count as int,
            ) && !needs_data(terms, id),
        with_ids(terms, count).no_duplicates(),
    decreases count,
{
    let ids = with_ids(terms, count);
    if count > 0 {
        let rest = with_ids(terms, (count - 1) as nat);
        with_ids_facts(terms, (count - 1) as nat);
        assert forall|id: u64| #[trigger] ids.contains(id) <==> insists_before(
            terms,
            LeafKind::With,
            id,
            count as int,
        ) && !needs_data(terms, id) by {
            if ids.contains(id) {
                let k = choose|k: int| 0 <= k < ids.len() && ids[k] == id;
                if k < rest.len() {
                    assert(rest[k] == id);
                    assert(rest.contains(id));
                    let i = choose|i: int|
                        0 <= i < count - 1 && i < terms.len() && (#[trigger] terms[i]).kind
                            == LeafKind::With && terms[i].id == id && !terms[i].optional;
                    assert(terms[i].kind == LeafKind::With);
                } else {
                    assert(terms[count - 1].kind == LeafKind::With && terms[count - 1].id == id);
                }
            }
            if insists_before(terms, LeafKind::With, id, count as int) && !needs_data(terms, id) {
                let i = choose|i: int|
                    0 <= i < count && i < terms.len() && (#[trigger] terms[i]).kind
                        == LeafKind::With && terms[i].id == id && !terms[i].optional;
                if i < count - 1 {
                    assert(insists_before(terms, LeafKind::With, id, count - 1));
                    assert(rest.contains(id));
                    let k = choose|k: int| 0 <= k < rest.len() && rest[k] == id;
                    assert(ids[k] == id);
                } else if rest.contains(id) {
                    let k = choose|k: int| 0 <= k < rest.len() && rest[k] == id;
                    assert(ids[k] == id);
                } else {
                    assert(ids[rest.len() as int] == id);
                }
            }
        }
        assert forall|a: int, b: int| 0 <= a < ids.len() && 0 <= b < ids.len() && a != b implies ids[a]
            != ids[b] by {
            if a < rest.len() && b < rest.len() {
                assert(rest[a] != rest[b]);
            } else if a < rest.len() {
                assert(rest.contains(rest[a]));
            } else {
                assert(rest.contains(rest[b]));
            }
        }
    }
}

proof fn without_ids_facts(terms: Seq<Term>, count: nat)
    requires
        count <= terms.len(),
    ensures
        forall|id: u64|
            #[trigger] without_ids(terms, count).contains(id) <==> insists_before(
                terms,
                LeafKind::Without,
                id,
                count as int,
            ),
        without_ids(terms, count).no_duplicates(),
    decreases count,
{
    let ids = without_ids(terms, count);
    if count > 0 {
        let rest = without_ids(terms, (count - 1) as nat);
        without_ids_facts(terms, (count - 1) as nat);
        assert forall|id: u64| #[trigger] ids.contains(id) <==> insists_before(
            terms,
            LeafKind::Without,
            id,
            count as int,
        ) by {
            if ids.contains(id) {
                let k = choose|k: int| 0 <= k < ids.len() && ids[k] == id;
                if k < rest.len() {
                    assert(rest[k] == id);
                    assert(rest.contains(id));
                    let i = choose|i: int|
                        0 <= i < count - 1 && i < terms.len() && (#[trigger] terms[i]).kind
                            == LeafKind::Without && terms[i].id == id && !terms[i].optional;
                    assert(terms[i].kind == LeafKind::Without);
                } else {
                    assert(terms[count - 1].kind == LeafKind::Without && terms[count - 1].id == id);
                }
            }
            if insists_before(terms, LeafKind::Without, id, count as int) {
                let i = choose|i: int|
                    0 <= i < count && i < terms.len() && (#[trigger] terms[i]).kind
                        == LeafKind::Without && terms[i].id == id && !terms[i].optional;
                if i < count - 1 {
                    assert(insists_before(terms, LeafKind::Without, id, count - 1));
                    assert(rest.contains(id));
                    let k = choose|k: int| 0 <= k < rest.len() && rest[k] == id;
                    assert(ids[k] == id);
                } else if rest.contains(id) {
                    let k = choose|k: int| 0 <= k < rest.len() && rest[k] == id;
                    assert(ids[k] == id);
                } else {
                    assert(ids[rest.len() as int] == id);
                }
            }
        }
        assert forall|a: int, b: int| 0 <= a < ids.len() && 0 <= b < ids.len() && a != b implies ids[a]
            != ids[b] by {
            if a < rest.len() && b < rest.len() {
                assert(rest[a] != rest[b]);
            } else if a < rest.len() {
                assert(rest.contains(rest[a]));
            } else {
                assert(rest.contains(rest[b]));
            }
        }
    }
}

/// The columns of a compiled query are pairwise distinct: no layout is listed
/// twice among the read columns or among the write columns, and a layout that
/// is written is not also listed as read.
pub proof fn compiled_columns_disjoint(terms: Seq<Term>)
    ensures
        columns_disjoint(
            immutable_columns(terms, terms.len()),
            mutable_columns(terms, terms.len()),
        ),
        with_ids(terms, terms.len()).no_duplicates(),
        without_ids(terms, terms.len()).no_duplicates(),
{
    let n = terms.len();
    let im = immutable_columns(terms, n);
    let mu = mutable_columns(terms, n);
    immutable_columns_facts(terms, n);
    mutable_columns_facts(terms, n);
    with_ids_facts(terms, n);
    without_ids_facts(terms, n);
    assert forall|a: int, b: int| 0 <= a < im.len() && 0 <= b < mu.len() implies (#[trigger] im[a]).id
        != (#[trigger] mu[b]).id by {
        assert(has_column(im, im[a].id));
        assert(has_column(mu, mu[b].id));
    }
}

/// A compiled query selects exactly the entities that its access tree asks
/// for: those on which every leaf outside an `Optional` is satisfied.
pub proof fn compiled_selects(terms: Seq<Term>, signature: Set<u64>)
    ensures
        selects(
            immutable_columns(terms, terms.len()),
            mutable_columns(terms, terms.len()),
            with_ids(terms, terms.len()),
            without_ids(terms, terms.len()),
            signature,
        ) == accepts(terms, signature),
{
    let n = terms.len();
    let im = immutable_columns(terms, n);
    let mu = mutable_columns(terms, n);
    let wi = with_ids(terms, n);
    let wo = without_ids(terms, n);
    immutable_columns_facts(terms, n);
    mutable_columns_facts(terms, n);
    with_ids_facts(terms, n);
    without_ids_facts(terms, n);
    if accepts(terms, signature) {
        assert forall|k: int| 0 <= k < im.len() && (#[trigger] im[k]).required implies signature.contains(
            im[k].id,
        ) by {
            lemma_needs_data_present(terms, signature, im[k].id);
        }
        assert forall|k: int| 0 <= k < mu.len() && (#[trigger] mu[k]).required implies signature.contains(
            mu[k].id,
        ) by {
            lemma_needs_data_present(terms, signature, mu[k].id);
        }
        assert forall|k: int| 0 <= k < wi.len() implies signature.contains(#[trigger] wi[k]) by {
            assert(wi.contains(wi[k]));
            let i = choose|i: int|
                0 <= i < n && i < terms.len() && (#[trigger] terms[i]).kind == LeafKind::With
                    && terms[i].id == wi[k] && !terms[i].optional;
            assert(!terms[i].optional);
        }
        assert forall|k: int| 0 <= k < wo.len() implies !signature.contains(#[trigger] wo[k]) by {
            assert(wo.contains(wo[k]));
            let i = choose|i: int|
                0 <= i < n && i < terms.len() && (#[trigger] terms[i]).kind == LeafKind::Without
                    && terms[i].id == wo[k] && !terms[i].optional;
            assert(!terms[i].optional);
        }
    }
    if selects(im, mu, wi, wo, signature) {
        assert forall|i: int| 0 <= i < terms.len() && !(#[trigger] terms[i]).optional implies (
        terms[i].kind == LeafKind::Without) != signature.contains(terms[i].id) by {
            let t = terms[i];
            match t.kind {
                LeafKind::Without => {
                    assert(insists_before(terms, LeafKind::Without, t.id, n as int));
                    assert(wo.contains(t.id));
                    let k = choose|k: int| 0 <= k < wo.len() && wo[k] == t.id;
                    assert(!signature.contains(wo[k]));
                },
                LeafKind::With => {
                    if needs_data(terms, t.id) {
                        lemma_needed_column(terms, signature, t.id);
                    } else {
                        assert(insists_before(terms, LeafKind::With, t.id, n as int));
                        assert(wi.contains(t.id));
                        let k = choose|k: int| 0 <= k < wi.len() && wi[k] == t.id;
                        assert(signature.contains(wi[k]));
                    }
                },
                LeafKind::Read => {
                    assert(insists(terms, LeafKind::Read, t.id));
                    lemma_needed_column(terms, signature, t.id);
                },
                LeafKind::Write => {
                    assert(insists(terms, LeafKind::Write, t.id));
                    lemma_needed_column(terms, signature, t.id);
                },
            }
        }
    }
}

proof fn lemma_needs_data_present(terms: Seq<Term>, signature: Set<u64>, id: u64)
    requires
        accepts(terms, signature),
        needs_data(terms, id),
    ensures
        signature.contains(id),
{
    if insists(terms, LeafKind::Read, id) {
        let i = choose|i: int|
            0 <= i < terms.len() && i < terms.len() && (#[trigger] terms[i]).kind == LeafKind::Read
                && terms[i].id == id && !terms[i].optional;
        assert(!terms[i].optional);
    } else {
        let i = choose|i: int|
            0 <= i < terms.len() && i < terms.len() && (#[trigger] terms[i]).kind == LeafKind::Write
                && terms[i].id == id && !terms[i].optional;
        assert(!terms[i].optional);
    }
}

proof fn lemma_needed_column(terms: Seq<Term>, signature: Set<u64>, id: u64)
    requires
        needs_data(terms, id),
        selects(
            immutable_columns(terms, terms.len()),
            mutable_columns(terms, terms.len()),
            with_ids(terms, terms.len()),
            without_ids(terms, terms.len()),
            signature,
        ),
    ensures
        signature.contains(id),
{
    let n = terms.len();
    let im = immutable_columns(terms, n);
    let mu = mutable_columns(terms, n);
    immutable_columns_facts(terms, n);
    mutable_columns_facts(terms, n);
    if demands(terms, LeafKind::Write, id) {
        assert(has_column(mu, id));
        let k = choose|k: int| 0 <= k < mu.len() && (#[trigger] mu[k]).id == id;
        assert(mu[k].required);
    } else {
        if insists(terms, LeafKind::Write, id) {
            let i = choose|i: int|
                0 <= i < terms.len() && i < terms.len() && (#[trigger] terms[i]).kind
                    == LeafKind::Write && terms[i].id == id && !terms[i].optional;
            assert(demands_before(terms, LeafKind::Write, id, n as int));
        }
        let i = choose|i: int|
            0 <= i < terms.len() && i < terms.len() && (#[trigger] terms[i]).kind == LeafKind::Read
                && terms[i].id == id && !terms[i].optional;
        assert(demands_before(terms, LeafKind::Read, id, n as int));
        assert(has_column(im, id));
        let k = choose|k: int| 0 <= k < im.len() && (#[trigger] im[k]).id == id;
        assert(im[k].required);
    }
}


/// The terms that the leaves `ls` lower to once `table` holds their layouts.
pub open spec fn terms_of(ls: Seq<Leaf>, table: Seq<LayoutView>) -> Seq<Term> {
    Seq::new(
        ls.len(),
        |i: int| Term { kind: ls[i].kind, id: table.index_of(ls[i].layout) as u64, optional: ls[i].optional },
    )
}

proof fn lowered_is_terms_of(terms: Seq<Term>, ls: Seq<Leaf>, table: Seq<LayoutView>)
    requires
        lowered(terms, ls, table),
        table.no_duplicates(),
    ensures
        terms == terms_of(ls, table),
{
    assert forall|i: int| 0 <= i < terms.len() implies terms[i] == terms_of(ls, table)[i] by {
        let t = terms[i];
        assert(table[t.id as int] == ls[i].layout);
        assert(table.contains(ls[i].layout));
        let k = table.index_of(ls[i].layout);
        assert(table[k] == ls[i].layout);
    }
    assert(terms =~= terms_of(ls, table));
}

/// Whether some term asks for `id` in the way `kind` says; with
/// `required_only`, terms below an `Optional` do not count.
fn asks(terms: &Vec<Term>, kind: LeafKind, id: u64, required_only: bool) -> (r: bool)
    ensures
        r == if required_only {
            insists(terms@, kind, id)
        } else {
            demands(terms@, kind, id)
        },
{
    let mut i: usize = 0;
    while i < terms.len()
        invariant
            i <= terms.len(),
            required_only ==> !insists_before(terms@, kind, id, i as int),
            !required_only ==> !demands_before(terms@, kind, id, i as int),
        decreases terms.len() - i,
    {
        let t = terms[i];
        if t.kind == kind && t.id == id {
            if !required_only {
                assert(terms@[i as int].kind == kind);
                return true;
            }
            if !t.optional {
                assert(terms@[i as int].kind == kind);
                return true;
            }
        }
        i += 1;
    }
    false
}

/// Whether a data leaf outside every `Optional` asks for `id`.
fn asks_data(terms: &Vec<Term>, id: u64) -> (r: bool)
    ensures
        r == needs_data(terms@, id),
{
    asks(terms, LeafKind::Read, id, true) || asks(terms, LeafKind::Write, id, true)
}

/// Whether some column holds `id`.
fn column_listed(columns: &Vec<Column>, id: u64) -> (r: bool)
    ensures
        r == has_column(columns@, id),
{
    let mut k: usize = 0;
    while k < columns.len()
        invariant
            k <= columns.len(),
            forall|j: int| 0 <= j < k ==> (#[trigger] columns@[j]).id != id,
        decreases columns.len() - k,
    {
        if columns[k].id == id {
            assert(columns@[k as int].id == id);
            return true;
        }
        k += 1;
    }
    false
}

/// Whether `id` is among `ids`.
fn id_listed(ids: &Vec<u64>, id: u64) -> (r: bool)
    ensures
        r == ids@.contains(id),
{
    let mut k: usize = 0;
    while k < ids.len()
        invariant
            k <= ids.len(),
            forall|j: int| 0 <= j < k ==> ids@[j] != id,
        decreases ids.len() - k,
    {
        if ids[k] == id {
            return true;
        }
        k += 1;
    }
    false
}

/// Whether some layout is both demanded by `With` and forbidden by `Without`.
fn find_contradiction(terms: &Vec<Term>) -> (r: bool)
    ensures
        r == contradictory(terms@),
{
    let mut i: usize = 0;
    while i < terms.len()
        invariant
            i <= terms.len(),
            forall|j: int|
                0 <= j < i && (#[trigger] terms@[j]).kind == LeafKind::Without && !terms@[j].optional
                    ==> !insists(terms@, LeafKind::With, terms@[j].id),
        decreases terms.len() - i,
    {
        let t = terms[i];
        if t.kind == LeafKind::Without && !t.optional && asks(terms, LeafKind::With, t.id, true) {
            assert(terms@[i as int].kind == LeafKind::Without);
            assert(insists(terms@, LeafKind::Without, t.id));
            return true;
        }
        i += 1;
    }
    proof {
        if contradictory(terms@) {
            let id = choose|id: u64|
                insists(terms@, LeafKind::With, id) && insists(terms@, LeafKind::Without, id);
            let j = choose|j: int|
                0 <= j < terms@.len() && j < terms@.len() && (#[trigger] terms@[j]).kind
                    == LeafKind::Without && terms@[j].id == id && !terms@[j].optional;
            assert(terms@[j].kind == LeafKind::Without);
        }
    }
    false
}

impl QueryPlan {
    /// Collects the columns and filters of a lowered access tree. Fails
    /// exactly when some layout is both demanded by a `With` and forbidden
    /// by a `Without` outside every `Optional`.
    pub fn from_terms(terms: &Vec<Term>) -> (r: Result<QueryPlan, QueryError>)
        ensures
            r is Err <==> contradictory(terms@),
            r matches Err(e) ==> e == QueryError::Contradiction,
            r matches Ok(plan) ==> plan.compiled_from(terms@) && plan.wf(),
    {
        if find_contradiction(terms) {
            return Err(QueryError::Contradiction);
        }
        let mut immutable: Vec<Column> = Vec::new();
        let mut mutable: Vec<Column> = Vec::new();
        let mut with: Vec<u64> = Vec::new();
        let mut without: Vec<u64> = Vec::new();
        let mut i: usize = 0;
        while i < terms.len()
            invariant
                i <= terms.len(),
                immutable@ == immutable_columns(terms@, i as nat),
                mutable@ == mutable_columns(terms@, i as nat),
                with@ == with_ids(terms@, i as nat),
                without@ == without_ids(terms@, i as nat),
            decreases terms.len() - i,
        {
            let t = terms[i];
            match t.kind {
                LeafKind::Read => {
                    if !asks(terms, LeafKind::Write, t.id, false) && !column_listed(&immutable, t.id) {
                        immutable.push(Column { id: t.id, required: asks_data(terms, t.id) });
                    }
                },
                LeafKind::Write => {
                    if !column_listed(&mutable, t.id) {
                        mutable.push(Column { id: t.id, required: asks_data(terms, t.id) });
                    }
                },
                LeafKind::With => {
                    if !t.optional && !asks_data(terms, t.id) && !id_listed(&with, t.id) {
                        with.push(t.id);
                    }
                },
                LeafKind::Without => {
                    if !t.optional && !id_listed(&without, t.id) {
                        without.push(t.id);
                    }
                },
            }
            i += 1;
        }
        proof {
            compiled_columns_disjoint(terms@);
        }
        Ok(QueryPlan { immutable, mutable, with, without })
    }

    /// Whether the plan selects an archetype with the given signature.
    pub fn matches_signature(&self, signature: &Vec<u64>) -> (r: bool)
        ensures
            r == self.matches(signature@.to_set()),
    {
        let mut k: usize = 0;
        while k < self.immutable.len()
            invariant
                k <= self.immutable.len(),
                forall|j: int|
                    0 <= j < k && (#[trigger] self.immutable@[j]).required ==> signature@.contains(
                        self.immutable@[j].id,
                    ),
            decreases self.immutable.len() - k,
        {
            if self.immutable[k].required && !id_listed(signature, self.immutable[k].id) {
                assert(self.immutable@[k as int].required);
                return false;
            }
            k += 1;
        }
        let mut k: usize = 0;
        while k < self.mutable.len()
            invariant
                k <= self.mutable.len(),
                forall|j: int|
                    0 <= j < k && (#[trigger] self.mutable@[j]).required ==> signature@.contains(
                        self.mutable@[j].id,
                    ),
            decreases self.mutable.len() - k,
        {
            if self.mutable[k].required && !id_listed(signature, self.mutable[k].id) {
                assert(self.mutable@[k as int].required);
                return false;
            }
            k += 1;
        }
        let mut k: usize = 0;
        while k < self.with.len()
            invariant
                k <= self.with.len(),
                forall|j: int| 0 <= j < k ==> signature@.contains(#[trigger] self.with@[j]),
            decreases self.with.len() - k,
        {
            if !id_listed(signature, self.with[k]) {
                return false;
            }
            k += 1;
        }
        let mut k: usize = 0;
        while k < self.without.len()
            invariant
                k <= self.without.len(),
                forall|j: int| 0 <= j < k ==> !signature@.contains(#[trigger] self.without@[j]),
            decreases self.without.len() - k,
        {
            if id_listed(signature, self.without[k]) {
                return false;
            }
            k += 1;
        }
        true
    }
}

/// Compiles an access tree: lowers it, interning the layout of every leaf,
/// and collects the columns and filters of the lowered terms.
pub fn compile(access: &QueryAccess, layouts: &mut Layouts) -> (r: Result<QueryPlan, QueryError>)
    requires
        old(layouts).wf(),
    ensures
        final(layouts).wf(),
        final(layouts)@ == intern_all(old(layouts)@, leaves(*access, false)),
        r is Err <==> contradictory(terms_of(leaves(*access, false), final(layouts)@)),
        r matches Err(e) ==> e == QueryError::Contradiction,
        r matches Ok(plan) ==> plan.wf() && plan.compiled_from(
            terms_of(leaves(*access, false), final(layouts)@),
        ),
{
    let terms = lower(access, layouts);
    proof {
        lowered_is_terms_of(terms@, leaves(*access, false), layouts@);
    }
    QueryPlan::from_terms(&terms)
}


/// The plan has a column for `id`.
pub open spec fn touches(plan: &QueryPlan, id: u64) -> bool {
    has_column(plan.mutable@, id) || has_column(plan.immutable@, id)
}

/// Whether two plans may not run interleaved: both have a column for some
/// layout, and for one of them it is a write column.
pub open spec fn plans_conflict(first: &QueryPlan, second: &QueryPlan) -> bool {
    exists|id: u64|
        #[trigger] touches(first, id) && touches(second, id) && (has_column(first.mutable@, id)
            || has_column(second.mutable@, id))
}

impl QueryPlan {
    /// Whether the plan and `other` may not run interleaved: two queries may
    /// do so only if their write columns are disjoint and neither writes a
    /// column that the other reads.
    pub fn conflicts_with(&self, other: &QueryPlan) -> (r: bool)
        ensures
            r == plans_conflict(self, other),
    {
        let mut k: usize = 0;
        while k < self.mutable.len()
            invariant
                k <= self.mutable.len(),
                forall|j: int| 0 <= j < k ==> !touches(other, (#[trigger] self.mutable@[j]).id),
            decreases self.mutable.len() - k,
        {
            let id = self.mutable[k].id;
            if column_listed(&other.mutable, id) || column_listed(&other.immutable, id) {
                assert(self.mutable@[k as int].id == id);
                assert(touches(self, id));
                return true;
            }
            k += 1;
        }
        let mut k: usize = 0;
        while k < other.mutable.len()
            invariant
                k <= other.mutable.len(),
                forall|j: int|
                    0 <= j < self.mutable.len() ==> !touches(other, (#[trigger] self.mutable@[j]).id),
                forall|j: int|
                    0 <= j < k ==> !has_column(self.immutable@, (#[trigger] other.mutable@[j]).id),
            decreases other.mutable.len() - k,
        {
            let id = other.mutable[k].id;
            if column_listed(&self.immutable, id) {
                assert(other.mutable@[k as int].id == id);
                assert(touches(self, id));
                return true;
            }
            k += 1;
        }
        proof {
            if plans_conflict(self, other) {
                let id = choose|id: u64|
                    #[trigger] touches(self, id) && touches(other, id) && (has_column(self.mutable@, id)
                        || has_column(other.mutable@, id));
                if has_column(self.mutable@, id) {
                    let j = choose|j: int|
                        0 <= j < self.mutable@.len() && (#[trigger] self.mutable@[j]).id == id;
                    assert(!touches(other, self.mutable@[j].id));
                } else {
                    let j = choose|j: int|
                        0 <= j < other.mutable@.len() && (#[trigger] other.mutable@[j]).id == id;
                    assert(!has_column(self.immutable@, other.mutable@[j].id));
                }
            }
        }
        false
    }
}

} // verus!

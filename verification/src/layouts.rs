//! The layout registry: stable ids for structural type descriptors.

use crate::ecs::type_layout::{
    primitive_layouts, primitive_name, primitive_names_distinct, unit_view, LayoutView,
    TypeLayout, PRIMITIVE_COUNT,
};
use crate::error::RegistryError;
use vstd::prelude::*;

verus! {

/// Opaque handle of an interned descriptor.
#[derive(Clone, Copy, Debug, PartialEq, Eq, Structural, Hash)]
pub struct LayoutId(pub u64);

/// The id that interning `layout` into `table` yields: the position of the
/// descriptor if it is present, the next free position otherwise.
pub open spec fn interned_id(table: Seq<LayoutView>, layout: LayoutView) -> int {
    if table.contains(layout) {
        table.index_of(layout)
    } else {
        table.len() as int
    }
}

/// The table after interning `layout`: unchanged if the descriptor is
/// present, extended by it otherwise.
pub open spec fn interned_table(table: Seq<LayoutView>, layout: LayoutView) -> Seq<LayoutView> {
    if table.contains(layout) {
        table
    } else {
        table.push(layout)
    }
}

/// The table that holds exactly the primitive leaves at their reserved ids.
pub open spec fn primitive_table() -> Seq<LayoutView> {
    Seq::new(PRIMITIVE_COUNT as nat, |i: int| unit_view(primitive_name(i as u64)))
}

/// Maps descriptors to ids, by insertion order.
pub struct Layouts {
    layouts: Vec<TypeLayout>,
}

impl View for Layouts {
    type V = Seq<LayoutView>;

    closed spec fn view(&self) -> Seq<LayoutView> {
        Seq::new(self.layouts.len() as nat, |i: int| self.layouts[i]@)
    }
}

impl Layouts {
    /// No descriptor is interned twice.
    pub open spec fn wf(&self) -> bool {
        self@.no_duplicates()
    }

    /// A registry with no descriptor interned.
    pub fn empty() -> (r: Self)
        ensures
            r.wf(),
            r@ == Seq::<LayoutView>::empty(),
    {
        let r = Layouts { layouts: Vec::new() };
        assert(r@ =~= Seq::<LayoutView>::empty());
        r
    }

    /// A registry with the primitive leaves interned at their reserved ids.
    pub fn new() -> (r: Self)
        ensures
            r.wf(),
            r@ == primitive_table(),
    {
        let r = Layouts { layouts: primitive_layouts() };
        proof {
            primitive_names_distinct();
            assert forall|i: int| 0 <= i < PRIMITIVE_COUNT implies r@[i] == primitive_table()[i] by {
                assert(r.layouts[i as u64 as int]@ == unit_view(primitive_name(i as u64)));
            }
            assert(r@ =~= primitive_table());
            assert forall|i: int, j: int| 0 <= i < j < r@.len() implies r@[i] != r@[j] by {
                assert(primitive_name(i as u64) != primitive_name(j as u64));
            }
        }
        r
    }

    /// Number of interned descriptors.
    pub fn len(&self) -> (n: usize)
        ensures
            n == self@.len(),
    {
        self.layouts.len()
    }

    /// The id of `layout` if it is interned.
    pub fn find(&self, layout: &TypeLayout) -> (r: Option<u64>)
        ensures
            match r {
                Some(id) => self@.contains(layout@) && id < self@.len() && self@[id as int] == layout@,
                None => !self@.contains(layout@),
            },
    {
        let mut i: usize = 0;
        while i < self.layouts.len()
            invariant
                i <= self.layouts.len(),
                forall|j: int| 0 <= j < i ==> self@[j] != layout@,
            decreases self.layouts.len() - i,
        {
            if self.layouts[i].same(layout) {
                assert(self@[i as int] == layout@);
                return Some(i as u64);
            }
            i += 1;
        }
        None
    }

    /// Interns `layout`: the id of a structurally equal descriptor if one is
    /// interned, a fresh id (the number of descriptors interned so far) otherwise.
    pub fn external_id(&mut self, layout: &TypeLayout) -> (id: u64)
        requires
            old(self).wf(),
        ensures
            final(self).wf(),
            id == interned_id(old(self)@, layout@),
            final(self)@ == interned_table(old(self)@, layout@),
            id < final(self)@.len(),
            final(self)@[id as int] == layout@,
    {
        match self.find(layout) {
            Some(id) => {
                proof {
                    let k = old(self)@.index_of(layout@);
                    assert(old(self)@[k] == layout@);
                }
                id
            },
            None => {
                let next = self.layouts.len() as u64;
                let ghost before = self@;
                self.layouts.push(layout.clone());
                assert(self@ =~= before.push(layout@));
                assert(self@.no_duplicates()) by {
                    assert forall|i: int, j: int|
                        0 <= i < self@.len() && 0 <= j < self@.len() && i != j implies self@[i]
                        != self@[j] by {
                        if i < before.len() {
                            assert(before[i] == self@[i]);
                        }
                        if j < before.len() {
                            assert(before[j] == self@[j]);
                        }
                    }
                }
                next
            },
        }
    }

    /// Interns `layout` and returns its handle.
    pub fn component_id(&mut self, layout: &TypeLayout) -> (id: LayoutId)
        requires
            old(self).wf(),
        ensures
            final(self).wf(),
            id.0 == interned_id(old(self)@, layout@),
            final(self)@ == interned_table(old(self)@, layout@),
    {
        LayoutId(self.external_id(layout))
    }

    /// The descriptor interned under `id`.
    pub fn lookup(&self, id: u64) -> (r: Option<&TypeLayout>)
        ensures
            match r {
                Some(layout) => id < self@.len() && layout@ == self@[id as int],
                None => id >= self@.len(),
            },
    {
        if id < self.layouts.len() as u64 {
            Some(&self.layouts[id as usize])
        } else {
            None
        }
    }

    /// Binds `layout` to the id that the guest assumed for it. Succeeds exactly
    /// when interning the descriptor yields that id; the registry is left
    /// untouched otherwise.
    pub fn register(&mut self, id: u64, layout: &TypeLayout) -> (r: Result<(), RegistryError>)
        requires
            old(self).wf(),
        ensures
            final(self).wf(),
            r is Ok <==> id == interned_id(old(self)@, layout@),
            r is Ok ==> final(self)@ == interned_table(old(self)@, layout@),
            r is Err ==> r == Err::<(), RegistryError>(RegistryError::InconsistentLayout)
                && final(self)@ == old(self)@,
    {
        match self.find(layout) {
            Some(found) => {
                proof {
                    let k = old(self)@.index_of(layout@);
                    assert(old(self)@[k] == layout@);
                }
                if found == id {
                    Ok(())
                } else {
                    Err(RegistryError::InconsistentLayout)
                }
            },
            None => {
                if id == self.layouts.len() as u64 {
                    let _ = self.external_id(layout);
                    Ok(())
                } else {
                    Err(RegistryError::InconsistentLayout)
                }
            },
        }
    }
}

impl Default for Layouts {
    fn default() -> (r: Self)
        ensures
            r.wf(),
            r@ == primitive_table(),
    {
        Layouts::new()
    }
}

/// Interning is idempotent and sees only the structure of a descriptor:
/// interning a descriptor again, or interning a structurally equal copy of it,
/// yields the id of the first interning and leaves the table as it was.
pub proof fn intern_is_idempotent(table: Seq<LayoutView>, first: TypeLayout, second: TypeLayout)
    requires
        table.no_duplicates(),
        first@ == second@,
    ensures
        interned_table(table, first@).no_duplicates(),
        interned_id(interned_table(table, first@), second@) == interned_id(table, first@),
        interned_table(interned_table(table, first@), second@) == interned_table(table, first@),
{
    let after = interned_table(table, first@);
    if table.contains(first@) {
        let k = table.index_of(first@);
        assert(table[k] == first@);
    } else {
        assert(after[table.len() as int] == first@);
        assert(after.contains(first@));
        let k = after.index_of(first@);
        assert(after[k] == first@);
        assert forall|i: int, j: int| 0 <= i < after.len() && 0 <= j < after.len() && i != j implies after[i]
            != after[j] by {
            if i < table.len() {
                assert(table.contains(after[i]));
            }
            if j < table.len() {
                assert(table.contains(after[j]));
            }
        }
        if k < table.len() {
            assert(table.contains(first@));
        }
    }
}

/// Ids are handed out in insertion order and never reused: interning keeps
/// every descriptor at the id it had.
pub proof fn intern_keeps_ids(table: Seq<LayoutView>, layout: LayoutView, id: int)
    requires
        0 <= id < table.len(),
    ensures
        id < interned_table(table, layout).len(),
        interned_table(table, layout)[id] == table[id],
{
}

} // verus!

//! Structural type descriptors.

use vstd::prelude::*;

verus! {

/// Mathematical model of a type descriptor: names are character sequences,
/// members are ordered sequences of named descriptors.
pub enum LayoutView {
    Struct { name: Seq<char>, fields: Seq<(Seq<char>, LayoutView)> },
    Enum { name: Seq<char>, variants: Seq<(Seq<char>, LayoutView)> },
}

/// A structural type descriptor.
#[derive(Debug, Hash)]
#[allow(inconsistent_fields)]
pub enum TypeLayout {
    Struct { name: String, layout: StructLayout },
    Enum { name: String, layout: EnumLayout },
}

/// The ordered fields of a struct descriptor.
#[derive(Debug, Hash)]
pub struct StructLayout {
    pub fields: Vec<(String, TypeLayout)>,
}

/// The ordered variants of an enum descriptor.
#[derive(Debug, Hash)]
pub struct EnumLayout {
    pub variants: Vec<(String, TypeLayout)>,
}

/// Model of an ordered member list.
pub open spec fn members_view(members: Vec<(String, TypeLayout)>) -> Seq<(Seq<char>, LayoutView)>
    decreases members,
{
    Seq::new(
        members.len() as nat,
        |i: int|
            if 0 <= i < members.len() {
                (members[i].0@, layout_view(members[i].1))
            } else {
                arbitrary()
            },
    )
}

/// Model of a descriptor.
pub open spec fn layout_view(layout: TypeLayout) -> LayoutView
    decreases layout,
{
    match layout {
        TypeLayout::Struct { name, layout } => LayoutView::Struct {
            name: name@,
            fields: members_view(layout.fields),
        },
        TypeLayout::Enum { name, layout } => LayoutView::Enum {
            name: name@,
            variants: members_view(layout.variants),
        },
    }
}

impl View for TypeLayout {
    type V = LayoutView;

    open spec fn view(&self) -> LayoutView {
        layout_view(*self)
    }
}

impl TypeLayout {
    /// A descriptor without members: the shape of every primitive leaf.
    pub fn unit(name: String) -> (r: Self)
        ensures
            r@ == unit_view(name@),
    {
        let r = TypeLayout::Struct { name, layout: StructLayout { fields: Vec::new() } };
        assert(r@->fields =~= Seq::empty());
        r
    }
}

/// Whether two member lists have the same model.
fn same_members(a: &Vec<(String, TypeLayout)>, b: &Vec<(String, TypeLayout)>) -> (r: bool)
    ensures
        r == (members_view(*a) == members_view(*b)),
    decreases *a,
{
    if a.len() != b.len() {
        assert(members_view(*a).len() != members_view(*b).len());
        return false;
    }
    let mut i: usize = 0;
    while i < a.len()
        invariant
            i <= a.len(),
            a.len() == b.len(),
            forall|j: int| 0 <= j < i ==> members_view(*a)[j] == members_view(*b)[j],
        decreases a.len() - i,
    {
        let same_name = a[i].0 == b[i].0;
        if !same_name {
            assert(members_view(*a)[i as int] != members_view(*b)[i as int]);
            return false;
        }
        if !a[i].1.same(&b[i].1) {
            assert(members_view(*a)[i as int] != members_view(*b)[i as int]);
            return false;
        }
        i += 1;
    }
    assert(members_view(*a) =~= members_view(*b));
    true
}

/// A copy of a member list with the same model.
fn copy_members(a: &Vec<(String, TypeLayout)>) -> (r: Vec<(String, TypeLayout)>)
    ensures
        members_view(r) == members_view(*a),
    decreases *a,
{
    let mut out: Vec<(String, TypeLayout)> = Vec::new();
    let mut i: usize = 0;
    while i < a.len()
        invariant
            i <= a.len(),
            out.len() == i,
            forall|j: int| 0 <= j < i ==> members_view(out)[j] == members_view(*a)[j],
        decreases a.len() - i,
    {
        let name = a[i].0.clone();
        let inner = a[i].1.duplicate();
        let ghost before = out;
        out.push((name, inner));
        assert forall|j: int| 0 <= j < i + 1 implies members_view(out)[j] == members_view(*a)[j] by {
            if j < i {
                assert(out[j] == before[j]);
                assert(members_view(before)[j] == members_view(*a)[j]);
            }
        }
        i += 1;
    }
    assert(members_view(out) =~= members_view(*a));
    out
}

impl TypeLayout {
    /// Structural (deep) equality.
    pub fn same(&self, other: &TypeLayout) -> (r: bool)
        ensures
            r == (self@ == other@),
        decreases *self,
    {
        match self {
            TypeLayout::Struct { name, layout } => match other {
                TypeLayout::Struct { name: other_name, layout: other_layout } => {
                    let same_name = *name == *other_name;
                    same_name && same_members(&layout.fields, &other_layout.fields)
                },
                TypeLayout::Enum { .. } => false,
            },
            TypeLayout::Enum { name, layout } => match other {
                TypeLayout::Struct { .. } => false,
                TypeLayout::Enum { name: other_name, layout: other_layout } => {
                    let same_name = *name == *other_name;
                    same_name && same_members(&layout.variants, &other_layout.variants)
                },
            },
        }
    }

    /// A deep copy with the same model.
    pub fn duplicate(&self) -> (r: TypeLayout)
        ensures
            r@ == self@,
        decreases *self,
    {
        match self {
            TypeLayout::Struct { name, layout } => TypeLayout::Struct {
                name: name.clone(),
                layout: StructLayout { fields: copy_members(&layout.fields) },
            },
            TypeLayout::Enum { name, layout } => TypeLayout::Enum {
                name: name.clone(),
                layout: EnumLayout { variants: copy_members(&layout.variants) },
            },
        }
    }
}

impl Clone for TypeLayout {
    fn clone(&self) -> (r: Self)
        ensures
            r@ == self@,
    {
        self.duplicate()
    }
}

impl PartialEq for TypeLayout {
    fn eq(&self, other: &Self) -> (r: bool) {
        self.same(other)
    }
}

impl vstd::std_specs::cmp::PartialEqSpecImpl for TypeLayout {
    open spec fn obeys_eq_spec() -> bool {
        true
    }

    open spec fn eq_spec(&self, other: &Self) -> bool {
        self@ == other@
    }
}

impl Eq for TypeLayout {

}

impl StructLayout {
    /// A struct body with the given ordered fields.
    pub fn new(fields: Vec<(String, TypeLayout)>) -> (r: Self)
        ensures
            r.fields == fields,
    {
        StructLayout { fields }
    }
}

impl Clone for StructLayout {
    fn clone(&self) -> (r: Self)
        ensures
            members_view(r.fields) == members_view(self.fields),
    {
        StructLayout { fields: copy_members(&self.fields) }
    }
}

impl PartialEq for StructLayout {
    fn eq(&self, other: &Self) -> (r: bool) {
        same_members(&self.fields, &other.fields)
    }
}

impl vstd::std_specs::cmp::PartialEqSpecImpl for StructLayout {
    open spec fn obeys_eq_spec() -> bool {
        true
    }

    open spec fn eq_spec(&self, other: &Self) -> bool {
        members_view(self.fields) == members_view(other.fields)
    }
}

impl Eq for StructLayout {

}

impl EnumLayout {
    /// An enum body with the given ordered variants.
    pub fn new(variants: Vec<(String, TypeLayout)>) -> (r: Self)
        ensures
            r.variants == variants,
    {
        EnumLayout { variants }
    }
}

impl Clone for EnumLayout {
    fn clone(&self) -> (r: Self)
        ensures
            members_view(r.variants) == members_view(self.variants),
    {
        EnumLayout { variants: copy_members(&self.variants) }
    }
}

impl PartialEq for EnumLayout {
    fn eq(&self, other: &Self) -> (r: bool) {
        same_members(&self.variants, &other.variants)
    }
}

impl vstd::std_specs::cmp::PartialEqSpecImpl for EnumLayout {
    open spec fn obeys_eq_spec() -> bool {
        true
    }

    open spec fn eq_spec(&self, other: &Self) -> bool {
        members_view(self.variants) == members_view(other.variants)
    }
}

impl Eq for EnumLayout {

}

/// The model of a member-less struct descriptor called `name`.
pub open spec fn unit_view(name: Seq<char>) -> LayoutView {
    LayoutView::Struct { name, fields: Seq::empty() }
}

/// Types that describe their own layout.
pub trait IntoTypeLayout {
    /// The model of the descriptor that `layout` builds.
    spec fn spec_layout() -> LayoutView;

    /// Builds the descriptor of the implementing type.
    fn layout() -> (r: TypeLayout)
        ensures
            r@ == Self::spec_layout(),
    ;
}

impl IntoTypeLayout for () {
    open spec fn spec_layout() -> LayoutView {
        unit_view("()"@)
    }

    fn layout() -> (r: TypeLayout) {
        TypeLayout::unit("()".to_owned())
    }
}

impl IntoTypeLayout for u8 {
    open spec fn spec_layout() -> LayoutView {
        unit_view("u8"@)
    }

    fn layout() -> (r: TypeLayout) {
        TypeLayout::unit("u8".to_owned())
    }
}

impl IntoTypeLayout for i8 {
    open spec fn spec_layout() -> LayoutView {
        unit_view("i8"@)
    }

    fn layout() -> (r: TypeLayout) {
        TypeLayout::unit("i8".to_owned())
    }
}

impl IntoTypeLayout for u16 {
    open spec fn spec_layout() -> LayoutView {
        unit_view("u16"@)
    }

    fn layout() -> (r: TypeLayout) {
        TypeLayout::unit("u16".to_owned())
    }
}

impl IntoTypeLayout for i16 {
    open spec fn spec_layout() -> LayoutView {
        unit_view("i16"@)
    }

    fn layout() -> (r: TypeLayout) {
        TypeLayout::unit("i16".to_owned())
    }
}

impl IntoTypeLayout for u32 {
    open spec fn spec_layout() -> LayoutView {
        unit_view("u32"@)
    }

    fn layout() -> (r: TypeLayout) {
        TypeLayout::unit("u32".to_owned())
    }
}

impl IntoTypeLayout for i32 {
    open spec fn spec_layout() -> LayoutView {
        unit_view("i32"@)
    }

    fn layout() -> (r: TypeLayout) {
        TypeLayout::unit("i32".to_owned())
    }
}

impl IntoTypeLayout for u64 {
    open spec fn spec_layout() -> LayoutView {
        unit_view("u64"@)
    }

    fn layout() -> (r: TypeLayout) {
        TypeLayout::unit("u64".to_owned())
    }
}

impl IntoTypeLayout for i64 {
    open spec fn spec_layout() -> LayoutView {
        unit_view("i64"@)
    }

    fn layout() -> (r: TypeLayout) {
        TypeLayout::unit("i64".to_owned())
    }
}

impl IntoTypeLayout for u128 {
    open spec fn spec_layout() -> LayoutView {
        unit_view("u128"@)
    }

    fn layout() -> (r: TypeLayout) {
        TypeLayout::unit("u128".to_owned())
    }
}

impl IntoTypeLayout for i128 {
    open spec fn spec_layout() -> LayoutView {
        unit_view("i128"@)
    }

    fn layout() -> (r: TypeLayout) {
        TypeLayout::unit("i128".to_owned())
    }
}

impl IntoTypeLayout for char {
    open spec fn spec_layout() -> LayoutView {
        unit_view("char"@)
    }

    fn layout() -> (r: TypeLayout) {
        TypeLayout::unit("char".to_owned())
    }
}

impl IntoTypeLayout for bool {
    open spec fn spec_layout() -> LayoutView {
        unit_view("bool"@)
    }

    fn layout() -> (r: TypeLayout) {
        TypeLayout::unit("bool".to_owned())
    }
}

/// Number of primitive leaves.
pub const PRIMITIVE_COUNT: usize = 15;

/// Reserved name of the primitive leaf with the given reserved id.
pub open spec fn primitive_name(id: u64) -> Seq<char> {
    match id {
        0 => "()"@,
        1 => "u8"@,
        2 => "u16"@,
        3 => "u32"@,
        4 => "u64"@,
        5 => "u128"@,
        6 => "i8"@,
        7 => "i16"@,
        8 => "i32"@,
        9 => "i64"@,
        10 => "i128"@,
        11 => "f32"@,
        12 => "f64"@,
        13 => "bool"@,
        _ => "char"@,
    }
}

/// The reserved names are pairwise different.
pub proof fn primitive_names_distinct()
    ensures
        forall|i: u64, j: u64|
            i < j < PRIMITIVE_COUNT ==> #[trigger] primitive_name(i) != #[trigger] primitive_name(j),
{
    reveal_strlit("()");
    reveal_strlit("u8");
    reveal_strlit("u16");
    reveal_strlit("u32");
    reveal_strlit("u64");
    reveal_strlit("u128");
    reveal_strlit("i8");
    reveal_strlit("i16");
    reveal_strlit("i32");
    reveal_strlit("i64");
    reveal_strlit("i128");
    reveal_strlit("f32");
    reveal_strlit("f64");
    reveal_strlit("bool");
    reveal_strlit("char");
    assert forall|i: u64, j: u64| i < j < PRIMITIVE_COUNT implies #[trigger] primitive_name(i)
        != #[trigger] primitive_name(j) by {
        let a = primitive_name(i);
        let b = primitive_name(j);
        if a.len() == b.len() {
            assert(a[0] != b[0] || a[1] != b[1] || a[2] != b[2]);
        }
    }
}

/// The primitive leaves, each at the position of its reserved id.
pub fn primitive_layouts() -> (out: Vec<TypeLayout>)
    ensures
        out.len() == PRIMITIVE_COUNT,
        forall|i: u64| i < PRIMITIVE_COUNT ==> (#[trigger] out[i as int])@ == unit_view(primitive_name(i)),
{
    let mut out: Vec<TypeLayout> = Vec::new();
    out.push(TypeLayout::unit("()".to_owned()));
    out.push(TypeLayout::unit("u8".to_owned()));
    out.push(TypeLayout::unit("u16".to_owned()));
    out.push(TypeLayout::unit("u32".to_owned()));
    out.push(TypeLayout::unit("u64".to_owned()));
    out.push(TypeLayout::unit("u128".to_owned()));
    out.push(TypeLayout::unit("i8".to_owned()));
    out.push(TypeLayout::unit("i16".to_owned()));
    out.push(TypeLayout::unit("i32".to_owned()));
    out.push(TypeLayout::unit("i64".to_owned()));
    out.push(TypeLayout::unit("i128".to_owned()));
    out.push(TypeLayout::unit("f32".to_owned()));
    out.push(TypeLayout::unit("f64".to_owned()));
    out.push(TypeLayout::unit("bool".to_owned()));
    out.push(TypeLayout::unit("char".to_owned()));
    out
}

} // verus!

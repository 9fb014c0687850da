use quill::ecs::type_layout::{
    primitive_layouts, EnumLayout, IntoTypeLayout, StructLayout, TypeLayout,
};
use quill::error::RegistryError;
use quill::layouts::{LayoutId, Layouts};

fn point() -> TypeLayout {
    TypeLayout::Struct {
        name: "Point".to_owned(),
        layout: StructLayout::new(vec![
            ("x".to_owned(), <i32 as IntoTypeLayout>::layout()),
            ("y".to_owned(), <i32 as IntoTypeLayout>::layout()),
        ]),
    }
}

fn shape() -> TypeLayout {
    TypeLayout::Enum {
        name: "Shape".to_owned(),
        layout: EnumLayout::new(vec![
            ("Dot".to_owned(), point()),
            ("Nothing".to_owned(), <() as IntoTypeLayout>::layout()),
        ]),
    }
}

#[test]
fn unit_layout_is_a_struct_without_fields() {
    let layout = TypeLayout::unit("u32".to_owned());
    match layout {
        TypeLayout::Struct { name, layout } => {
            assert_eq!(name, "u32");
            assert!(layout.fields.is_empty());
        }
        TypeLayout::Enum { .. } => panic!("a unit layout is a struct"),
    }
}

#[test]
fn primitive_layout_names_are_the_type_names() {
    assert_eq!(<() as IntoTypeLayout>::layout(), TypeLayout::unit("()".to_owned()));
    assert_eq!(<u8 as IntoTypeLayout>::layout(), TypeLayout::unit("u8".to_owned()));
    assert_eq!(<i8 as IntoTypeLayout>::layout(), TypeLayout::unit("i8".to_owned()));
    assert_eq!(<u16 as IntoTypeLayout>::layout(), TypeLayout::unit("u16".to_owned()));
    assert_eq!(<i16 as IntoTypeLayout>::layout(), TypeLayout::unit("i16".to_owned()));
    assert_eq!(<u32 as IntoTypeLayout>::layout(), TypeLayout::unit("u32".to_owned()));
    assert_eq!(<i32 as IntoTypeLayout>::layout(), TypeLayout::unit("i32".to_owned()));
    assert_eq!(<u64 as IntoTypeLayout>::layout(), TypeLayout::unit("u64".to_owned()));
    assert_eq!(<i64 as IntoTypeLayout>::layout(), TypeLayout::unit("i64".to_owned()));
    assert_eq!(<u128 as IntoTypeLayout>::layout(), TypeLayout::unit("u128".to_owned()));
    assert_eq!(<i128 as IntoTypeLayout>::layout(), TypeLayout::unit("i128".to_owned()));
    assert_eq!(<char as IntoTypeLayout>::layout(), TypeLayout::unit("char".to_owned()));
    assert_eq!(<bool as IntoTypeLayout>::layout(), TypeLayout::unit("bool".to_owned()));
}

#[test]
fn equality_of_layouts_is_structural_and_deep() {
    assert_eq!(point(), point());
    assert_eq!(shape(), shape());
    assert!(point().same(&point()));
    assert_ne!(point(), shape());
    let renamed = TypeLayout::Struct {
        name: "Point".to_owned(),
        layout: StructLayout::new(vec![
            ("x".to_owned(), <i32 as IntoTypeLayout>::layout()),
            ("z".to_owned(), <i32 as IntoTypeLayout>::layout()),
        ]),
    };
    assert_ne!(point(), renamed);
    let retyped = TypeLayout::Struct {
        name: "Point".to_owned(),
        layout: StructLayout::new(vec![
            ("x".to_owned(), <i32 as IntoTypeLayout>::layout()),
            ("y".to_owned(), <u32 as IntoTypeLayout>::layout()),
        ]),
    };
    assert_ne!(point(), retyped);
    let shorter = TypeLayout::Struct {
        name: "Point".to_owned(),
        layout: StructLayout::new(vec![("x".to_owned(), <i32 as IntoTypeLayout>::layout())]),
    };
    assert_ne!(point(), shorter);
    let as_enum = TypeLayout::Enum { name: "Point".to_owned(), layout: EnumLayout::new(vec![]) };
    let as_struct =
        TypeLayout::Struct { name: "Point".to_owned(), layout: StructLayout::new(vec![]) };
    assert_ne!(as_enum, as_struct);
}

#[test]
fn clone_of_a_layout_equals_the_layout() {
    let first = shape();
    let copy = first.clone();
    assert_eq!(first, copy);
    assert_eq!(first.duplicate(), copy);
    let fields = StructLayout::new(vec![("x".to_owned(), point())]);
    assert!(fields.clone() == fields);
    let variants = EnumLayout::new(vec![("A".to_owned(), shape())]);
    assert!(variants.clone() == variants);
}

#[test]
fn primitives_are_interned_at_reserved_ids() {
    let mut layouts = Layouts::new();
    assert_eq!(layouts.len(), 15);
    assert_eq!(layouts.external_id(&<() as IntoTypeLayout>::layout()), 0);
    assert_eq!(layouts.external_id(&<u8 as IntoTypeLayout>::layout()), 1);
    assert_eq!(layouts.external_id(&<u16 as IntoTypeLayout>::layout()), 2);
    assert_eq!(layouts.external_id(&<u32 as IntoTypeLayout>::layout()), 3);
    assert_eq!(layouts.external_id(&<u64 as IntoTypeLayout>::layout()), 4);
    assert_eq!(layouts.external_id(&<u128 as IntoTypeLayout>::layout()), 5);
    assert_eq!(layouts.external_id(&<i8 as IntoTypeLayout>::layout()), 6);
    assert_eq!(layouts.external_id(&<i16 as IntoTypeLayout>::layout()), 7);
    assert_eq!(layouts.external_id(&<i32 as IntoTypeLayout>::layout()), 8);
    assert_eq!(layouts.external_id(&<i64 as IntoTypeLayout>::layout()), 9);
    assert_eq!(layouts.external_id(&<i128 as IntoTypeLayout>::layout()), 10);
    assert_eq!(layouts.external_id(&TypeLayout::unit("f32".to_owned())), 11);
    assert_eq!(layouts.external_id(&TypeLayout::unit("f64".to_owned())), 12);
    assert_eq!(layouts.external_id(&<bool as IntoTypeLayout>::layout()), 13);
    assert_eq!(layouts.external_id(&<char as IntoTypeLayout>::layout()), 14);
    assert_eq!(layouts.len(), 15);
    assert_eq!(primitive_layouts().len(), 15);
    assert_eq!(Layouts::default().len(), 15);
}

#[test]
fn ids_are_assigned_in_insertion_order_from_zero() {
    let mut layouts = Layouts::empty();
    assert_eq!(layouts.len(), 0);
    assert_eq!(layouts.external_id(&point()), 0);
    assert_eq!(layouts.external_id(&shape()), 1);
    assert_eq!(layouts.external_id(&<u32 as IntoTypeLayout>::layout()), 2);
    assert_eq!(layouts.len(), 3);
}

#[test]
fn interning_is_idempotent() {
    let mut layouts = Layouts::new();
    let first = layouts.external_id(&point());
    assert_eq!(first, 15);
    assert_eq!(layouts.external_id(&point()), first);
    assert_eq!(layouts.external_id(&point().clone()), first);
    assert_eq!(layouts.len(), 16);
    let second = layouts.external_id(&shape());
    assert_eq!(second, 16);
    assert_eq!(layouts.external_id(&point()), first);
    assert_eq!(layouts.component_id(&shape()), LayoutId(16));
}

#[test]
fn lookup_returns_the_interned_descriptor() {
    let mut layouts = Layouts::new();
    let id = layouts.external_id(&shape());
    assert_eq!(layouts.lookup(id), Some(&shape()));
    assert_eq!(layouts.lookup(3), Some(&TypeLayout::unit("u32".to_owned())));
    assert_eq!(layouts.lookup(id + 1), None);
    assert_eq!(layouts.find(&shape()), Some(id));
    assert_eq!(layouts.find(&point()), None);
}

#[test]
fn register_binds_a_layout_to_the_id_interning_gives_it() {
    let mut layouts = Layouts::new();
    assert_eq!(layouts.register(3, &<u32 as IntoTypeLayout>::layout()), Ok(()));
    assert_eq!(layouts.register(15, &point()), Ok(()));
    assert_eq!(layouts.register(15, &point()), Ok(()));
    assert_eq!(layouts.len(), 16);
}

#[test]
fn register_rejects_an_id_bound_to_another_descriptor() {
    let mut layouts = Layouts::new();
    assert_eq!(layouts.register(3, &point()), Err(RegistryError::InconsistentLayout));
    assert_eq!(
        layouts.register(4, &<u32 as IntoTypeLayout>::layout()),
        Err(RegistryError::InconsistentLayout)
    );
    assert_eq!(layouts.register(17, &point()), Err(RegistryError::InconsistentLayout));
    assert_eq!(layouts.len(), 15);
    assert_eq!(layouts.find(&point()), None);
}

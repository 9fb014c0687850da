use quill::ecs::type_layout::{IntoTypeLayout, TypeLayout};
use quill::ecs::{LeafKind, QueryAccess};
use quill::error::QueryError;
use quill::layouts::Layouts;
use quill::query::{compile, lower, Column, QueryPlan, Term};

fn layout(name: &str) -> TypeLayout {
    TypeLayout::unit(name.to_owned())
}

fn term(kind: LeafKind, id: u64, optional: bool) -> Term {
    Term { kind, id, optional }
}

#[test]
fn lowering_walks_the_tree_left_to_right() {
    let mut layouts = Layouts::new();
    let access = QueryAccess::Union(vec![
        QueryAccess::Read(layout("u32")),
        QueryAccess::With(layout("A"), Box::new(QueryAccess::Write(layout("B")))),
        QueryAccess::Optional(Box::new(QueryAccess::Read(layout("u8")))),
        QueryAccess::Without(layout("A"), Box::new(QueryAccess::Empty)),
    ]);
    let terms = lower(&access, &mut layouts);
    assert_eq!(
        terms,
        vec![
            term(LeafKind::Read, 3, false),
            term(LeafKind::With, 15, false),
            term(LeafKind::Write, 16, false),
            term(LeafKind::Read, 1, true),
            term(LeafKind::Without, 15, false),
        ]
    );
    assert_eq!(layouts.len(), 17);
    assert_eq!(layouts.find(&layout("A")), Some(15));
    assert_eq!(layouts.find(&layout("B")), Some(16));
}

#[test]
fn lowering_nothing_yields_no_terms() {
    let mut layouts = Layouts::new();
    assert_eq!(lower(&QueryAccess::Empty, &mut layouts), vec![]);
    assert_eq!(lower(&QueryAccess::Union(vec![]), &mut layouts), vec![]);
    assert_eq!(layouts.len(), 15);
}

#[test]
fn nested_optional_is_idempotent() {
    let mut layouts = Layouts::new();
    let once = QueryAccess::Optional(Box::new(QueryAccess::Read(layout("u32"))));
    let twice = QueryAccess::Optional(Box::new(QueryAccess::Optional(Box::new(
        QueryAccess::Read(layout("u32")),
    ))));
    assert_eq!(lower(&once, &mut layouts), vec![term(LeafKind::Read, 3, true)]);
    assert_eq!(lower(&twice, &mut layouts), vec![term(LeafKind::Read, 3, true)]);
}

#[test]
fn optional_covers_everything_below_it() {
    let mut layouts = Layouts::new();
    let access = QueryAccess::Optional(Box::new(QueryAccess::With(
        layout("u8"),
        Box::new(QueryAccess::Union(vec![
            QueryAccess::Write(layout("u16")),
            QueryAccess::Without(layout("u32"), Box::new(QueryAccess::Empty)),
        ])),
    )));
    assert_eq!(
        lower(&access, &mut layouts),
        vec![
            term(LeafKind::With, 1, true),
            term(LeafKind::Write, 2, true),
            term(LeafKind::Without, 3, true),
        ]
    );
}

#[test]
fn plan_lists_columns_in_order_of_first_appearance() {
    let terms = vec![
        term(LeafKind::Read, 7, false),
        term(LeafKind::Write, 5, false),
        term(LeafKind::Read, 3, false),
        term(LeafKind::Read, 7, false),
        term(LeafKind::Write, 9, false),
        term(LeafKind::Write, 5, false),
    ];
    let plan = QueryPlan::from_terms(&terms).unwrap();
    assert_eq!(
        plan.immutable,
        vec![Column { id: 7, required: true }, Column { id: 3, required: true }]
    );
    assert_eq!(
        plan.mutable,
        vec![Column { id: 5, required: true }, Column { id: 9, required: true }]
    );
    assert_eq!(plan.with, vec![]);
    assert_eq!(plan.without, vec![]);
}

#[test]
fn read_and_write_of_one_layout_collapse_to_write() {
    let terms = vec![
        term(LeafKind::Read, 4, false),
        term(LeafKind::Read, 6, false),
        term(LeafKind::Write, 4, false),
    ];
    let plan = QueryPlan::from_terms(&terms).unwrap();
    assert_eq!(plan.immutable, vec![Column { id: 6, required: true }]);
    assert_eq!(plan.mutable, vec![Column { id: 4, required: true }]);
}

#[test]
fn optional_columns_are_not_required() {
    let terms = vec![
        term(LeafKind::Read, 1, true),
        term(LeafKind::Write, 2, true),
        term(LeafKind::Read, 3, false),
        term(LeafKind::Write, 4, true),
        term(LeafKind::Read, 4, false),
    ];
    let plan = QueryPlan::from_terms(&terms).unwrap();
    assert_eq!(
        plan.immutable,
        vec![Column { id: 1, required: false }, Column { id: 3, required: true }]
    );
    assert_eq!(
        plan.mutable,
        vec![Column { id: 2, required: false }, Column { id: 4, required: true }]
    );
    assert!(plan.matches_signature(&vec![3, 4]));
    assert!(plan.matches_signature(&vec![1, 2, 3, 4]));
    assert!(!plan.matches_signature(&vec![1, 2, 3]));
    assert!(!plan.matches_signature(&vec![1, 2, 4]));
}

#[test]
fn filters_are_listed_once_and_apart_from_columns() {
    let terms = vec![
        term(LeafKind::With, 1, false),
        term(LeafKind::With, 2, false),
        term(LeafKind::Read, 2, false),
        term(LeafKind::With, 1, false),
        term(LeafKind::With, 8, true),
        term(LeafKind::Without, 9, false),
        term(LeafKind::Without, 9, false),
        term(LeafKind::Without, 10, true),
        term(LeafKind::With, 3, false),
        term(LeafKind::Read, 3, true),
    ];
    let plan = QueryPlan::from_terms(&terms).unwrap();
    assert_eq!(plan.with, vec![1, 3]);
    assert_eq!(plan.without, vec![9]);
    assert_eq!(
        plan.immutable,
        vec![Column { id: 2, required: true }, Column { id: 3, required: false }]
    );
    assert!(plan.matches_signature(&vec![1, 2, 3]));
    assert!(plan.matches_signature(&vec![1, 2, 3, 8, 10]));
    assert!(!plan.matches_signature(&vec![1, 2]));
    assert!(!plan.matches_signature(&vec![1, 2, 3, 9]));
    assert!(!plan.matches_signature(&vec![2, 3]));
}

#[test]
fn with_and_without_of_one_layout_is_a_contradiction() {
    let terms = vec![
        term(LeafKind::Read, 1, false),
        term(LeafKind::With, 2, false),
        term(LeafKind::Without, 2, false),
    ];
    assert_eq!(QueryPlan::from_terms(&terms).err(), Some(QueryError::Contradiction));
    let reversed = vec![term(LeafKind::Without, 2, false), term(LeafKind::With, 2, false)];
    assert_eq!(QueryPlan::from_terms(&reversed).err(), Some(QueryError::Contradiction));
}

#[test]
fn filters_below_optional_contradict_nothing() {
    let terms = vec![term(LeafKind::With, 2, true), term(LeafKind::Without, 2, false)];
    let plan = QueryPlan::from_terms(&terms).unwrap();
    assert_eq!(plan.with, vec![]);
    assert_eq!(plan.without, vec![2]);
    let other = vec![term(LeafKind::With, 2, false), term(LeafKind::Without, 2, true)];
    let plan = QueryPlan::from_terms(&other).unwrap();
    assert_eq!(plan.with, vec![2]);
    assert_eq!(plan.without, vec![]);
}

#[test]
fn read_of_a_forbidden_layout_selects_nothing() {
    let terms = vec![term(LeafKind::Read, 2, false), term(LeafKind::Without, 2, false)];
    let plan = QueryPlan::from_terms(&terms).unwrap();
    assert!(!plan.matches_signature(&vec![2]));
    assert!(!plan.matches_signature(&vec![]));
    assert!(!plan.matches_signature(&vec![1, 3]));
}

#[test]
fn empty_plan_selects_every_signature() {
    let plan = QueryPlan::from_terms(&vec![]).unwrap();
    assert!(plan.matches_signature(&vec![]));
    assert!(plan.matches_signature(&vec![1, 2, 3]));
}

#[test]
fn compile_interns_and_collects() {
    let mut layouts = Layouts::new();
    let access = QueryAccess::Union(vec![
        QueryAccess::read::<u32>(),
        QueryAccess::write::<u64>(),
        QueryAccess::With(layout("Tag"), Box::new(QueryAccess::Empty)),
    ]);
    let plan = compile(&access, &mut layouts).unwrap();
    assert_eq!(plan.immutable, vec![Column { id: 3, required: true }]);
    assert_eq!(plan.mutable, vec![Column { id: 4, required: true }]);
    assert_eq!(plan.with, vec![15]);
    assert_eq!(plan.without, vec![]);
    assert_eq!(layouts.find(&layout("Tag")), Some(15));
}

#[test]
fn compile_reports_a_contradiction_and_still_interns() {
    let mut layouts = Layouts::new();
    let access = QueryAccess::With(
        layout("Tag"),
        Box::new(QueryAccess::Without(layout("Tag"), Box::new(QueryAccess::Empty))),
    );
    assert_eq!(compile(&access, &mut layouts).err(), Some(QueryError::Contradiction));
    assert_eq!(layouts.find(&layout("Tag")), Some(15));
}

#[test]
fn plans_conflict_when_one_writes_what_the_other_touches() {
    let reads_a = QueryPlan::from_terms(&vec![term(LeafKind::Read, 1, false)]).unwrap();
    let reads_a_too = QueryPlan::from_terms(&vec![term(LeafKind::Read, 1, false)]).unwrap();
    let writes_a = QueryPlan::from_terms(&vec![term(LeafKind::Write, 1, false)]).unwrap();
    let writes_a_too = QueryPlan::from_terms(&vec![term(LeafKind::Write, 1, true)]).unwrap();
    let writes_b = QueryPlan::from_terms(&vec![
        term(LeafKind::Write, 2, false),
        term(LeafKind::With, 1, false),
    ])
    .unwrap();
    assert!(!reads_a.conflicts_with(&reads_a_too));
    assert!(reads_a.conflicts_with(&writes_a));
    assert!(writes_a.conflicts_with(&reads_a));
    assert!(writes_a.conflicts_with(&writes_a_too));
    assert!(!writes_a.conflicts_with(&writes_b));
    assert!(!writes_b.conflicts_with(&reads_a));
}

#[test]
fn access_constructors_build_the_leaves() {
    match QueryAccess::read::<u32>() {
        QueryAccess::Read(layout) => assert_eq!(layout, <u32 as IntoTypeLayout>::layout()),
        _ => panic!("read builds a Read"),
    }
    match QueryAccess::write::<bool>() {
        QueryAccess::Write(layout) => assert_eq!(layout, <bool as IntoTypeLayout>::layout()),
        _ => panic!("write builds a Write"),
    }
    match QueryAccess::union(vec![QueryAccess::Empty, QueryAccess::read::<u8>()]) {
        QueryAccess::Union(parts) => assert_eq!(parts.len(), 2),
        _ => panic!("union builds a Union"),
    }
}

use std::collections::BTreeMap;

use quill::error::{NotFoundError, SpawnError};
use quill::ecs::LeafKind;
use quill::query::{QueryPlan, Term};
use quill::world::{EntityId, QueryRow, World};

const A: u64 = 20;
const B: u64 = 21;
const C: u64 = 22;
const U32: u64 = 3;

fn plan(terms: Vec<Term>) -> QueryPlan {
    QueryPlan::from_terms(&terms).unwrap()
}

fn term(kind: LeafKind, id: u64) -> Term {
    Term { kind, id, optional: false }
}

fn entities(rows: &[QueryRow]) -> Vec<EntityId> {
    let mut ids: Vec<EntityId> = rows.iter().map(|row| row.entity).collect();
    ids.sort_by_key(|id| (id.index, id.generation));
    ids
}

#[test]
fn new_world_is_empty() {
    let world = World::new();
    assert!(!world.is_live(EntityId { index: 0, generation: 0 }));
    assert!(world.query(&plan(vec![])).is_empty());
}

#[test]
fn spawn_stores_the_components() {
    let mut world = World::new();
    let id = world.spawn(&vec![(B, vec![2, 2]), (A, vec![1])]).unwrap();
    assert_eq!(id, EntityId { index: 0, generation: 0 });
    assert!(world.is_live(id));
    assert_eq!(world.get(id, A), Ok(&vec![1]));
    assert_eq!(world.get(id, B), Ok(&vec![2, 2]));
    assert_eq!(world.get(id, C), Err(NotFoundError::MissingComponent));
}

#[test]
fn spawn_without_components_is_allowed() {
    let mut world = World::new();
    let id = world.spawn(&vec![]).unwrap();
    assert!(world.is_live(id));
    assert_eq!(world.get(id, A), Err(NotFoundError::MissingComponent));
    assert_eq!(entities(&world.query(&plan(vec![]))), vec![id]);
}

#[test]
fn spawn_rejects_a_layout_listed_twice() {
    let mut world = World::new();
    let first = world.spawn(&vec![(A, vec![1])]).unwrap();
    assert_eq!(
        world.spawn(&vec![(A, vec![1]), (B, vec![2]), (A, vec![3])]),
        Err(SpawnError::DuplicateComponent)
    );
    assert_eq!(entities(&world.query(&plan(vec![]))), vec![first]);
    let next = world.spawn(&vec![(A, vec![9])]).unwrap();
    assert_eq!(next, EntityId { index: 1, generation: 0 });
}

#[test]
fn despawn_removes_the_entity_and_tells_whether_it_lived() {
    let mut world = World::new();
    let first = world.spawn(&vec![(A, vec![1])]).unwrap();
    let second = world.spawn(&vec![(A, vec![2])]).unwrap();
    let third = world.spawn(&vec![(A, vec![3])]).unwrap();
    assert!(world.despawn(first));
    assert!(!world.despawn(first));
    assert!(!world.is_live(first));
    assert_eq!(world.get(second, A), Ok(&vec![2]));
    assert_eq!(world.get(third, A), Ok(&vec![3]));
    assert_eq!(entities(&world.query(&plan(vec![]))), vec![second, third]);
    assert!(!world.despawn(EntityId { index: 7, generation: 0 }));
}

#[test]
fn stale_entity() {
    let mut world = World::new();
    let first = world.spawn(&vec![(U32, vec![1, 0, 0, 0])]).unwrap();
    assert!(world.despawn(first));
    assert_eq!(world.get(first, U32), Err(NotFoundError::StaleEntity));
    let second = world.spawn(&vec![(U32, vec![2, 0, 0, 0])]).unwrap();
    assert_eq!(second.index, first.index);
    assert_ne!(second, first);
    assert_eq!(world.get(first, U32), Err(NotFoundError::StaleEntity));
    assert_eq!(world.get(second, U32), Ok(&vec![2, 0, 0, 0]));
    assert_eq!(world.set(first, U32, vec![9]), Err(NotFoundError::StaleEntity));
    assert_eq!(world.remove(first, U32), Err(NotFoundError::StaleEntity));
    assert_eq!(world.get(second, U32), Ok(&vec![2, 0, 0, 0]));
}

#[test]
fn ids_handed_out_after_a_despawn_are_fresh() {
    let mut world = World::new();
    let mut seen: Vec<EntityId> = Vec::new();
    for round in 0..5u8 {
        let a = world.spawn(&vec![(A, vec![round])]).unwrap();
        let b = world.spawn(&vec![(B, vec![round])]).unwrap();
        assert!(!seen.contains(&a));
        seen.push(a);
        assert!(!seen.contains(&b));
        seen.push(b);
        assert!(world.despawn(a));
        if round % 2 == 0 {
            assert!(world.despawn(b));
        }
    }
    assert_eq!(seen[0], EntityId { index: 0, generation: 0 });
    assert_eq!(seen[2], EntityId { index: 1, generation: 1 });
    assert_eq!(seen[3], EntityId { index: 0, generation: 1 });
}

#[test]
fn set_overwrites_a_component() {
    let mut world = World::new();
    let first = world.spawn(&vec![(A, vec![1]), (B, vec![2])]).unwrap();
    let second = world.spawn(&vec![(A, vec![3]), (B, vec![4])]).unwrap();
    assert_eq!(world.set(first, B, vec![7, 7, 7]), Ok(()));
    assert_eq!(world.get(first, A), Ok(&vec![1]));
    assert_eq!(world.get(first, B), Ok(&vec![7, 7, 7]));
    assert_eq!(world.get(second, A), Ok(&vec![3]));
    assert_eq!(world.get(second, B), Ok(&vec![4]));
}

#[test]
fn set_of_a_missing_component_moves_the_entity() {
    let mut world = World::new();
    let first = world.spawn(&vec![(B, vec![1])]).unwrap();
    let second = world.spawn(&vec![(B, vec![2])]).unwrap();
    let third = world.spawn(&vec![(B, vec![3])]).unwrap();
    assert_eq!(world.set(first, A, vec![9]), Ok(()));
    assert_eq!(world.get(first, A), Ok(&vec![9]));
    assert_eq!(world.get(first, B), Ok(&vec![1]));
    assert_eq!(world.get(second, B), Ok(&vec![2]));
    assert_eq!(world.get(third, B), Ok(&vec![3]));
    assert_eq!(world.get(second, A), Err(NotFoundError::MissingComponent));
    let both = plan(vec![term(LeafKind::Read, A), term(LeafKind::Read, B)]);
    assert_eq!(entities(&world.query(&both)), vec![first]);
}

#[test]
fn remove_takes_a_component_off() {
    let mut world = World::new();
    let first = world.spawn(&vec![(A, vec![1]), (B, vec![2]), (C, vec![3])]).unwrap();
    let second = world.spawn(&vec![(A, vec![4]), (B, vec![5]), (C, vec![6])]).unwrap();
    assert_eq!(world.remove(first, B), Ok(vec![2]));
    assert_eq!(world.get(first, B), Err(NotFoundError::MissingComponent));
    assert_eq!(world.get(first, A), Ok(&vec![1]));
    assert_eq!(world.get(first, C), Ok(&vec![3]));
    assert_eq!(world.get(second, B), Ok(&vec![5]));
    assert_eq!(world.remove(first, B), Err(NotFoundError::MissingComponent));
    assert_eq!(world.get(first, A), Ok(&vec![1]));
}

#[test]
fn query_filters() {
    let mut world = World::new();
    let e1 = world.spawn(&vec![(A, vec![1]), (B, vec![1])]).unwrap();
    let _e2 = world.spawn(&vec![(A, vec![2])]).unwrap();
    let _e3 = world.spawn(&vec![(A, vec![3]), (C, vec![3])]).unwrap();
    let filtered = plan(vec![
        term(LeafKind::Read, A),
        term(LeafKind::With, B),
        term(LeafKind::Without, C),
    ]);
    let rows = world.query(&filtered);
    assert_eq!(rows.len(), 1);
    assert_eq!(rows[0].entity, e1);
    assert_eq!(rows[0].immutable, vec![Some(vec![1])]);
    assert_eq!(rows[0].mutable, vec![]);
}

#[test]
fn query_yields_the_entities_of_every_matching_archetype() {
    let mut world = World::new();
    let e1 = world.spawn(&vec![(A, vec![1]), (B, vec![1])]).unwrap();
    let e2 = world.spawn(&vec![(A, vec![2])]).unwrap();
    let e3 = world.spawn(&vec![(A, vec![3]), (C, vec![3])]).unwrap();
    let e4 = world.spawn(&vec![(C, vec![4])]).unwrap();
    let e5 = world.spawn(&vec![(A, vec![5])]).unwrap();
    let reads_a = plan(vec![term(LeafKind::Read, A)]);
    assert_eq!(entities(&world.query(&reads_a)), vec![e1, e2, e3, e5]);
    assert!(world.despawn(e2));
    assert_eq!(entities(&world.query(&reads_a)), vec![e1, e3, e5]);
    let without_a = plan(vec![term(LeafKind::Without, A)]);
    assert_eq!(entities(&world.query(&without_a)), vec![e4]);
}

#[test]
fn query_rows_show_the_columns_in_plan_order() {
    let mut world = World::new();
    let e1 = world.spawn(&vec![(A, vec![1]), (B, vec![2]), (C, vec![3])]).unwrap();
    let e2 = world.spawn(&vec![(C, vec![6]), (A, vec![4])]).unwrap();
    let mixed = QueryPlan::from_terms(&vec![
        Term { kind: LeafKind::Read, id: C, optional: false },
        Term { kind: LeafKind::Write, id: B, optional: true },
        Term { kind: LeafKind::Read, id: A, optional: false },
    ])
    .unwrap();
    let mut rows = world.query(&mixed);
    rows.sort_by_key(|row| row.entity.index);
    assert_eq!(rows.len(), 2);
    assert_eq!(rows[0].entity, e1);
    assert_eq!(rows[0].immutable, vec![Some(vec![3]), Some(vec![1])]);
    assert_eq!(rows[0].mutable, vec![Some(vec![2])]);
    assert_eq!(rows[1].entity, e2);
    assert_eq!(rows[1].immutable, vec![Some(vec![6]), Some(vec![4])]);
    assert_eq!(rows[1].mutable, vec![None]);
}

#[test]
fn write_through_query() {
    let mut world = World::new();
    world.spawn(&vec![(U32, 1u32.to_le_bytes().to_vec())]).unwrap();
    world.spawn(&vec![(U32, 2u32.to_le_bytes().to_vec())]).unwrap();
    let writes = plan(vec![term(LeafKind::Write, U32)]);
    let mut rows = world.query(&writes);
    assert_eq!(rows.len(), 2);
    for row in rows.iter_mut() {
        let bytes = row.mutable[0].take().unwrap();
        let value = u32::from_le_bytes([bytes[0], bytes[1], bytes[2], bytes[3]]);
        row.mutable[0] = Some((value + 1).to_le_bytes().to_vec());
    }
    assert_eq!(world.commit(&writes, &rows), Ok(()));
    let reads = plan(vec![term(LeafKind::Read, U32)]);
    let mut values: Vec<u32> = world
        .query(&reads)
        .iter()
        .map(|row| {
            let bytes = row.immutable[0].as_ref().unwrap();
            u32::from_le_bytes([bytes[0], bytes[1], bytes[2], bytes[3]])
        })
        .collect();
    values.sort();
    assert_eq!(values, vec![2, 3]);
}

#[test]
fn commit_skips_rows_of_entities_that_are_gone() {
    let mut world = World::new();
    let kept = world.spawn(&vec![(A, vec![1])]).unwrap();
    let gone = world.spawn(&vec![(A, vec![2])]).unwrap();
    let writes = plan(vec![term(LeafKind::Write, A)]);
    let mut rows = world.query(&writes);
    for row in rows.iter_mut() {
        row.mutable[0] = Some(vec![9]);
    }
    assert!(world.despawn(gone));
    assert_eq!(world.commit(&writes, &rows), Err(NotFoundError::StaleEntity));
    assert_eq!(world.get(kept, A), Ok(&vec![9]));
    assert!(!world.is_live(gone));
}

#[test]
fn commit_stores_only_the_cells_that_show_bytes() {
    let mut world = World::new();
    let id = world.spawn(&vec![(A, vec![1]), (B, vec![2])]).unwrap();
    let writes = plan(vec![term(LeafKind::Write, A), term(LeafKind::Write, B)]);
    let rows = vec![
        QueryRow { entity: id, immutable: vec![], mutable: vec![None, Some(vec![5])] },
        QueryRow { entity: id, immutable: vec![], mutable: vec![Some(vec![6])] },
        QueryRow { entity: id, immutable: vec![], mutable: vec![None, None, Some(vec![7])] },
    ];
    assert_eq!(world.commit(&writes, &rows), Ok(()));
    assert_eq!(world.get(id, A), Ok(&vec![6]));
    assert_eq!(world.get(id, B), Ok(&vec![5]));
}

#[test]
fn write_cells_of_an_answer_never_alias() {
    let mut world = World::new();
    for value in 0..6u8 {
        let mut components = vec![(A, vec![value]), (B, vec![value])];
        if value % 2 == 0 {
            components.push((C, vec![value]));
        }
        world.spawn(&components).unwrap();
    }
    let access = plan(vec![
        term(LeafKind::Write, A),
        term(LeafKind::Read, B),
        term(LeafKind::Write, B),
        term(LeafKind::Read, C),
        term(LeafKind::Write, A),
    ]);
    let rows = world.query(&access);
    assert_eq!(rows.len(), 3);
    let mut written: Vec<(EntityId, u64)> = Vec::new();
    for row in &rows {
        assert_eq!(row.mutable.len(), access.mutable.len());
        assert_eq!(row.immutable.len(), access.immutable.len());
        for column in &access.mutable {
            assert!(!written.contains(&(row.entity, column.id)));
            written.push((row.entity, column.id));
            assert!(access.immutable.iter().all(|read| read.id != column.id));
        }
    }
    assert_eq!(written.len(), 6);
}

#[test]
fn world_agrees_with_a_map_of_maps_through_many_operations() {
    let mut state: u64 = 0x2545_f491_4f6c_dd1d;
    let mut next = move |bound: u32| {
        state = state.wrapping_mul(6364136223846793005).wrapping_add(1442695040888963407);
        ((state >> 33) as u32) % bound
    };
    let mut world = World::new();
    let mut model: BTreeMap<(u32, u32), BTreeMap<u64, Vec<u8>>> = BTreeMap::new();
    let mut handed_out: Vec<EntityId> = Vec::new();
    for step in 0..3000u32 {
        let pick = |handed_out: &Vec<EntityId>, at: u32| -> EntityId {
            if handed_out.is_empty() {
                EntityId { index: 0, generation: 0 }
            } else {
                handed_out[at as usize % handed_out.len()]
            }
        };
        match next(6) {
            0 | 1 => {
                let mut components: Vec<(u64, Vec<u8>)> = Vec::new();
                for layout in 0..4u64 {
                    if next(2) == 0 {
                        components.push((layout, vec![step as u8, layout as u8]));
                    }
                }
                if next(2) == 0 {
                    components.reverse();
                }
                let id = world.spawn(&components).unwrap();
                assert!(!handed_out.contains(&id));
                handed_out.push(id);
                model.insert((id.index, id.generation), components.into_iter().collect());
            }
            2 => {
                let id = pick(&handed_out, next(1 << 16));
                let lived = model.remove(&(id.index, id.generation)).is_some();
                assert_eq!(world.despawn(id), lived);
            }
            3 => {
                let id = pick(&handed_out, next(1 << 16));
                let layout = next(5) as u64;
                let bytes = vec![step as u8; next(4) as usize];
                match model.get_mut(&(id.index, id.generation)) {
                    Some(components) => {
                        assert_eq!(world.set(id, layout, bytes.clone()), Ok(()));
                        components.insert(layout, bytes);
                    }
                    None => {
                        assert_eq!(world.set(id, layout, bytes), Err(NotFoundError::StaleEntity))
                    }
                }
            }
            4 => {
                let id = pick(&handed_out, next(1 << 16));
                let layout = next(5) as u64;
                let wanted = match model.get_mut(&(id.index, id.generation)) {
                    Some(components) => {
                        components.remove(&layout).ok_or(NotFoundError::MissingComponent)
                    }
                    None => Err(NotFoundError::StaleEntity),
                };
                assert_eq!(world.remove(id, layout), wanted);
            }
            _ => {
                let required = next(4) as u64;
                let forbidden = next(4) as u64;
                let shown = next(5) as u64;
                let access = QueryPlan::from_terms(&vec![
                    Term { kind: LeafKind::With, id: required, optional: false },
                    Term { kind: LeafKind::Without, id: forbidden, optional: false },
                    Term { kind: LeafKind::Read, id: shown, optional: true },
                ]);
                let access = match access {
                    Ok(access) => access,
                    Err(_) => {
                        assert_eq!(required, forbidden);
                        continue;
                    }
                };
                let mut rows: Vec<((u32, u32), Option<Vec<u8>>)> = world
                    .query(&access)
                    .into_iter()
                    .map(|row| ((row.entity.index, row.entity.generation), row.immutable[0].clone()))
                    .collect();
                rows.sort();
                let wanted: Vec<((u32, u32), Option<Vec<u8>>)> = model
                    .iter()
                    .filter(|(_, components)| {
                        components.contains_key(&required) && !components.contains_key(&forbidden)
                    })
                    .map(|(id, components)| (*id, components.get(&shown).cloned()))
                    .collect();
                assert_eq!(rows, wanted);
            }
        }
        if step % 97 == 0 {
            for id in &handed_out {
                let stored = model.get(&(id.index, id.generation));
                assert_eq!(world.is_live(*id), stored.is_some());
                for layout in 0..5u64 {
                    let wanted = match stored {
                        None => Err(NotFoundError::StaleEntity),
                        Some(components) => {
                            components.get(&layout).ok_or(NotFoundError::MissingComponent)
                        }
                    };
                    assert_eq!(world.get(*id, layout), wanted);
                }
            }
        }
    }
    assert!(handed_out.len() > 500);
}

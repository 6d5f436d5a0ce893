use ecs_query::AccessMode;
use ecs_query::Archetype;
use ecs_query::ComponentTypeId;
use ecs_query::DynamicFilter;
use ecs_query::Entity;
use ecs_query::EntityFilter;
use ecs_query::QueryView;
use ecs_query::Value;
use ecs_query::ViewElement;
use ecs_query::World;

fn cid(id: u64) -> ComponentTypeId {
    ComponentTypeId::new(id)
}

fn elem(c: u64, mode: AccessMode) -> ViewElement {
    ViewElement { component: cid(c), mode }
}

fn arch(layout: &[u64], rows: usize) -> Archetype {
    let mut ids: Vec<Entity> = Vec::new();
    let mut columns: Vec<Vec<Value>> = Vec::new();
    for r in 0..rows {
        ids.push(Entity::new(r as u64));
    }
    for _ in layout {
        columns.push(vec![Value::Int(0); rows]);
    }
    Archetype::new(layout.iter().map(|&i| cid(i)).collect(), ids, columns)
        .expect("well-formed archetype")
}

#[test]
fn filter_algebra_on_layouts() {
    let layout = vec![cid(1), cid(2)];
    let req1 = EntityFilter::ComponentRequired(cid(1));
    let req3 = EntityFilter::ComponentRequired(cid(3));
    let not3 = EntityFilter::Not(Box::new(EntityFilter::ComponentRequired(cid(3))));
    let forbid2 = EntityFilter::ComponentForbidden(cid(2));

    assert!(EntityFilter::Passthrough.matches_layout(&layout));
    assert!(req1.matches_layout(&layout));
    assert!(!req3.matches_layout(&layout));
    assert!(not3.matches_layout(&layout));
    assert!(!forbid2.matches_layout(&layout));

    let both = EntityFilter::And(
        Box::new(EntityFilter::ComponentRequired(cid(1))),
        Box::new(EntityFilter::ComponentRequired(cid(2))),
    );
    assert!(both.matches_layout(&layout));
    let either = EntityFilter::Or(
        Box::new(EntityFilter::ComponentRequired(cid(3))),
        Box::new(EntityFilter::ComponentRequired(cid(2))),
    );
    assert!(either.matches_layout(&layout));

    assert!(both.can_match_group());
    assert!(!either.can_match_group());
    assert!(!not3.can_match_group());
    assert_eq!(both.group_components(), vec![cid(1), cid(2)]);
}

#[test]
fn added_filter_narrows_matches_and_resets_cache() {
    let mut world = World::new(20);
    world.push_archetype(arch(&[1], 1));
    world.push_archetype(arch(&[1, 2], 1));

    let v = QueryView::new(vec![elem(1, AccessMode::Read)]);
    let mut query = v.query().unwrap();
    assert_eq!(query.find_archetypes(&world), vec![0, 1]);

    let mut narrowed = query.filter(EntityFilter::ComponentForbidden(cid(2)));
    assert_eq!(narrowed.find_archetypes(&world), vec![0]);
}

#[test]
fn dynamic_filter_drops_small_chunks() {
    let mut world = World::new(21);
    world.push_archetype(arch(&[1], 3));
    world.push_archetype(arch(&[1, 2], 0));
    world.push_archetype(arch(&[1, 3], 2));

    let v = QueryView::new(vec![elem(1, AccessMode::Read)]);
    let mut query = v.query().unwrap().with_dynamic_filter(DynamicFilter::MinEntities(2));
    let chunks = query.iter_chunks(&world);
    let indices: Vec<usize> = chunks.iter().map(|c| c.archetype_index).collect();
    assert_eq!(indices, vec![0, 2]);

    let mut all = QueryView::new(vec![elem(1, AccessMode::Read)]).query().unwrap();
    assert_eq!(all.iter_chunks(&world).len(), 3);
}

#[test]
fn content_filter_reads_storage() {
    let mut world = World::new(35);
    let with_seven = Archetype::new(
        vec![cid(1)],
        vec![Entity::new(1), Entity::new(2)],
        vec![vec![Value::Int(3), Value::Int(7)]],
    )
    .unwrap();
    let without_seven = Archetype::new(
        vec![cid(1)],
        vec![Entity::new(3)],
        vec![vec![Value::Int(4)]],
    )
    .unwrap();
    world.push_archetype(with_seven);
    world.push_archetype(without_seven);

    let v = QueryView::new(vec![elem(1, AccessMode::Read)]);
    let mut query = v
        .query()
        .unwrap()
        .with_dynamic_filter(DynamicFilter::ContainsValue(cid(1), Value::Int(7)));
    let chunks = query.iter_chunks(&world);
    let indices: Vec<usize> = chunks.iter().map(|c| c.archetype_index).collect();
    assert_eq!(indices, vec![0]);

    // a value of the wrong component passes nothing
    let mut none = QueryView::new(vec![elem(1, AccessMode::Read)])
        .query()
        .unwrap()
        .with_dynamic_filter(DynamicFilter::ContainsValue(cid(2), Value::Int(7)));
    assert_eq!(none.iter_chunks(&world).len(), 0);
}

#[test]
fn try_read_surfaces_absent_slice() {
    let mut world = World::new(22);
    world.push_archetype(arch(&[1], 2));

    let v = QueryView::new(vec![elem(1, AccessMode::Read), elem(2, AccessMode::TryRead)]);
    let mut query = v.query().unwrap();
    let chunks = query.iter_chunks(&world);
    assert_eq!(chunks.len(), 1);

    // the undeclared component is absent, the optional missing one too
    assert!(chunks[0].component_slice(&cid(3)).is_none());
    assert!(chunks[0].component_slice(&cid(2)).is_none());
    assert!(chunks[0].component_slice(&cid(1)).is_some());

    let slices = chunks.into_iter().next().unwrap().into_components();
    assert_eq!(slices.len(), 2);
    assert!(slices[0].is_some());
    assert!(slices[1].is_none());
}

#[test]
fn get_components_copies_read_only_slices() {
    let mut world = World::new(23);
    let a = Archetype::new(
        vec![cid(1)],
        vec![Entity::new(1), Entity::new(2)],
        vec![vec![Value::Int(4), Value::Int(5)]],
    )
    .unwrap();
    world.push_archetype(a);

    let v = QueryView::new(vec![elem(1, AccessMode::Read)]);
    let mut query = v.query().unwrap();
    let chunks = query.iter_chunks(&world);
    let copies = chunks[0].get_components();
    assert_eq!(copies[0], Some(vec![Value::Int(4), Value::Int(5)]));
}

#[test]
fn into_iter_entities_pairs_rows() {
    let mut world = World::new(24);
    let a = Archetype::new(
        vec![cid(1), cid(2)],
        vec![Entity::new(8), Entity::new(9)],
        vec![
            vec![Value::Int(1), Value::Int(2)],
            vec![Value::Bool(true), Value::Bool(false)],
        ],
    )
    .unwrap();
    world.push_archetype(a);

    let v = QueryView::new(vec![elem(2, AccessMode::Read)]);
    let mut query = v.query().unwrap();
    let chunks = query.iter_chunks(&world);
    let rows = chunks.into_iter().next().unwrap().into_iter_entities();
    assert_eq!(rows.len(), 2);
    assert_eq!(rows[0].0, Entity::new(8));
    assert_eq!(rows[0].1, vec![Some(Value::Bool(true))]);
    assert_eq!(rows[1].0, Entity::new(9));
    assert_eq!(rows[1].1, vec![Some(Value::Bool(false))]);
}

#[test]
fn rows_support_random_access() {
    let mut world = World::new(30);
    let a = Archetype::new(
        vec![cid(1)],
        vec![Entity::new(1), Entity::new(2)],
        vec![vec![Value::Int(4), Value::Int(5)]],
    )
    .unwrap();
    world.push_archetype(a);

    let v = QueryView::new(vec![elem(1, AccessMode::Read), elem(2, AccessMode::TryRead)]);
    let mut query = v.query().unwrap();
    let chunks = query.iter_chunks(&world);
    assert_eq!(chunks[0].row(1), vec![Some(Value::Int(5)), None]);
    assert_eq!(chunks[0].row(0), vec![Some(Value::Int(4)), None]);
}

#[test]
fn malformed_archetypes_are_rejected() {
    // unsorted layout
    assert!(Archetype::new(vec![cid(2), cid(1)], vec![], vec![Vec::new(), Vec::new()]).is_none());
    // duplicate component
    assert!(Archetype::new(vec![cid(1), cid(1)], vec![], vec![Vec::new(), Vec::new()]).is_none());
    // column count differs from layout
    assert!(Archetype::new(vec![cid(1)], vec![], vec![]).is_none());
    // column length differs from entity count
    assert!(Archetype::new(vec![cid(1)], vec![Entity::new(1)], vec![vec![]]).is_none());
}

#[test]
fn malformed_groups_are_rejected() {
    let mut world = World::new(25);
    world.push_archetype(arch(&[1], 1));
    assert!(!world.add_group(vec![cid(1)], vec![2]));
    assert!(!world.add_group(vec![cid(1)], vec![0, 0]));
    assert!(world.add_group(vec![cid(1)], vec![0]));
}

#[test]
fn query_result_splitting() {
    let mut world = World::new(26);
    for _ in 0..4 {
        world.push_archetype(arch(&[1], 1));
    }
    let v = QueryView::new(vec![elem(1, AccessMode::Read)]);
    let mut query = v.query().unwrap();
    let accessor = ecs_query::StorageAccessor::full();
    let result = query.evaluate_query(&world, &accessor).unwrap();
    assert_eq!(result.len(), 4);
    assert!(!result.is_empty());
    assert_eq!(result.range(), (0, 4));

    let (left, right) = result.split_at(2);
    assert_eq!(left.index(), vec![0, 1]);
    assert_eq!(right.index(), vec![2, 3]);
    assert_eq!(left.range(), (0, 2));
    assert_eq!(right.range(), (2, 4));
}

#[test]
fn chunk_iter_yields_passing_archetypes_in_order() {
    let mut world = World::new(28);
    world.push_archetype(arch(&[1], 2));
    world.push_archetype(arch(&[1], 0));
    world.push_archetype(arch(&[1], 3));

    let v = QueryView::new(vec![elem(1, AccessMode::Read)]);
    let mut query = v.query().unwrap();
    let indices = query.find_archetypes(&world);

    let view_again = QueryView::new(vec![elem(1, AccessMode::Read)]);
    let mut iter =
        ecs_query::ChunkIter::new(view_again, DynamicFilter::MinEntities(1), indices);
    assert_eq!(iter.size_hint(), (0, Some(3)));

    let first = iter.next(&world).expect("a first chunk");
    assert_eq!(first.archetype_index, 0);
    let second = iter.next(&world).expect("a second chunk");
    assert_eq!(second.archetype_index, 2);
    assert!(iter.next(&world).is_none());
    // fused: exhausted stays exhausted
    assert!(iter.next(&world).is_none());
}

#[test]
fn whole_world_storage_permits_everything() {
    let world = World::new(29);
    let v = QueryView::new(vec![elem(1, AccessMode::Write), elem(2, AccessMode::TryRead)]);
    let accessor = world.get_component_storage(&v).expect("whole world");
    assert!(accessor.allows_view(&v));
    assert!(accessor.can_access_archetype(0));
}

#[test]
fn set_column_rejects_misuse() {
    let mut world = World::new(27);
    world.push_archetype(arch(&[1], 2));
    // out-of-range archetype
    assert!(!world.set_column(3, &cid(1), &vec![Value::Int(0), Value::Int(0)]));
    // component not in the layout
    assert!(!world.set_column(0, &cid(9), &vec![Value::Int(0), Value::Int(0)]));
    // wrong length
    assert!(!world.set_column(0, &cid(1), &vec![Value::Int(0)]));
    // aligned write succeeds
    assert!(world.set_column(0, &cid(1), &vec![Value::Int(7), Value::Int(8)]));
}

use ecs_query::AccessMode;
use ecs_query::Archetype;
use ecs_query::ComponentTypeId;
use ecs_query::Entity;
use ecs_query::Query;
use ecs_query::QueryError;
use ecs_query::QueryView;
use ecs_query::StorageAccessor;
use ecs_query::Value;
use ecs_query::ViewElement;
use ecs_query::World;

fn int_id() -> ComponentTypeId {
    ComponentTypeId::new(1)
}

fn bool_id() -> ComponentTypeId {
    ComponentTypeId::new(2)
}

fn float_id() -> ComponentTypeId {
    ComponentTypeId::new(3)
}

fn elem(c: ComponentTypeId, mode: AccessMode) -> ViewElement {
    ViewElement { component: c, mode }
}

fn view(elements: Vec<ViewElement>) -> QueryView {
    QueryView::new(elements)
}

fn entities(ids: &[u64]) -> Vec<Entity> {
    ids.iter().map(|&i| Entity::new(i)).collect()
}

fn ints(vals: &[i64]) -> Vec<Value> {
    vals.iter().map(|&v| Value::Int(v)).collect()
}

fn bools(vals: &[bool]) -> Vec<Value> {
    vals.iter().map(|&v| Value::Bool(v)).collect()
}

/// A small example world: entities (1, true), (2, true),
/// (3, false) over components Int and Bool, in one archetype.
fn example_world() -> World {
    let mut world = World::new(7);
    let arch = Archetype::new(
        vec![int_id(), bool_id()],
        entities(&[10, 11, 12]),
        vec![ints(&[1, 2, 3]), bools(&[true, true, false])],
    )
    .expect("well-formed archetype");
    world.push_archetype(arch);
    world
}

fn read_int_write_bool() -> Query {
    view(vec![elem(int_id(), AccessMode::Read), elem(bool_id(), AccessMode::Write)])
        .query()
        .expect("valid view")
}

#[test]
fn query() {
    let mut world = example_world();

    let mut query = read_int_write_bool();
    for chunk in query.iter_chunks_mut(&mut world) {
        for (entity, row) in chunk.into_iter_entities() {
            println!("{:?}: {:?}", entity, row);
        }
    }
    for chunk in query.iter_chunks_mut(&mut world) {
        println!("arch {:?}", chunk.archetype());
        let slices = chunk.into_components();
        let x = &slices[0];
        let y = &slices[1];
        println!("{:?}, {:?}", x, y);
    }
}

#[test]
fn query_split() {
    let world = example_world();

    let write_int = view(vec![elem(int_id(), AccessMode::Write)]);
    let (left, right) = world.split(&write_int);

    let mut query_a = view(vec![elem(int_id(), AccessMode::Write)]).query().unwrap();
    let mut query_b = view(vec![elem(bool_id(), AccessMode::Write)]).query().unwrap();

    for x in query_a.iter_chunks_access(&world, &left).unwrap() {
        println!("{:?}", x.component_slice(&int_id()));
    }
    for x in query_b.iter_chunks_access(&world, &right).unwrap() {
        println!("{:?}", x.component_slice(&bool_id()));
    }
}

#[test]
fn query_split_disallowd_component_left() {
    let world = example_world();

    let write_int = view(vec![elem(int_id(), AccessMode::Write)]);
    let (left, _) = world.split(&write_int);

    let mut query_a = view(vec![elem(int_id(), AccessMode::Write)]).query().unwrap();
    let mut query_b = view(vec![elem(bool_id(), AccessMode::Write)]).query().unwrap();

    assert!(query_a.iter_chunks_access(&world, &left).is_ok());
    assert!(matches!(
        query_b.iter_chunks_access(&world, &left),
        Err(QueryError::ComponentAccessDenied)
    ));
}

#[test]
fn query_split_disallowd_component_right() {
    let world = example_world();

    let write_int = view(vec![elem(int_id(), AccessMode::Write)]);
    let (_, right) = world.split(&write_int);

    let mut query_a = view(vec![elem(int_id(), AccessMode::Write)]).query().unwrap();
    let mut query_b = view(vec![elem(bool_id(), AccessMode::Write)]).query().unwrap();

    assert!(matches!(
        query_a.iter_chunks_access(&world, &right),
        Err(QueryError::ComponentAccessDenied)
    ));
    assert!(query_b.iter_chunks_access(&world, &right).is_ok());
}

#[test]
fn query_component_lifetime() {
    let world = example_world();

    let mut components: Vec<Value> = Vec::new();

    {
        let mut query_a = view(vec![elem(int_id(), AccessMode::Read)]).query().unwrap();
        for chunk in query_a.iter_chunks(&world) {
            let slice = chunk.component_slice(&int_id()).unwrap();
            components.extend(slice.iter().copied());
        }
    }

    assert_eq!(components[0], Value::Int(1));
}

#[test]
fn one_chunk_with_aligned_slices() {
    let mut world = example_world();
    let mut query = read_int_write_bool();

    let chunks = query.iter_chunks_mut(&mut world);
    assert_eq!(chunks.len(), 1);
    let chunk = &chunks[0];
    assert_eq!(chunk.component_slice(&int_id()), Some(&ints(&[1, 2, 3])));
    assert_eq!(
        chunk.component_slice(&bool_id()),
        Some(&bools(&[true, true, false]))
    );
    assert_eq!(chunk.archetype().entities(), &entities(&[10, 11, 12]));
}

#[test]
fn absent_component_yields_no_chunks() {
    let world = example_world();
    let mut query = view(vec![elem(float_id(), AccessMode::Read)]).query().unwrap();

    let chunks = query.iter_chunks(&world);
    assert_eq!(chunks.len(), 0);
}

#[test]
fn two_archetypes_in_discovery_order() {
    let mut world = World::new(8);
    let arch_ab = Archetype::new(
        vec![int_id(), bool_id()],
        entities(&[20]),
        vec![ints(&[1]), bools(&[true])],
    )
    .unwrap();
    let arch_a = Archetype::new(vec![int_id()], entities(&[21]), vec![ints(&[2])]).unwrap();
    world.push_archetype(arch_ab);
    world.push_archetype(arch_a);

    let mut query = view(vec![elem(int_id(), AccessMode::Read)]).query().unwrap();
    let chunks = query.iter_chunks(&world);
    assert_eq!(chunks.len(), 2);
    assert_eq!(chunks[0].component_slice(&int_id()), Some(&ints(&[1])));
    assert_eq!(chunks[1].component_slice(&int_id()), Some(&ints(&[2])));
}

#[test]
fn split_world_write_side_mutates() {
    let mut world = example_world();

    let write_int = view(vec![elem(int_id(), AccessMode::Write)]);
    let (left, _) = world.split(&write_int);

    let mut query = view(vec![elem(int_id(), AccessMode::Write)]).query().unwrap();
    let mut chunks = query.iter_chunks_access(&world, &left).unwrap();
    assert_eq!(chunks.len(), 1);
    let chunk = &mut chunks[0];
    assert_eq!(chunk.component_slice(&int_id()), Some(&ints(&[1, 2, 3])));

    let slice = chunk.component_slice_mut(&int_id()).unwrap();
    slice[0] = Value::Int(10);
    slice[1] = Value::Int(20);
    slice[2] = Value::Int(30);
    let arch = chunk.archetype_index;
    let new_values = chunk.component_slice(&int_id()).unwrap().clone();
    drop(chunks);

    assert!(world.set_column(arch, &int_id(), &new_values));
    let mut check = view(vec![elem(int_id(), AccessMode::Read)]).query().unwrap();
    let after = check.iter_chunks(&world);
    assert_eq!(after[0].component_slice(&int_id()), Some(&ints(&[10, 20, 30])));
}

#[test]
fn conflicting_view_is_rejected() {
    let aliasing = view(vec![
        elem(int_id(), AccessMode::Write),
        elem(int_id(), AccessMode::Read),
    ]);
    assert!(aliasing.query().is_none());

    let two_reads = view(vec![
        elem(int_id(), AccessMode::Read),
        elem(int_id(), AccessMode::Read),
    ]);
    assert!(two_reads.query().is_some());
}

#[test]
fn incremental_cache_discovers_new_archetype() {
    let mut world = World::new(9);
    let arch_a = Archetype::new(vec![int_id()], entities(&[1]), vec![ints(&[5])]).unwrap();
    world.push_archetype(arch_a);

    let mut query = view(vec![elem(int_id(), AccessMode::Read)]).query().unwrap();
    assert_eq!(query.find_archetypes(&world), vec![0]);

    let arch_b = Archetype::new(
        vec![int_id(), bool_id()],
        entities(&[2]),
        vec![ints(&[6]), bools(&[false])],
    )
    .unwrap();
    world.push_archetype(arch_b);
    let unrelated = Archetype::new(vec![bool_id()], entities(&[3]), vec![bools(&[true])]).unwrap();
    world.push_archetype(unrelated);

    assert_eq!(query.find_archetypes(&world), vec![0, 1]);
    // a second run revisits nothing and changes nothing
    assert_eq!(query.find_archetypes(&world), vec![0, 1]);
}

#[test]
fn ordered_query_follows_group_order() {
    let mut world = World::new(10);
    let arch0 = Archetype::new(vec![int_id()], entities(&[1]), vec![ints(&[5])]).unwrap();
    let arch1 = Archetype::new(
        vec![int_id(), bool_id()],
        entities(&[2]),
        vec![ints(&[6]), bools(&[false])],
    )
    .unwrap();
    world.push_archetype(arch0);
    world.push_archetype(arch1);
    // the group declares its own order: archetype 1 before archetype 0
    assert!(world.add_group(vec![int_id()], vec![1, 0]));

    let mut query = view(vec![elem(int_id(), AccessMode::Read)]).query().unwrap();
    let accessor = StorageAccessor::full();
    let result = query.evaluate_query(&world, &accessor).unwrap();
    assert!(result.is_ordered());
    assert_eq!(result.index(), vec![1, 0]);

    // stable across runs
    let again = query.evaluate_query(&world, &accessor).unwrap();
    assert!(again.is_ordered());
    assert_eq!(again.index(), vec![1, 0]);
}

#[test]
fn group_not_covering_falls_back_to_unordered() {
    let mut world = World::new(11);
    let arch0 = Archetype::new(vec![int_id()], entities(&[1]), vec![ints(&[5])]).unwrap();
    let arch1 = Archetype::new(
        vec![int_id(), bool_id()],
        entities(&[2]),
        vec![ints(&[6]), bools(&[false])],
    )
    .unwrap();
    world.push_archetype(arch0);
    world.push_archetype(arch1);
    // the group misses archetype 0, which also matches: no exact cover
    assert!(world.add_group(vec![int_id()], vec![1]));

    let mut query = view(vec![elem(int_id(), AccessMode::Read)]).query().unwrap();
    let accessor = StorageAccessor::full();
    let result = query.evaluate_query(&world, &accessor).unwrap();
    assert!(!result.is_ordered());
    assert_eq!(result.index(), vec![0, 1]);
}

#[test]
fn split_halves_cover_the_sequential_chunks() {
    let mut world = World::new(12);
    for k in 0..5u64 {
        let arch = Archetype::new(
            vec![int_id()],
            entities(&[100 + k]),
            vec![ints(&[k as i64])],
        )
        .unwrap();
        world.push_archetype(arch);
    }

    let v = view(vec![elem(int_id(), AccessMode::Read)]);
    let mut query = v.query().unwrap();
    let accessor = StorageAccessor::full();
    let result = query.evaluate_query(&world, &accessor).unwrap();

    let whole: Vec<usize> = result.index();
    let (right, left) = result.split_for_par();
    let left = left.expect("five archetypes can be split");
    let mut joined = left.index();
    joined.extend(right.index());
    assert_eq!(joined, whole);

    // the chunks of the halves, concatenated, are the sequential chunks
    let d = ecs_query::DynamicFilter::Passthrough;
    let (llo, lhi) = left.range();
    let (rlo, rhi) = right.range();
    let left_chunks =
        ecs_query::collect_chunks(&query.view, &d, &world, &left.indices, llo, lhi);
    let right_chunks =
        ecs_query::collect_chunks(&query.view, &d, &world, &right.indices, rlo, rhi);
    let mut par_order: Vec<usize> = left_chunks.iter().map(|c| c.archetype_index).collect();
    par_order.extend(right_chunks.iter().map(|c| c.archetype_index));
    assert_eq!(par_order, whole);
}

#[test]
fn restricted_accessor_rejects_archetype() {
    let world = example_world();
    let mut query = view(vec![elem(int_id(), AccessMode::Read)]).query().unwrap();
    let accessor = StorageAccessor {
        permissions: ecs_query::ComponentPermissions::All,
        archetypes: ecs_query::ArchetypeAccess::Restricted(vec![5]),
    };
    assert!(matches!(
        query.iter_chunks_access(&world, &accessor),
        Err(QueryError::ArchetypeAccessDenied)
    ));
}

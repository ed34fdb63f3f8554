use relation_graph::collections::Entity;
use relation_graph::commands::SetRelation;
use relation_graph::graph::DespawnPolicy;
use relation_graph::joins::Table;
use relation_graph::policies::entity_set_of;
use relation_graph::query::{ForEachPermutations, Query};
use relation_graph::rows::Collect;
use relation_graph::walk::breadth_first_walk;
use relation_graph::world::World;

fn link(world: &mut World, relation: u64, edges: &[(Entity, Entity)]) {
    for (foster, target) in edges.iter().copied() {
        SetRelation { foster, target, relation, value: 0 }.write(world);
    }
}

fn position(order: &[Entity], entity: Entity) -> usize {
    order.iter().position(|e| *e == entity).expect("entity was not entered")
}

#[test]
fn walk_enters_nearer_entities_first() {
    let mut world = World::new();
    let next = world.register(DespawnPolicy::Orphan, false);
    let ids: Vec<Entity> = (0..7).map(|_| world.spawn()).collect();
    let (root, a, b, c, d, e, far) = (ids[0], ids[1], ids[2], ids[3], ids[4], ids[5], ids[6]);
    link(&mut world, next, &[(root, a), (root, b), (a, c), (b, c), (c, d), (b, e), (d, e), (e, far), (far, root)]);
    let order = breadth_first_walk(&world, root, DespawnPolicy::Orphan, Some(next), &entity_set_of(&Vec::new()));
    assert_eq!(order.len(), 7);
    assert_eq!(order[0], root);
    let level = |entity: Entity| match position(&order, entity) {
        0 => 0,
        1..=2 => 1,
        3..=4 => 2,
        _ => 3,
    };
    assert_eq!((level(a), level(b)), (1, 1));
    assert_eq!((level(c), level(e)), (2, 2));
    assert_eq!((level(d), level(far)), (3, 3));
}

#[test]
fn walk_follows_one_bucket_and_one_relation() {
    let mut world = World::new();
    let owns = world.register(DespawnPolicy::RecursiveDespawn, false);
    let holds = world.register(DespawnPolicy::RecursiveDespawn, false);
    let likes = world.register(DespawnPolicy::Orphan, false);
    let ids: Vec<Entity> = (0..4).map(|_| world.spawn()).collect();
    link(&mut world, owns, &[(ids[0], ids[1])]);
    link(&mut world, holds, &[(ids[0], ids[2])]);
    link(&mut world, likes, &[(ids[0], ids[3])]);
    let nothing = entity_set_of(&Vec::new());
    let mut both = breadth_first_walk(&world, ids[0], DespawnPolicy::RecursiveDespawn, None, &nothing);
    both.sort();
    assert_eq!(both, vec![ids[0], ids[1], ids[2]]);
    assert_eq!(
        breadth_first_walk(&world, ids[0], DespawnPolicy::RecursiveDespawn, Some(owns), &nothing),
        vec![ids[0], ids[1]]
    );
    assert_eq!(
        breadth_first_walk(&world, ids[0], DespawnPolicy::Orphan, Some(likes), &nothing),
        vec![ids[0], ids[3]]
    );
    assert_eq!(
        breadth_first_walk(&world, ids[0], DespawnPolicy::Orphan, Some(owns), &nothing),
        vec![ids[0]]
    );
}

#[test]
fn walk_stays_out_of_blocked_and_missing_entities() {
    let mut world = World::new();
    let next = world.register(DespawnPolicy::Orphan, false);
    let ids: Vec<Entity> = (0..4).map(|_| world.spawn()).collect();
    link(&mut world, next, &[(ids[0], ids[1]), (ids[1], ids[2]), (ids[0], ids[3])]);
    let blocked = entity_set_of(&vec![ids[1]]);
    let mut order = breadth_first_walk(&world, ids[0], DespawnPolicy::Orphan, Some(next), &blocked);
    order.sort();
    assert_eq!(order, vec![ids[0], ids[3]]);
    let root_blocked = entity_set_of(&vec![ids[0], ids[0]]);
    assert!(breadth_first_walk(&world, ids[0], DespawnPolicy::Orphan, Some(next), &root_blocked).is_empty());
    assert!(breadth_first_walk(&world, 40, DespawnPolicy::Orphan, Some(next), &blocked).is_empty());
}

#[test]
fn traversal_yields_rows_level_by_level() {
    let mut world = World::new();
    let child = world.register(DespawnPolicy::Orphan, false);
    let ids: Vec<Entity> = (0..6).map(|_| world.spawn()).collect();
    link(&mut world, child, &[(ids[0], ids[1]), (ids[0], ids[2]), (ids[1], ids[3]), (ids[2], ids[4]), (ids[4], ids[5])]);
    let mut names = Table::new();
    for (n, id) in ids.iter().enumerate() {
        names.insert(*id, n as u8);
    }
    let query = Query::new(&world, ids.clone());
    let mut visitor = Collect::new();
    query.ops().join(child, &names).breadth_first(ids[0], child).for_each(&mut visitor);
    let fosters: Vec<Entity> = visitor.rows.iter().map(|row| row.entity).collect();
    let targets: Vec<u8> = visitor.rows.iter().map(|row| row.joined[0].item).collect();
    assert_eq!(fosters.len(), 5);
    assert_eq!(&fosters[0..2], &[ids[0], ids[0]]);
    assert_eq!(fosters[4], ids[4]);
    assert_eq!(targets[4], 5);
    let mut sorted = targets.clone();
    sorted.sort();
    assert_eq!(sorted, vec![1, 2, 3, 4, 5]);
}

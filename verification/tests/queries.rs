use relation_graph::collections::{Entity, RelationId};
use relation_graph::commands::SetRelation;
use relation_graph::graph::DespawnPolicy;
use relation_graph::joins::{Attach, Comb, ControlFlow, Drop, Join, Joinable, Payloads, Table, Waive, Wipe, Wiped};
use relation_graph::query::{is_among, ForEachPermutations, Query};
use relation_graph::rows::{copy_of, visit_product, Collect, First, Row, Visitor};
use relation_graph::world::World;

fn spawn_all(world: &mut World, names: &[&'static str], table: &mut Table<&'static str>) -> Vec<Entity> {
    names
        .iter()
        .map(|name| {
            let entity = world.spawn();
            table.insert(entity, *name);
            entity
        })
        .collect()
}

fn owned(
    world: &World,
    owner: Entity,
    owns: RelationId,
    source: &Table<&'static str>,
) -> Vec<(u64, &'static str)> {
    let query = Query::new(world, vec![owner]);
    let mut visitor = Collect::new();
    query.ops().total_join(owns, source).for_each(&mut visitor);
    let mut owned: Vec<(u64, &'static str)> = visitor
        .rows
        .iter()
        .map(|row| {
            assert_eq!(row.entity, owner);
            assert_eq!(row.joined.len(), 1);
            (row.joined[0].payload.unwrap(), row.joined[0].item)
        })
        .collect();
    owned.sort_by_key(|(quantity, _)| *quantity);
    owned
}

#[test]
fn multi_join_test() {
    let mut world = World::new();
    let owns = world.register(DespawnPolicy::default(), false);
    let mut fruits = Table::new();
    let mut veggies = Table::new();
    let fruit_ids = spawn_all(
        &mut world,
        &["Mango", "Lychee", "Guava", "Pomelo", "Kiwi", "Nashi pear"],
        &mut fruits,
    );
    let veg_ids = spawn_all(&mut world, &["Onions", "Ube", "Okra", "Bak choy", "Fennel"], &mut veggies);
    let alice = world.spawn();
    let bob = world.spawn();

    for (n, fruit) in fruit_ids.iter().enumerate().take(3) {
        SetRelation { foster: alice, target: *fruit, relation: owns, value: n as u64 }.write(&mut world);
    }
    for (n, veg) in veg_ids.iter().enumerate().skip(2) {
        SetRelation { foster: alice, target: *veg, relation: owns, value: n as u64 }.write(&mut world);
    }
    for (n, fruit) in fruit_ids.iter().enumerate().skip(2) {
        SetRelation { foster: bob, target: *fruit, relation: owns, value: n as u64 }.write(&mut world);
    }
    for (n, veg) in veg_ids.iter().enumerate().take(3) {
        SetRelation { foster: bob, target: *veg, relation: owns, value: n as u64 }.write(&mut world);
    }

    assert_eq!(owned(&world, alice, owns, &fruits), vec![(0, "Mango"), (1, "Lychee"), (2, "Guava")]);
    assert_eq!(owned(&world, alice, owns, &veggies), vec![(2, "Okra"), (3, "Bak choy"), (4, "Fennel")]);
    assert_eq!(
        owned(&world, bob, owns, &fruits),
        vec![(2, "Guava"), (3, "Pomelo"), (4, "Kiwi"), (5, "Nashi pear")]
    );
    assert_eq!(owned(&world, bob, owns, &veggies), vec![(0, "Onions"), (1, "Ube"), (2, "Okra")]);
}

struct Tree {
    world: World,
    child: RelationId,
    ctrl: Entity,
    a: Entity,
    b: Entity,
    c: Entity,
    d: Entity,
}

fn tree() -> Tree {
    let mut world = World::new();
    let child = world.register(DespawnPolicy::default(), false);
    let ctrl = world.spawn();
    let a = world.spawn();
    let b = world.spawn();
    let c = world.spawn();
    let d = world.spawn();
    for (foster, target) in [(ctrl, a), (ctrl, b), (b, c), (b, d)] {
        SetRelation { foster, target, relation: child, value: 0 }.write(&mut world);
    }
    Tree { world, child, ctrl, a, b, c, d }
}

fn visited(rows: &[Row<u64>]) -> Vec<Entity> {
    rows.iter().map(|row| row.entity).collect()
}

#[test]
fn propogation_test() {
    let tree = tree();
    let mut positions: Vec<(i32, i32)> = (0..5).map(|x| (x, 5)).collect();
    let mut query = Query::new(&tree.world, vec![tree.ctrl, tree.a, tree.b, tree.c, tree.d]);
    let mut visitor: Collect<u64> = Collect::new();
    query.ops_mut::<Table<u64>>().breadth_first(tree.ctrl, tree.child).for_each(&mut visitor);
    for row in visitor.rows.iter() {
        assert!(row.joined.is_empty());
        positions[row.entity as usize].0 = 0;
    }
    assert!(positions.iter().all(|pos| *pos == (0, 5)));
}

#[test]
fn breadth_first_visits_siblings_before_grandchildren() {
    let tree = tree();
    let query = Query::new(&tree.world, vec![tree.d, tree.c, tree.b, tree.a, tree.ctrl]);
    let mut visitor: Collect<u64> = Collect::new();
    query.ops::<Table<u64>>().breadth_first(tree.ctrl, tree.child).for_each(&mut visitor);
    let order = visited(&visitor.rows);
    assert_eq!(order.len(), 5);
    assert_eq!(order[0], tree.ctrl);
    let mut siblings = vec![order[1], order[2]];
    siblings.sort();
    assert_eq!(siblings, vec![tree.a, tree.b]);
    let mut grandchildren = vec![order[3], order[4]];
    grandchildren.sort();
    assert_eq!(grandchildren, vec![tree.c, tree.d]);
}

#[test]
fn breadth_first_filters_output_not_reach() {
    let tree = tree();
    let query = Query::new(&tree.world, vec![tree.c, tree.d]);
    let mut visitor: Collect<u64> = Collect::new();
    query.ops::<Table<u64>>().breadth_first(tree.ctrl, tree.child).for_each(&mut visitor);
    let mut order = visited(&visitor.rows);
    order.sort();
    assert_eq!(order, vec![tree.c, tree.d]);
}

#[test]
fn breadth_first_from_a_subtree_or_a_missing_entity() {
    let tree = tree();
    let everyone = vec![tree.ctrl, tree.a, tree.b, tree.c, tree.d];
    let query = Query::new(&tree.world, everyone);
    let mut visitor: Collect<u64> = Collect::new();
    query.ops::<Table<u64>>().breadth_first(tree.b, tree.child).for_each(&mut visitor);
    let order = visited(&visitor.rows);
    assert_eq!(order[0], tree.b);
    assert_eq!(order.len(), 3);
    let mut visitor: Collect<u64> = Collect::new();
    query.ops::<Table<u64>>().breadth_first(99, tree.child).for_each(&mut visitor);
    assert!(visitor.rows.is_empty());
    let mut visitor: Collect<u64> = Collect::new();
    query.ops::<Table<u64>>().breadth_first(tree.ctrl, 42).for_each(&mut visitor);
    assert_eq!(visited(&visitor.rows), vec![tree.ctrl]);
}

#[test]
fn breadth_first_ends_on_a_cycle() {
    let mut world = World::new();
    let next = world.register(DespawnPolicy::Orphan, false);
    let a = world.spawn();
    let b = world.spawn();
    let c = world.spawn();
    for (foster, target) in [(a, b), (b, c), (c, a), (a, c)] {
        SetRelation { foster, target, relation: next, value: 0 }.write(&mut world);
    }
    let query = Query::new(&world, vec![a, b, c]);
    let mut visitor: Collect<u64> = Collect::new();
    query.ops::<Table<u64>>().breadth_first(a, next).for_each(&mut visitor);
    let order = visited(&visitor.rows);
    assert_eq!(order.len(), 3);
    assert_eq!(order[0], a);
}

#[test]
fn total_join_yields_only_what_the_source_holds() {
    let mut world = World::new();
    let owns = world.register(DespawnPolicy::Orphan, false);
    let foster = world.spawn();
    let mut fruits = Table::new();
    let present = world.spawn();
    let absent_one = world.spawn();
    let absent_two = world.spawn();
    fruits.insert(present, "Mango");
    SetRelation { foster, target: absent_one, relation: owns, value: 1 }.write(&mut world);
    SetRelation { foster, target: present, relation: owns, value: 2 }.write(&mut world);
    SetRelation { foster, target: absent_two, relation: owns, value: 3 }.write(&mut world);
    let query = Query::new(&world, vec![foster]);
    let mut visitor = Collect::new();
    query.ops().total_join(owns, &fruits).for_each(&mut visitor);
    assert_eq!(visitor.rows.len(), 1);
    let row = &visitor.rows[0];
    assert_eq!(row.entity, foster);
    assert_eq!(row.joined.len(), 1);
    assert_eq!(row.joined[0].target, present);
    assert_eq!(row.joined[0].payload, Some(2));
    assert_eq!(row.joined[0].item, "Mango");
}

#[test]
fn join_discards_the_payload() {
    let mut world = World::new();
    let owns = world.register(DespawnPolicy::Orphan, false);
    let foster = world.spawn();
    let target = world.spawn();
    let mut names = Table::new();
    names.insert(target, 'x');
    SetRelation { foster, target, relation: owns, value: 9 }.write(&mut world);
    let query = Query::new(&world, vec![foster]);
    let mut visitor = Collect::new();
    query.ops().join(owns, &names).for_each(&mut visitor);
    assert_eq!(visitor.rows.len(), 1);
    assert_eq!(visitor.rows[0].joined[0].payload, None);
    assert_eq!(visitor.rows[0].joined[0].item, 'x');
    assert_eq!(visitor.rows[0].joined[0].target, target);
}

#[test]
fn a_later_join_on_the_same_relation_replaces_the_earlier() {
    let mut world = World::new();
    let owns = world.register(DespawnPolicy::Orphan, false);
    let foster = world.spawn();
    let target = world.spawn();
    let mut first = Table::new();
    first.insert(target, 1u8);
    let mut second = Table::new();
    second.insert(target, 2u8);
    SetRelation { foster, target, relation: owns, value: 9 }.write(&mut world);
    let query = Query::new(&world, vec![foster]);
    let ops = query.ops().join(owns, &first).total_join(owns, &second);
    assert_eq!(ops.joins.len(), 1);
    assert!(ops.joins[0].total);
    let mut visitor = Collect::new();
    ops.for_each(&mut visitor);
    assert_eq!(visitor.rows.len(), 1);
    assert_eq!(visitor.rows[0].joined.len(), 1);
    assert_eq!(visitor.rows[0].joined[0].payload, Some(9));
    assert_eq!(visitor.rows[0].joined[0].item, 2);
}

#[test]
fn two_joins_yield_the_cartesian_product() {
    let mut world = World::new();
    let owns = world.register(DespawnPolicy::Orphan, false);
    let likes = world.register(DespawnPolicy::Orphan, false);
    let foster = world.spawn();
    let loner = world.spawn();
    let mut things = Table::new();
    let items: Vec<Entity> = (0..5).map(|_| world.spawn()).collect();
    for (n, item) in items.iter().enumerate().take(4) {
        things.insert(*item, n as u64 * 10);
    }
    for (n, item) in items.iter().enumerate().take(3) {
        SetRelation { foster, target: *item, relation: owns, value: n as u64 }.write(&mut world);
    }
    for item in items.iter().skip(3) {
        SetRelation { foster, target: *item, relation: likes, value: 7 }.write(&mut world);
    }
    SetRelation { foster, target: items[0], relation: likes, value: 8 }.write(&mut world);
    SetRelation { foster: loner, target: items[0], relation: owns, value: 0 }.write(&mut world);

    let query = Query::new(&world, vec![loner, foster]);
    let mut visitor = Collect::new();
    query.ops().total_join(owns, &things).join(likes, &things).for_each(&mut visitor);
    let mut rows: Vec<(Entity, u64, u64, Option<u64>, Option<u64>)> = visitor
        .rows
        .iter()
        .map(|row| {
            assert_eq!(row.joined.len(), 2);
            (row.entity, row.joined[0].item, row.joined[1].item, row.joined[0].payload, row.joined[1].payload)
        })
        .collect();
    let firsts: Vec<u64> = rows.iter().map(|row| row.1).collect();
    assert!(firsts.chunks(2).all(|pair| pair[0] == pair[1]));
    rows.sort();
    assert_eq!(
        rows,
        vec![
            (foster, 0, 0, Some(0), None),
            (foster, 0, 30, Some(0), None),
            (foster, 10, 0, Some(1), None),
            (foster, 10, 30, Some(1), None),
            (foster, 20, 0, Some(2), None),
            (foster, 20, 30, Some(2), None),
        ]
    );
}

#[test]
fn a_query_without_joins_yields_its_base_entities() {
    let tree = tree();
    let query = Query::new(&tree.world, vec![tree.b, tree.ctrl]);
    let mut visitor: Collect<u64> = Collect::new();
    query.ops::<Table<u64>>().for_each(&mut visitor);
    assert_eq!(visited(&visitor.rows), vec![tree.b, tree.ctrl]);
    assert!(visitor.rows.iter().all(|row| row.joined.is_empty()));
    let none = Query::new(&tree.world, Vec::new());
    let mut visitor: Collect<u64> = Collect::new();
    none.ops::<Table<u64>>().for_each(&mut visitor);
    assert!(visitor.rows.is_empty());
}

#[test]
fn exit_ends_the_whole_iteration() {
    let mut world = World::new();
    let owns = world.register(DespawnPolicy::Orphan, false);
    let mut things = Table::new();
    let fosters: Vec<Entity> = (0..3).map(|_| world.spawn()).collect();
    for foster in fosters.iter() {
        for n in 0..3 {
            let target = world.spawn();
            things.insert(target, n);
            SetRelation { foster: *foster, target, relation: owns, value: 0 }.write(&mut world);
        }
    }
    let query = Query::new(&world, fosters.clone());
    let mut first = First::new();
    query.ops().join(owns, &things).for_each(&mut first);
    assert_eq!(first.rows.len(), 1);
    assert_eq!(first.rows[0].entity, fosters[0]);
    let mut all = Collect::new();
    query.ops().join(owns, &things).for_each(&mut all);
    assert_eq!(all.rows.len(), 9);
    assert_eq!(visited_any(&all.rows), vec![0, 0, 0, 1, 1, 1, 2, 2, 2]);
}

fn visited_any(rows: &[Row<i32>]) -> Vec<Entity> {
    rows.iter().map(|row| row.entity).collect()
}

#[test]
fn visitors_say_whether_to_go_on() {
    let mut keep: Collect<u8> = Collect::new();
    let mut stop: First<u8> = First::new();
    assert_eq!(keep.visit(Row { entity: 1, joined: Vec::new() }), ControlFlow::Continue);
    assert_eq!(keep.visit(Row { entity: 2, joined: Vec::new() }), ControlFlow::Continue);
    assert_eq!(stop.visit(Row { entity: 3, joined: Vec::new() }), ControlFlow::Exit);
    assert_eq!(keep.rows.len(), 2);
    assert_eq!(stop.rows[0].entity, 3);
    assert_eq!(ControlFlow::from(()), ControlFlow::Continue);
}

#[test]
fn table_keeps_the_last_item_written() {
    let mut table = Table::new();
    assert_eq!(table.lookup(1), None);
    assert!(!table.contains(1));
    table.insert(1, "a");
    table.insert(2, "b");
    table.insert(1, "c");
    assert_eq!(table.lookup(1), Some("c"));
    assert_eq!(table.get(2), "b");
    assert!(table.contains(2));
    assert!(!table.contains(3));
}

#[test]
fn combs_treat_the_payload() {
    let world = World::new();
    let unit: () = <Drop as Comb<u8>>::comb(5);
    assert_eq!(unit, ());
    let wiped: Wiped = <Wipe as Comb<u8>>::comb(5);
    assert_eq!(<Waive as Comb<u8>>::comb(5), 5);
    let joined = wiped.attach(3, 8, 'q');
    assert_eq!((joined.target, joined.payload, joined.item), (8, None, 'q'));
    let mut world_with = world;
    let owns = world_with.register(DespawnPolicy::Orphan, false);
    let a = world_with.spawn();
    let b = world_with.spawn();
    SetRelation { foster: a, target: b, relation: owns, value: 77 }.write(&mut world_with);
    let payloads = Payloads { world: &world_with, foster: a, relation: owns };
    let joined = payloads.attach(0, b, 'z');
    assert_eq!((joined.target, joined.payload, joined.item), (b, Some(77), 'z'));
}

#[test]
fn matches_follow_one_relation_type() {
    let mut world = World::new();
    let owns = world.register(DespawnPolicy::Orphan, false);
    let likes = world.register(DespawnPolicy::Orphan, false);
    let a = world.spawn();
    let b = world.spawn();
    let c = world.spawn();
    let mut table = Table::new();
    table.insert(b, 1u8);
    table.insert(c, 2u8);
    SetRelation { foster: a, target: b, relation: owns, value: 5 }.write(&mut world);
    SetRelation { foster: a, target: c, relation: likes, value: 6 }.write(&mut world);
    let join = Join { relation: owns, total: true, source: &table };
    let list = join.matches(&world, a);
    assert_eq!(list.len(), 1);
    assert_eq!((list[0].target, list[0].payload, list[0].item), (b, Some(5), 1));
    let unknown = Join { relation: 9, total: true, source: &table };
    assert!(unknown.matches(&world, a).is_empty());
    let query = Query::new(&world, vec![a]);
    let ops = query.ops().join(likes, &table);
    assert_eq!(ops.bases(), vec![a]);
    let lists = ops.matches(a);
    assert_eq!(lists.len(), 1);
    assert_eq!(lists[0][0].target, c);
    assert_eq!(copy_of(&lists[0]).len(), 1);
    assert!(is_among(&vec![3, 4], 4));
    assert!(!is_among(&vec![3, 4], 5));
}

#[test]
fn visit_product_walks_the_first_list_slowest() {
    let mut table = Table::new();
    for e in 0..4u64 {
        table.insert(e, e);
    }
    let plain = Wiped;
    let lists = vec![
        vec![plain.attach(0, 0, 0u64), plain.attach(0, 1, 1u64)],
        vec![plain.attach(0, 2, 2u64), plain.attach(0, 3, 3u64)],
    ];
    let mut chosen = Vec::new();
    let mut visitor = Collect::new();
    let flow = visit_product(9, &lists, 0, &mut chosen, &mut visitor);
    assert_eq!(flow, ControlFlow::Continue);
    assert!(chosen.is_empty());
    let pairs: Vec<(u64, u64)> =
        visitor.rows.iter().map(|row| (row.joined[0].item, row.joined[1].item)).collect();
    assert_eq!(pairs, vec![(0, 2), (0, 3), (1, 2), (1, 3)]);
    let mut first = First::new();
    assert_eq!(visit_product(9, &lists, 0, &mut chosen, &mut first), ControlFlow::Exit);
    assert_eq!(first.rows.len(), 1);
    let empty: Vec<Vec<relation_graph::joins::Joined<u64>>> = vec![lists[0].clone(), Vec::new()];
    let mut visitor = Collect::new();
    visit_product(9, &empty, 0, &mut chosen, &mut visitor);
    assert!(visitor.rows.is_empty());
}

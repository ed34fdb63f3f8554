use relation_graph::collections::{Entity, RelationId};
use relation_graph::commands::{CheckeDespawn, SetRelation, UnSet};
use relation_graph::graph::DespawnPolicy;
use relation_graph::world::World;

struct Scene {
    world: World,
    root: Entity,
    trigger: Entity,
    should_despawn: Vec<Entity>,
    should_delink: Vec<Entity>,
    leaf: Entity,
    should_reparent: Entity,
    despawn_relation: RelationId,
    delink_relation: RelationId,
    reparent_relation: RelationId,
}

fn set(world: &mut World, foster: Entity, target: Entity, relation: RelationId) {
    SetRelation { foster, target, relation, value: 0 }.write(world);
}

fn targets(world: &World, entity: Entity, relation: RelationId) -> Vec<Entity> {
    let mut found = Vec::new();
    for policy in DespawnPolicy::iterator() {
        for ((r, t), _slot) in world.targets_in(entity, policy) {
            if r == relation {
                found.push(t);
            }
        }
    }
    found.sort();
    found
}

fn fosters(world: &World, entity: Entity, relation: RelationId) -> Vec<Entity> {
    let mut found: Vec<Entity> =
        world.fosters_of(entity).into_iter().filter(|(r, _)| *r == relation).map(|(_, f)| f).collect();
    found.sort();
    found
}

fn setup() -> Scene {
    let mut world = World::new();
    let despawn_relation = world.register(DespawnPolicy::RecursiveDespawn, true);
    let delink_relation = world.register(DespawnPolicy::RecursiveDelink, false);
    let reparent_relation = world.register(DespawnPolicy::Reparent, false);

    let root = world.spawn();
    let a = world.spawn();
    let b = world.spawn();
    let c = world.spawn();
    let d = world.spawn();
    let e = world.spawn();
    let f = world.spawn();
    let g = world.spawn();

    set(&mut world, root, a, reparent_relation);
    set(&mut world, root, a, despawn_relation);
    set(&mut world, a, b, despawn_relation);
    set(&mut world, b, c, despawn_relation);
    set(&mut world, a, d, delink_relation);
    set(&mut world, d, e, delink_relation);
    set(&mut world, e, f, delink_relation);
    set(&mut world, a, g, reparent_relation);

    Scene {
        world,
        root,
        trigger: a,
        should_despawn: vec![b, c],
        should_delink: vec![d, e],
        leaf: f,
        should_reparent: g,
        despawn_relation,
        delink_relation,
        reparent_relation,
    }
}

fn verify_policy(scene: &Scene) {
    let world = &scene.world;
    let still_there = scene.should_despawn.iter().filter(|e| world.contains(**e)).count();
    assert!(still_there == 0);

    for entity in scene.should_delink.iter() {
        assert!(world.contains(*entity));
        assert!(targets(world, *entity, scene.delink_relation).is_empty());
    }

    let parents = fosters(world, scene.should_reparent, scene.reparent_relation);
    let parent = parents.first().expect("Entity should not be orphaned");
    assert!(*parent == scene.root);
}

#[test]
fn policy_via_despawn() {
    let mut scene = setup();
    CheckeDespawn { entity: scene.trigger }.write(&mut scene.world);
    verify_policy(&scene);
}

#[test]
fn policy_via_delink() {
    let mut scene = setup();
    UnSet { foster: scene.root, target: scene.trigger, relation: scene.despawn_relation }
        .write(&mut scene.world);
    verify_policy(&scene);
}

#[test]
fn policy_via_exclusive() {
    let mut scene = setup();
    let new_child = scene.world.spawn();
    set(&mut scene.world, scene.root, new_child, scene.despawn_relation);
    verify_policy(&scene);
}

#[test]
fn despawn_leaves_nothing_dangling() {
    let mut scene = setup();
    CheckeDespawn { entity: scene.trigger }.write(&mut scene.world);
    let world = &scene.world;
    assert!(!world.contains(scene.trigger));
    assert!(world.contains(scene.root));
    assert!(world.contains(scene.leaf));
    assert!(world.contains(scene.should_reparent));
    let gone = [scene.trigger, scene.should_despawn[0], scene.should_despawn[1]];
    for entity in 0..8u64 {
        if !world.contains(entity) {
            continue;
        }
        for policy in DespawnPolicy::iterator() {
            for ((_r, t), _slot) in world.targets_in(entity, policy) {
                assert!(!gone.contains(&t));
                assert!(world.contains(t));
            }
        }
        for (_r, f) in world.fosters_of(entity) {
            assert!(!gone.contains(&f));
            assert!(world.contains(f));
        }
    }
    for entity in gone {
        for policy in DespawnPolicy::iterator() {
            assert!(world.targets_in(entity, policy).is_empty());
        }
        assert!(world.fosters_of(entity).is_empty());
    }
}

#[test]
fn despawn_delinks_the_whole_chain_below() {
    let mut scene = setup();
    CheckeDespawn { entity: scene.trigger }.write(&mut scene.world);
    let world = &scene.world;
    let d = scene.should_delink[0];
    let e = scene.should_delink[1];
    assert_eq!(fosters(world, d, scene.delink_relation), Vec::<Entity>::new());
    assert_eq!(fosters(world, e, scene.delink_relation), Vec::<Entity>::new());
    assert_eq!(fosters(world, scene.leaf, scene.delink_relation), Vec::<Entity>::new());
}

#[test]
fn despawn_reparents_to_the_fosters_foster() {
    let mut scene = setup();
    let slot_before = scene.world.slot_of(scene.root, scene.reparent_relation, scene.trigger);
    CheckeDespawn { entity: scene.trigger }.write(&mut scene.world);
    let world = &scene.world;
    assert_eq!(fosters(world, scene.should_reparent, scene.reparent_relation), vec![scene.root]);
    assert_eq!(targets(world, scene.root, scene.reparent_relation), vec![scene.should_reparent]);
    assert_eq!(
        world.slot_of(scene.root, scene.reparent_relation, scene.should_reparent),
        slot_before
    );
}

#[test]
fn despawn_orphans_where_the_foster_had_none() {
    let mut world = World::new();
    let child_of = world.register(DespawnPolicy::Reparent, false);
    let p = world.spawn();
    let c = world.spawn();
    set(&mut world, p, c, child_of);
    CheckeDespawn { entity: p }.write(&mut world);
    assert!(world.contains(c));
    assert!(!world.contains(p));
    assert_eq!(fosters(&world, c, child_of), Vec::<Entity>::new());
}

#[test]
fn despawn_climbs_past_doomed_ancestors() {
    let mut world = World::new();
    let child_of = world.register(DespawnPolicy::Reparent, false);
    let owns = world.register(DespawnPolicy::RecursiveDespawn, false);
    let g = world.spawn();
    let p = world.spawn();
    let q = world.spawn();
    let c = world.spawn();
    set(&mut world, g, p, child_of);
    set(&mut world, p, q, child_of);
    set(&mut world, q, c, child_of);
    set(&mut world, p, q, owns);
    CheckeDespawn { entity: p }.write(&mut world);
    assert!(!world.contains(p));
    assert!(!world.contains(q));
    assert!(world.contains(c));
    assert_eq!(fosters(&world, c, child_of), vec![g]);
    assert_eq!(targets(&world, g, child_of), vec![c]);
}

#[test]
fn despawn_of_a_missing_entity_changes_nothing() {
    let mut scene = setup();
    CheckeDespawn { entity: 999 }.write(&mut scene.world);
    for entity in 0..8u64 {
        assert!(scene.world.contains(entity));
    }
    assert_eq!(targets(&scene.world, scene.trigger, scene.despawn_relation), vec![scene.should_despawn[0]]);
    CheckeDespawn { entity: scene.trigger }.write(&mut scene.world);
    CheckeDespawn { entity: scene.trigger }.write(&mut scene.world);
    assert!(scene.world.contains(scene.root));
}

#[test]
fn despawn_survives_a_cycle() {
    let mut world = World::new();
    let owns = world.register(DespawnPolicy::RecursiveDespawn, false);
    let a = world.spawn();
    let b = world.spawn();
    let c = world.spawn();
    let bystander = world.spawn();
    set(&mut world, a, b, owns);
    set(&mut world, b, c, owns);
    set(&mut world, c, a, owns);
    set(&mut world, bystander, a, owns);
    CheckeDespawn { entity: b }.write(&mut world);
    assert!(!world.contains(a));
    assert!(!world.contains(b));
    assert!(!world.contains(c));
    assert!(world.contains(bystander));
    assert_eq!(targets(&world, bystander, owns), Vec::<Entity>::new());
}

#[test]
fn unset_of_an_orphan_relation_only_removes_the_edge() {
    let mut world = World::new();
    let likes = world.register(DespawnPolicy::Orphan, false);
    let a = world.spawn();
    let b = world.spawn();
    let c = world.spawn();
    set(&mut world, a, b, likes);
    set(&mut world, a, c, likes);
    set(&mut world, b, c, likes);
    UnSet { foster: a, target: b, relation: likes }.write(&mut world);
    assert_eq!(targets(&world, a, likes), vec![c]);
    assert_eq!(fosters(&world, b, likes), Vec::<Entity>::new());
    assert_eq!(fosters(&world, c, likes), vec![a, b]);
    assert_eq!(targets(&world, b, likes), vec![c]);
    assert!(world.contains(a) && world.contains(b) && world.contains(c));
}

#[test]
fn unset_of_a_missing_edge_is_a_no_op() {
    let mut world = World::new();
    let owns = world.register(DespawnPolicy::RecursiveDespawn, false);
    let a = world.spawn();
    let b = world.spawn();
    let c = world.spawn();
    set(&mut world, a, b, owns);
    UnSet { foster: a, target: c, relation: owns }.write(&mut world);
    UnSet { foster: a, target: b, relation: 17 }.write(&mut world);
    UnSet { foster: 99, target: b, relation: owns }.write(&mut world);
    assert!(world.contains(a) && world.contains(b) && world.contains(c));
    assert_eq!(targets(&world, a, owns), vec![b]);
}

#[test]
fn unset_of_a_delink_relation_delinks_below() {
    let mut world = World::new();
    let chain = world.register(DespawnPolicy::RecursiveDelink, false);
    let a = world.spawn();
    let b = world.spawn();
    let c = world.spawn();
    let d = world.spawn();
    set(&mut world, a, b, chain);
    set(&mut world, b, c, chain);
    set(&mut world, c, d, chain);
    UnSet { foster: a, target: b, relation: chain }.write(&mut world);
    for entity in [a, b, c, d] {
        assert!(world.contains(entity));
        assert_eq!(targets(&world, entity, chain), Vec::<Entity>::new());
        assert_eq!(fosters(&world, entity, chain), Vec::<Entity>::new());
    }
}

#[test]
fn unset_of_a_reparent_relation_orphans_from_the_foster_left() {
    let mut world = World::new();
    let child_of = world.register(DespawnPolicy::Reparent, false);
    let p = world.spawn();
    let q = world.spawn();
    let c = world.spawn();
    set(&mut world, p, c, child_of);
    set(&mut world, q, c, child_of);
    UnSet { foster: p, target: c, relation: child_of }.write(&mut world);
    assert_eq!(fosters(&world, c, child_of), Vec::<Entity>::new());
    assert_eq!(targets(&world, q, child_of), Vec::<Entity>::new());
    assert_eq!(targets(&world, p, child_of), Vec::<Entity>::new());
    assert!(world.contains(p) && world.contains(q) && world.contains(c));
}

#[test]
fn unset_of_a_reparent_relation_leaves_several_fosters() {
    let mut world = World::new();
    let child_of = world.register(DespawnPolicy::Reparent, false);
    let p = world.spawn();
    let q = world.spawn();
    let s = world.spawn();
    let c = world.spawn();
    set(&mut world, p, c, child_of);
    set(&mut world, q, c, child_of);
    set(&mut world, s, c, child_of);
    UnSet { foster: p, target: c, relation: child_of }.write(&mut world);
    assert_eq!(fosters(&world, c, child_of), vec![q, s]);
}

#[test]
fn exclusive_overwrite_of_a_reparent_relation_orphans_the_displaced() {
    let mut world = World::new();
    let holds = world.register(DespawnPolicy::Reparent, true);
    let f = world.spawn();
    let other = world.spawn();
    let a = world.spawn();
    let b = world.spawn();
    set(&mut world, f, a, holds);
    set(&mut world, other, a, holds);
    set(&mut world, f, b, holds);
    assert_eq!(targets(&world, f, holds), vec![b]);
    assert_eq!(fosters(&world, b, holds), vec![f]);
    assert_eq!(fosters(&world, a, holds), Vec::<Entity>::new());
    assert_eq!(targets(&world, other, holds), Vec::<Entity>::new());
}

use relation_graph::cascade::Operation;
use relation_graph::collections::{Entity, RelationId, MAX_SLOTS};
use relation_graph::commands::{first_target, CheckeDespawn, SetRelation, UnSet};
use relation_graph::graph::{DespawnPolicy, RelationInfo};
use relation_graph::policies::{
    apply_operations, can_link, descend_delink_relation, descend_despawn_relations, entity_set_of,
    sole_foster, AscendedParents,
};
use relation_graph::world::World;

fn all_targets(world: &World, entity: Entity) -> Vec<(usize, RelationId, Entity, usize)> {
    let mut found = Vec::new();
    for (bucket, policy) in DespawnPolicy::iterator().into_iter().enumerate() {
        for ((r, t), slot) in world.targets_in(entity, policy) {
            found.push((bucket, r, t, slot));
        }
    }
    found.sort();
    found
}

fn all_fosters(world: &World, entity: Entity) -> Vec<(RelationId, Entity)> {
    let mut found = world.fosters_of(entity);
    found.sort();
    found
}

/// Checks slot consistency, bidirectionality, exclusivity and bucket
/// uniqueness over the first `entities` identifiers.
fn check_invariants(world: &World, entities: u64) {
    for e in 0..entities {
        let targets = all_targets(world, e);
        for (bucket, r, t, slot) in targets.iter().copied() {
            let info = world.relation_info(r).expect("edge of an unregistered relation type");
            assert!(world.contains(e) && world.contains(t));
            assert!(slot < world.storage_len(e, r));
            assert!(all_fosters(world, t).contains(&(r, e)));
            assert_eq!(info.policy.index(), bucket);
            if info.exclusive {
                assert_eq!(targets.iter().filter(|(_, r2, _, _)| *r2 == r).count(), 1);
            }
            assert_eq!(targets.iter().filter(|(_, r2, t2, _)| *r2 == r && *t2 == t).count(), 1);
        }
        for (r, f) in all_fosters(world, e) {
            assert!(world.contains(e) && world.contains(f));
            assert!(world.slot_of(f, r, e).is_some());
        }
    }
}

#[test]
fn new_world_is_empty() {
    let world = World::new();
    assert!(!world.contains(0));
    assert_eq!(world.relation_info(0), None);
    assert_eq!(world.storage_len(0, 0), 0);
    assert!(world.fosters_of(0).is_empty());
}

#[test]
fn spawn_hands_out_fresh_identifiers() {
    let mut world = World::new();
    let a = world.spawn();
    let b = world.spawn();
    assert_eq!((a, b), (0, 1));
    assert!(world.contains(a) && world.contains(b) && !world.contains(2));
}

#[test]
fn register_keeps_policy_and_arity() {
    let mut world = World::new();
    let r0 = world.register(DespawnPolicy::Reparent, true);
    let r1 = world.register(DespawnPolicy::default(), false);
    assert_eq!(world.relation_info(r0), Some(RelationInfo { policy: DespawnPolicy::Reparent, exclusive: true }));
    assert_eq!(world.relation_info(r1), Some(RelationInfo { policy: DespawnPolicy::Orphan, exclusive: false }));
    assert_eq!(world.relation_info(2), None);
}

#[test]
fn policies_come_in_order_of_precedence() {
    let all = DespawnPolicy::iterator();
    assert_eq!(
        all,
        [
            DespawnPolicy::RecursiveDespawn,
            DespawnPolicy::RecursiveDelink,
            DespawnPolicy::Reparent,
            DespawnPolicy::Orphan
        ]
    );
    assert_eq!(all.map(|p| p.index()), [0, 1, 2, 3]);
}

#[test]
fn set_appends_a_slot_and_links_both_sides() {
    let mut world = World::new();
    let likes = world.register(DespawnPolicy::Orphan, false);
    let a = world.spawn();
    let b = world.spawn();
    let c = world.spawn();
    SetRelation { foster: a, target: b, relation: likes, value: 10 }.write(&mut world);
    SetRelation { foster: a, target: c, relation: likes, value: 20 }.write(&mut world);
    assert_eq!(all_targets(&world, a), vec![(3, likes, b, 0), (3, likes, c, 1)]);
    assert_eq!(all_fosters(&world, b), vec![(likes, a)]);
    assert_eq!(all_fosters(&world, c), vec![(likes, a)]);
    assert_eq!(world.storage_len(a, likes), 2);
    assert_eq!(world.payload(a, likes, b), Some(10));
    assert_eq!(world.payload(a, likes, c), Some(20));
    assert_eq!(world.payload_at(a, likes, 1), 20);
    assert_eq!(world.payload(b, likes, a), None);
    check_invariants(&world, 3);
}

#[test]
fn set_overwrites_the_payload_in_place() {
    let mut world = World::new();
    let likes = world.register(DespawnPolicy::Orphan, false);
    let a = world.spawn();
    let b = world.spawn();
    SetRelation { foster: a, target: b, relation: likes, value: 1 }.write(&mut world);
    SetRelation { foster: a, target: b, relation: likes, value: 2 }.write(&mut world);
    assert_eq!(world.storage_len(a, likes), 1);
    assert_eq!(world.slot_of(a, likes, b), Some(0));
    assert_eq!(world.payload(a, likes, b), Some(2));
    assert_eq!(all_fosters(&world, b), vec![(likes, a)]);
    check_invariants(&world, 2);
}

#[test]
fn set_on_missing_entities_or_relation_is_a_no_op() {
    let mut world = World::new();
    let likes = world.register(DespawnPolicy::Orphan, false);
    let a = world.spawn();
    SetRelation { foster: 7, target: a, relation: likes, value: 1 }.write(&mut world);
    SetRelation { foster: a, target: 7, relation: likes, value: 1 }.write(&mut world);
    SetRelation { foster: a, target: a, relation: 5, value: 1 }.write(&mut world);
    assert!(all_targets(&world, a).is_empty());
    assert!(all_fosters(&world, a).is_empty());
    assert_eq!(world.storage_len(a, likes), 0);
}

#[test]
fn set_exclusive_replaces_the_single_edge() {
    let mut world = World::new();
    let holds = world.register(DespawnPolicy::Orphan, true);
    let f = world.spawn();
    let a = world.spawn();
    let b = world.spawn();
    SetRelation { foster: f, target: a, relation: holds, value: 1 }.write(&mut world);
    SetRelation { foster: f, target: b, relation: holds, value: 2 }.write(&mut world);
    assert_eq!(all_targets(&world, f), vec![(3, holds, b, 0)]);
    assert_eq!(all_fosters(&world, a), vec![]);
    assert_eq!(all_fosters(&world, b), vec![(holds, f)]);
    assert_eq!(world.payload(f, holds, b), Some(2));
    assert_eq!(world.storage_len(f, holds), 1);
    assert!(world.contains(a));
    check_invariants(&world, 3);
}

#[test]
fn set_exclusive_with_recursive_despawn_despawns_the_displaced() {
    let mut world = World::new();
    let holds = world.register(DespawnPolicy::RecursiveDespawn, true);
    let f = world.spawn();
    let a = world.spawn();
    let below = world.spawn();
    let b = world.spawn();
    SetRelation { foster: f, target: a, relation: holds, value: 1 }.write(&mut world);
    SetRelation { foster: a, target: below, relation: holds, value: 1 }.write(&mut world);
    SetRelation { foster: f, target: b, relation: holds, value: 2 }.write(&mut world);
    assert!(!world.contains(a) && !world.contains(below));
    assert!(world.contains(f) && world.contains(b));
    assert_eq!(all_targets(&world, f), vec![(0, holds, b, 0)]);
    check_invariants(&world, 4);
}

#[test]
fn set_allows_an_edge_to_oneself() {
    let mut world = World::new();
    let likes = world.register(DespawnPolicy::Orphan, false);
    let a = world.spawn();
    SetRelation { foster: a, target: a, relation: likes, value: 3 }.write(&mut world);
    assert_eq!(all_targets(&world, a), vec![(3, likes, a, 0)]);
    assert_eq!(all_fosters(&world, a), vec![(likes, a)]);
    UnSet { foster: a, target: a, relation: likes }.write(&mut world);
    assert!(all_targets(&world, a).is_empty());
    assert!(all_fosters(&world, a).is_empty());
}

#[test]
fn edges_live_in_the_bucket_of_their_policy() {
    let mut world = World::new();
    let r0 = world.register(DespawnPolicy::RecursiveDespawn, false);
    let r1 = world.register(DespawnPolicy::RecursiveDelink, false);
    let r2 = world.register(DespawnPolicy::Reparent, false);
    let r3 = world.register(DespawnPolicy::Orphan, false);
    let a = world.spawn();
    let b = world.spawn();
    for r in [r0, r1, r2, r3] {
        SetRelation { foster: a, target: b, relation: r, value: r }.write(&mut world);
    }
    assert_eq!(world.targets_in(a, DespawnPolicy::RecursiveDespawn), vec![((r0, b), 0)]);
    assert_eq!(world.targets_in(a, DespawnPolicy::RecursiveDelink), vec![((r1, b), 0)]);
    assert_eq!(world.targets_in(a, DespawnPolicy::Reparent), vec![((r2, b), 0)]);
    assert_eq!(world.targets_in(a, DespawnPolicy::Orphan), vec![((r3, b), 0)]);
    check_invariants(&world, 2);
}

#[test]
fn invariants_hold_after_every_command() {
    let mut world = World::new();
    let relations = [
        world.register(DespawnPolicy::Orphan, false),
        world.register(DespawnPolicy::Orphan, true),
        world.register(DespawnPolicy::Reparent, false),
        world.register(DespawnPolicy::RecursiveDelink, false),
    ];
    let count: u64 = 12;
    for _ in 0..count {
        world.spawn();
    }
    let mut state: u64 = 0x2545_f491_4f6c_dd1d;
    for step in 0..400 {
        state ^= state << 13;
        state ^= state >> 7;
        state ^= state << 17;
        let foster = state % count;
        let target = (state >> 8) % count;
        let relation = relations[((state >> 16) % 4) as usize];
        if (state >> 24) % 3 == 0 {
            UnSet { foster, target, relation }.write(&mut world);
            assert_eq!(world.slot_of(foster, relation, target), None);
        } else {
            SetRelation { foster, target, relation, value: step }.write(&mut world);
            assert_eq!(world.payload(foster, relation, target), Some(step));
        }
        check_invariants(&world, count);
        for e in 0..count {
            assert!(world.contains(e));
        }
    }
}

#[test]
fn max_slots_is_the_stated_bound() {
    assert_eq!(MAX_SLOTS, usize::MAX / 32);
}

#[test]
fn first_target_finds_an_edge_of_the_relation() {
    let mut world = World::new();
    let likes = world.register(DespawnPolicy::Orphan, false);
    let owns = world.register(DespawnPolicy::Orphan, false);
    let a = world.spawn();
    let b = world.spawn();
    assert_eq!(first_target(&world, a, likes), None);
    SetRelation { foster: a, target: b, relation: owns, value: 0 }.write(&mut world);
    assert_eq!(first_target(&world, a, likes), None);
    SetRelation { foster: a, target: b, relation: likes, value: 0 }.write(&mut world);
    assert_eq!(first_target(&world, a, likes), Some((b, 0)));
    assert_eq!(first_target(&world, a, 9), None);
}

#[test]
fn sole_foster_wants_exactly_one() {
    let mut world = World::new();
    let likes = world.register(DespawnPolicy::Orphan, false);
    let a = world.spawn();
    let b = world.spawn();
    let c = world.spawn();
    assert_eq!(sole_foster(&world, c, likes), None);
    SetRelation { foster: a, target: c, relation: likes, value: 0 }.write(&mut world);
    assert_eq!(sole_foster(&world, c, likes), Some(a));
    SetRelation { foster: b, target: c, relation: likes, value: 0 }.write(&mut world);
    assert_eq!(sole_foster(&world, c, likes), None);
}

#[test]
fn can_link_checks_liveness_slot_and_arity() {
    let mut world = World::new();
    let holds = world.register(DespawnPolicy::Orphan, true);
    let likes = world.register(DespawnPolicy::Orphan, false);
    let a = world.spawn();
    let b = world.spawn();
    let c = world.spawn();
    assert!(!can_link(&world, a, holds, b, 0));
    SetRelation { foster: a, target: b, relation: holds, value: 0 }.write(&mut world);
    SetRelation { foster: a, target: b, relation: likes, value: 0 }.write(&mut world);
    assert!(can_link(&world, a, holds, b, 0));
    assert!(!can_link(&world, a, holds, c, 0));
    assert!(can_link(&world, a, likes, c, 0));
    assert!(!can_link(&world, a, likes, c, 1));
    assert!(!can_link(&world, a, likes, 9, 0));
    assert!(!can_link(&world, 9, likes, c, 0));
    assert!(!can_link(&world, a, 9, c, 0));
}

#[test]
fn ascended_parents_climb_to_the_nearest_survivor() {
    let mut world = World::new();
    let child_of = world.register(DespawnPolicy::Reparent, false);
    let g = world.spawn();
    let p = world.spawn();
    let q = world.spawn();
    let c = world.spawn();
    SetRelation { foster: g, target: g, relation: child_of, value: 0 }.write(&mut world);
    UnSet { foster: g, target: g, relation: child_of }.write(&mut world);
    SetRelation { foster: g, target: p, relation: child_of, value: 0 }.write(&mut world);
    SetRelation { foster: p, target: q, relation: child_of, value: 0 }.write(&mut world);
    SetRelation { foster: q, target: c, relation: child_of, value: 0 }.write(&mut world);
    let mut memo = AscendedParents::new();
    assert!(!memo.contains(p, child_of));
    assert_eq!(memo.get_valid_parent(q, child_of), None);
    memo.ascend_parent(&world, q);
    assert!(memo.contains(q, child_of));
    assert_eq!(memo.get_valid_parent(q, child_of), Some((p, 0)));
    memo.ascend_parent(&world, p);
    assert_eq!(memo.get_valid_parent(q, child_of), Some((g, 1)));
    assert_eq!(memo.get_valid_parent(p, child_of), Some((g, 1)));
    memo.ascend_parent(&world, c);
    assert!(!memo.contains(c, child_of));
}

#[test]
fn ascended_parents_end_where_there_is_no_foster() {
    let mut world = World::new();
    let child_of = world.register(DespawnPolicy::Reparent, false);
    let p = world.spawn();
    let c = world.spawn();
    SetRelation { foster: p, target: c, relation: child_of, value: 0 }.write(&mut world);
    let mut memo = AscendedParents::new();
    memo.ascend_parent(&world, p);
    assert!(memo.contains(p, child_of));
    assert_eq!(memo.get_valid_parent(p, child_of), None);
}

#[test]
fn operations_apply_in_list_order() {
    let mut world = World::new();
    let likes = world.register(DespawnPolicy::Orphan, false);
    let a = world.spawn();
    let b = world.spawn();
    let c = world.spawn();
    SetRelation { foster: a, target: b, relation: likes, value: 0 }.write(&mut world);
    SetRelation { foster: b, target: c, relation: likes, value: 0 }.write(&mut world);
    let memo = AscendedParents::new();
    let operations = vec![
        Operation::Delink(a, likes, b),
        Operation::Reparent(c, likes),
        Operation::Despawn(c),
        Operation::Despawn(c),
    ];
    apply_operations(&mut world, &operations, &memo);
    assert!(world.contains(a) && world.contains(b) && !world.contains(c));
    assert!(all_targets(&world, a).is_empty());
    assert!(all_targets(&world, b).is_empty());
    assert!(all_fosters(&world, b).is_empty());
    Operation::Despawn(a).apply(&mut world, &memo);
    assert!(!world.contains(a));
}

#[test]
fn descend_despawn_collects_cuts_moves_and_despawns() {
    let mut world = World::new();
    let owns = world.register(DespawnPolicy::RecursiveDespawn, false);
    let chain = world.register(DespawnPolicy::RecursiveDelink, false);
    let child_of = world.register(DespawnPolicy::Reparent, false);
    let top = world.spawn();
    let root = world.spawn();
    let owned = world.spawn();
    let linked = world.spawn();
    let below = world.spawn();
    let kid = world.spawn();
    SetRelation { foster: top, target: root, relation: child_of, value: 0 }.write(&mut world);
    SetRelation { foster: root, target: owned, relation: owns, value: 0 }.write(&mut world);
    SetRelation { foster: root, target: linked, relation: chain, value: 0 }.write(&mut world);
    SetRelation { foster: linked, target: below, relation: chain, value: 0 }.write(&mut world);
    SetRelation { foster: owned, target: kid, relation: child_of, value: 0 }.write(&mut world);
    let mut operations = vec![Operation::Despawn(77)];
    let mut memo = AscendedParents::new();
    descend_despawn_relations(&world, &mut operations, &mut memo, root);
    assert_eq!(
        operations,
        vec![
            Operation::Despawn(77),
            Operation::Delink(top, child_of, root),
            Operation::Delink(linked, chain, below),
            Operation::Reparent(kid, child_of),
            Operation::Despawn(owned),
        ]
    );
    assert!(memo.contains(owned, child_of));
    assert!(!memo.contains(root, child_of));
}

#[test]
fn descend_delink_stops_at_staged_entities() {
    let mut world = World::new();
    let chain = world.register(DespawnPolicy::RecursiveDelink, false);
    let other = world.register(DespawnPolicy::RecursiveDelink, false);
    let a = world.spawn();
    let b = world.spawn();
    let c = world.spawn();
    SetRelation { foster: a, target: b, relation: chain, value: 0 }.write(&mut world);
    SetRelation { foster: b, target: c, relation: chain, value: 0 }.write(&mut world);
    SetRelation { foster: a, target: c, relation: other, value: 0 }.write(&mut world);
    let mut operations = Vec::new();
    let mut memo = AscendedParents::new();
    descend_despawn_relations(&world, &mut Vec::new(), &mut memo, 50);
    let nothing = entity_set_of(&Vec::new());
    descend_delink_relation(&world, &nothing, &mut operations, a, chain);
    assert_eq!(operations, vec![Operation::Delink(a, chain, b), Operation::Delink(b, chain, c)]);
}

#[test]
fn policy_apply_resolves_each_trigger() {
    let mut world = World::new();
    let child_of = world.register(DespawnPolicy::Reparent, false);
    let p = world.spawn();
    let c = world.spawn();
    SetRelation { foster: p, target: c, relation: child_of, value: 0 }.write(&mut world);
    DespawnPolicy::Reparent.apply(&mut world, Operation::Reparent(c, child_of));
    assert!(all_fosters(&world, c).is_empty());
    assert!(all_targets(&world, p).is_empty());
    SetRelation { foster: p, target: c, relation: child_of, value: 0 }.write(&mut world);
    DespawnPolicy::Orphan.apply(&mut world, Operation::Delink(p, child_of, c));
    assert_eq!(all_fosters(&world, c), vec![(child_of, p)]);
    DespawnPolicy::RecursiveDespawn.apply(&mut world, Operation::Despawn(p));
    assert!(world.contains(p));
    assert!(all_fosters(&world, c).is_empty());
}

#[test]
fn invariants_hold_through_cascades() {
    for seed in 1..=6u64 {
        let mut world = World::new();
        let relations = [
            world.register(DespawnPolicy::RecursiveDespawn, false),
            world.register(DespawnPolicy::RecursiveDespawn, true),
            world.register(DespawnPolicy::RecursiveDelink, false),
            world.register(DespawnPolicy::RecursiveDelink, true),
            world.register(DespawnPolicy::Reparent, false),
            world.register(DespawnPolicy::Reparent, true),
            world.register(DespawnPolicy::Orphan, false),
            world.register(DespawnPolicy::Orphan, true),
        ];
        let mut count: u64 = 0;
        let mut state: u64 = 0x9e37_79b9_7f4a_7c15 ^ (seed * 0x1000_0001);
        for step in 0..300 {
            state ^= state << 13;
            state ^= state >> 7;
            state ^= state << 17;
            if count < 10 || (state >> 40) % 7 == 0 {
                assert_eq!(world.spawn(), count);
                count += 1;
            }
            let foster = state % count;
            let target = (state >> 8) % count;
            let relation = relations[((state >> 16) % 8) as usize];
            let alive_before: Vec<bool> = (0..count).map(|e| world.contains(e)).collect();
            match (state >> 24) % 8 {
                0 => {
                    CheckeDespawn { entity: target }.write(&mut world);
                    assert!(!world.contains(target));
                },
                1 | 2 => {
                    UnSet { foster, target, relation }.write(&mut world);
                    assert_eq!(world.slot_of(foster, relation, target), None);
                },
                _ => {
                    SetRelation { foster, target, relation, value: step }.write(&mut world);
                },
            }
            check_invariants(&world, count);
            for e in 0..count {
                assert!(alive_before[e as usize] || !world.contains(e));
                if !world.contains(e) {
                    assert!(all_targets(&world, e).is_empty());
                    assert!(all_fosters(&world, e).is_empty());
                    assert_eq!(world.storage_len(e, relation), 0);
                }
            }
        }
    }
}

#[test]
fn reparent_without_an_ancestor_orphans_the_child() {
    let mut world = World::new();
    let child_of = world.register(DespawnPolicy::Reparent, false);
    let likes = world.register(DespawnPolicy::Orphan, false);
    let p = world.spawn();
    let c = world.spawn();
    SetRelation { foster: p, target: c, relation: child_of, value: 0 }.write(&mut world);
    SetRelation { foster: p, target: c, relation: likes, value: 0 }.write(&mut world);
    let memo = AscendedParents::new();
    Operation::Reparent(c, likes).apply(&mut world, &memo);
    assert_eq!(all_fosters(&world, c), vec![(child_of, p), (likes, p)]);
    Operation::Reparent(c, child_of).apply(&mut world, &memo);
    assert_eq!(all_fosters(&world, c), vec![(likes, p)]);
    assert_eq!(all_targets(&world, p), vec![(3, likes, c, 0)]);
    Operation::Reparent(99, child_of).apply(&mut world, &memo);
    check_invariants(&world, 2);
}

#[test]
fn reparent_through_the_memo_links_to_the_ancestor() {
    let mut world = World::new();
    let child_of = world.register(DespawnPolicy::Reparent, false);
    let g = world.spawn();
    let p = world.spawn();
    let c = world.spawn();
    SetRelation { foster: g, target: p, relation: child_of, value: 7 }.write(&mut world);
    SetRelation { foster: p, target: c, relation: child_of, value: 8 }.write(&mut world);
    let mut memo = AscendedParents::new();
    memo.ascend_parent(&world, p);
    Operation::Delink(g, child_of, p).apply(&mut world, &memo);
    Operation::Reparent(c, child_of).apply(&mut world, &memo);
    assert_eq!(all_fosters(&world, c), vec![(child_of, g)]);
    assert_eq!(all_targets(&world, g), vec![(2, child_of, c, 0)]);
    assert_eq!(world.payload(g, child_of, c), Some(7));
    assert!(all_targets(&world, p).is_empty());
}

#[test]
fn ascend_parent_writes_over_an_entry() {
    let mut world = World::new();
    let child_of = world.register(DespawnPolicy::Reparent, false);
    let g = world.spawn();
    let p = world.spawn();
    let c = world.spawn();
    SetRelation { foster: p, target: c, relation: child_of, value: 0 }.write(&mut world);
    let mut memo = AscendedParents::new();
    memo.ascend_parent(&world, p);
    assert_eq!(memo.get_valid_parent(p, child_of), None);
    SetRelation { foster: g, target: p, relation: child_of, value: 0 }.write(&mut world);
    memo.ascend_parent(&world, p);
    assert_eq!(memo.get_valid_parent(p, child_of), Some((g, 0)));
    memo.ascend_parent(&world, p);
    assert_eq!(memo.get_valid_parent(p, child_of), Some((g, 0)));
}

#[test]
fn descend_delink_lists_each_edge_once_from_the_top() {
    let mut world = World::new();
    let chain = world.register(DespawnPolicy::RecursiveDelink, false);
    let ids: Vec<Entity> = (0..6).map(|_| world.spawn()).collect();
    for (foster, target) in [(0, 1), (1, 2), (2, 3), (0, 4), (4, 3), (3, 5)] {
        SetRelation { foster: ids[foster], target: ids[target], relation: chain, value: 0 }
            .write(&mut world);
    }
    let mut operations = Vec::new();
    descend_delink_relation(&world, &entity_set_of(&Vec::new()), &mut operations, ids[0], chain);
    assert_eq!(operations.len(), 6);
    for (n, op) in operations.iter().enumerate() {
        assert!(!operations[..n].contains(op));
    }
    let place = |foster: usize, target: usize| {
        operations
            .iter()
            .position(|op| *op == Operation::Delink(ids[foster], chain, ids[target]))
            .expect("an edge was not delinked")
    };
    assert!(place(0, 1).max(place(0, 4)) < place(1, 2).min(place(4, 3)));
    assert!(place(1, 2).max(place(4, 3)) < place(2, 3).min(place(3, 5)));
}

#[test]
fn descend_despawn_lists_each_despawn_once_in_order() {
    let mut world = World::new();
    let owns = world.register(DespawnPolicy::RecursiveDespawn, false);
    let r = world.spawn();
    let b = world.spawn();
    let c = world.spawn();
    SetRelation { foster: r, target: b, relation: owns, value: 0 }.write(&mut world);
    SetRelation { foster: b, target: c, relation: owns, value: 0 }.write(&mut world);
    SetRelation { foster: c, target: r, relation: owns, value: 0 }.write(&mut world);
    SetRelation { foster: r, target: c, relation: owns, value: 0 }.write(&mut world);
    let mut operations = Vec::new();
    let mut memo = AscendedParents::new();
    descend_despawn_relations(&world, &mut operations, &mut memo, b);
    assert_eq!(operations, vec![Operation::Despawn(c), Operation::Despawn(r)]);
    assert!(!memo.contains(b, owns));
}

#[test]
fn a_storage_grows_past_a_few_slots() {
    let mut world = World::new();
    let likes = world.register(DespawnPolicy::Orphan, false);
    let a = world.spawn();
    let b = world.spawn();
    for n in 0..100u64 {
        SetRelation { foster: a, target: b, relation: likes, value: n }.write(&mut world);
        UnSet { foster: a, target: b, relation: likes }.write(&mut world);
    }
    SetRelation { foster: a, target: b, relation: likes, value: 5 }.write(&mut world);
    assert_eq!(world.storage_len(a, likes), 101);
    assert_eq!(world.slot_of(a, likes, b), Some(100));
    assert_eq!(world.payload(a, likes, b), Some(5));
    assert!(MAX_SLOTS > 1 << 26);
}

//! The cascade resolver: given a removal, collect what follows from it
//! without touching the graph, then apply what was collected in order.

use crate::cascade::{
    climbable, despawns_after_first, flat, follows, lemma_contains_add, lemma_contains_push, lemma_follows, valid_parent,
    Memo, Operation,
};
use crate::collections::{
    ancestor_entries, ancestor_map_get, ancestor_map_insert, ancestor_map_new, entity_set_insert,
    entity_set_members, entity_set_new, entity_set_contains, AncestorMap, Entity, EntitySet,
    RelationId,
};
use crate::graph::DespawnPolicy;
use crate::walk::breadth_first_walk;
use crate::world::World;
use vstd::prelude::*;

verus! {

/// The foster of `child` for `relation`, where it has exactly one.
pub fn sole_foster(world: &World, child: Entity, relation: RelationId) -> (foster: Option<Entity>)
    requires
        world.wf(),
    ensures
        foster == world@.sole_foster(child, relation),
{
    let items = world.fosters_of(child);
    let mut found: Option<Entity> = None;
    let mut many = false;
    let ghost mut at: int = -1;
    let mut i: usize = 0;
    while i < items.len()
        invariant
            i <= items.len(),
            found is None ==> !many && forall|j: int| 0 <= j < i ==> (#[trigger] items[j]).0 != relation,
            found is Some ==> 0 <= at < i && items[at] == (relation, found->0),
            found is Some && !many ==> forall|j: int|
                0 <= j < i && (#[trigger] items[j]).0 == relation ==> j == at,
            many ==> exists|j: int|
                0 <= j < i && j != at && (#[trigger] items[j]).0 == relation,
        decreases items.len() - i,
    {
        let (r, f) = items[i];
        if r == relation {
            if found.is_some() {
                many = true;
            } else {
                found = Some(f);
                proof {
                    at = i as int;
                }
            }
        }
        i += 1;
    }
    let ghost g = world@;
    if many {
        proof {
            let j = choose|j: int| 0 <= j < items.len() && j != at && (#[trigger] items[j]).0 == relation;
            assert(items[j] != items[at]);
            assert(g.edge(items[j].1, relation, child));
            assert(g.edge(items[at].1, relation, child));
            assert(items[j].1 != items[at].1);
            assert forall|p: Entity| !g.is_sole_foster(child, relation, p) by {}
        }
        None
    } else {
        match found {
            Some(f) => {
                proof {
                    assert forall|f2: Entity| #[trigger] g.edge(f2, relation, child) implies f2
                        == f by {
                        let j = choose|j: int|
                            0 <= j < items.len() && #[trigger] items[j] == (relation, f2);
                        assert(items[j].0 == relation);
                    }
                    assert(g.edge(items[at].1, items[at].0, child));
                    assert(g.is_sole_foster(child, relation, f));
                    let p = choose|p: Entity| g.is_sole_foster(child, relation, p);
                    assert(g.edge(f, relation, child));
                }
                Some(f)
            },
            None => {
                proof {
                    assert forall|p: Entity| !g.is_sole_foster(child, relation, p) by {
                        if g.edge(p, relation, child) {
                            let j = choose|j: int|
                                0 <= j < items.len() && #[trigger] items[j] == (relation, p);
                            assert(items[j].0 == relation);
                        }
                    }
                }
                None
            },
        }
    }
}

/// Whether a new edge `foster -> target` of type `relation` under `slot`
/// would keep the store valid.
pub fn can_link(world: &World, foster: Entity, relation: RelationId, target: Entity, slot: usize) -> (ok:
    bool)
    requires
        world.wf(),
    ensures
        ok == world@.can_link(foster, relation, target, slot),
{
    let info = match world.relation_info(relation) {
        Some(info) => info,
        None => {
            return false;
        },
    };
    if !world.contains(foster) || !world.contains(target) || slot >= world.storage_len(
        foster,
        relation,
    ) {
        return false;
    }
    if !info.exclusive {
        return true;
    }
    let ghost g = world@;
    let items = world.targets_in(foster, info.policy);
    let mut i: usize = 0;
    while i < items.len()
        invariant
            i <= items.len(),
            forall|j: int|
                0 <= j < items.len() ==> g.edge(foster, (#[trigger] items[j]).0.0, items[j].0.1),
            g == world@,
            g.exclusive(relation),
            g.live.contains(foster),
            g.live.contains(target),
            g.kinds.contains_key(relation),
            slot < g.storage[(foster, relation)].len(),
            forall|j: int|
                0 <= j < i && (#[trigger] items[j]).0.0 == relation ==> items[j].0.1 == target,
        decreases items.len() - i,
    {
        let ((r, t), _slot) = items[i];
        if r == relation && t != target {
            proof {
                assert(g.edge(foster, items[i as int].0.0, items[i as int].0.1));
            }
            return false;
        }
        i += 1;
    }
    proof {
        assert forall|t: Entity| #[trigger] g.edge(foster, relation, t) implies t == target by {
            let j = choose|j: int| 0 <= j < items.len() && (#[trigger] items[j]).0 == (relation, t);
            assert(items[j].0.0 == relation);
        }
    }
    true
}

/// The memo of the ancestor search of one cascade: for the entities that
/// are about to disappear, where a target of theirs can climb to.
pub struct AscendedParents {
    parents: AncestorMap,
    /// One more than the number of entries, as far as a `usize` counts.
    steps: usize,
}

impl View for AscendedParents {
    type V = Memo;

    closed spec fn view(&self) -> Memo {
        ancestor_entries(self.parents)
    }
}

impl AscendedParents {
    /// The number of steps that a climb through this memo may take.
    pub closed spec fn fuel(&self) -> nat {
        self.steps as nat
    }

    /// A memo without entries.
    pub fn new() -> (memo: AscendedParents)
        ensures
            memo@ == Map::<(Entity, RelationId), Option<(Entity, usize)>>::empty(),
            memo.fuel() == 1,
            climbable(memo@, memo.fuel()),
    {
        AscendedParents { parents: ancestor_map_new(), steps: 1 }
    }

    /// Whether the memo has an entry for `entity` and `relation`.
    pub fn contains(&self, entity: Entity, relation: RelationId) -> (found: bool)
        ensures
            found == self@.contains_key((entity, relation)),
    {
        ancestor_map_get(&self.parents, (entity, relation)).is_some()
    }

    /// Records, for each relation type under which `entity` has targets to
    /// be reparented, where those targets can climb to from `entity`, in
    /// place of what the memo held for `entity` and that relation type.
    pub fn ascend_parent(&mut self, world: &World, entity: Entity)
        requires
            world.wf(),
        ensures
            final(self)@ == world@.ascend(old(self)@, entity),
            climbable(old(self)@, old(self).fuel()) ==> climbable(final(self)@, final(self).fuel()),
    {
        let ghost g = world@;
        let ghost memo = self@;
        let items = world.targets_in(entity, DespawnPolicy::Reparent);
        let mut i: usize = 0;
        while i < items.len()
            invariant
                i <= items.len(),
                world.wf(),
                g == world@,
                memo == old(self)@,
                climbable(memo, old(self).fuel()) ==> climbable(self@, self.fuel()),
                forall|j: int|
                    0 <= j < items.len() ==> g.edge(entity, (#[trigger] items[j]).0.0, items[j].0.1)
                        && g.policy(items[j].0.0) == DespawnPolicy::Reparent,
                self@ == Map::new(
                    |k: (Entity, RelationId)|
                        memo.contains_key(k) || (k.0 == entity && exists|j: int|
                            0 <= j < i && (#[trigger] items[j]).0.0 == k.1),
                    |k: (Entity, RelationId)|
                        if k.0 == entity && exists|j: int|
                            0 <= j < i && (#[trigger] items[j]).0.0 == k.1 {
                            g.ascent(memo, entity, k.1)
                        } else {
                            memo[k]
                        },
                ),
            decreases items.len() - i,
        {
            let ((r, _t), _slot) = items[i];
            let ghost before = self@;
            let had = ancestor_map_get(&self.parents, (entity, r)).is_some();
            let entry = match sole_foster(world, entity, r) {
                Some(p) => match ancestor_map_get(&self.parents, (p, r)) {
                    Some(known) => known,
                    None => {
                        proof {
                            assert(g.is_sole_foster(entity, r, p));
                        }
                        match world.slot_of(p, r, entity) {
                            Some(slot) => Some((p, slot)),
                            None => None,
                        }
                    },
                },
                None => None,
            };
            proof {
                assert(entry == g.ascent(memo, entity, r)) by {
                    match g.sole_foster(entity, r) {
                        Some(p) => {
                            assert(g.is_sole_foster(entity, r, p));
                            let k = (p, r);
                            if p == entity {
                                if exists|j: int| 0 <= j < i && (#[trigger] items[j]).0.0 == r {
                                    assert(before.contains_key(k));
                                    assert(before[k] == g.ascent(memo, entity, r));
                                } else {
                                    assert(before.contains_key(k) == memo.contains_key(k));
                                    if memo.contains_key(k) {
                                        assert(before[k] == memo[k]);
                                    }
                                }
                            } else {
                                assert(before.contains_key(k) == memo.contains_key(k));
                                if memo.contains_key(k) {
                                    assert(before[k] == memo[k]);
                                }
                            }
                        },
                        None => {},
                    }
                }
            }
            ancestor_map_insert(&mut self.parents, (entity, r), entry);
            if !had && self.steps < usize::MAX {
                self.steps = self.steps + 1;
            }
            proof {
                if had {
                    assert(self@.dom() =~= before.dom());
                }
                let next = Map::new(
                    |k: (Entity, RelationId)|
                        memo.contains_key(k) || (k.0 == entity && exists|j: int|
                            0 <= j < i + 1 && (#[trigger] items[j]).0.0 == k.1),
                    |k: (Entity, RelationId)|
                        if k.0 == entity && exists|j: int|
                            0 <= j < i + 1 && (#[trigger] items[j]).0.0 == k.1 {
                            g.ascent(memo, entity, k.1)
                        } else {
                            memo[k]
                        },
                );
                assert(items[i as int].0.0 == r);
                assert forall|k: (Entity, RelationId)| self@.contains_key(k) == next.contains_key(
                    k,
                ) by {
                    if k.0 == entity && !memo.contains_key(k) && k.1 != r {
                        if next.contains_key(k) {
                            let j = choose|j: int| 0 <= j < i + 1 && (#[trigger] items[j]).0.0 == k.1;
                            assert(j < i);
                            assert(before.contains_key(k));
                        }
                    }
                }
                assert forall|k: (Entity, RelationId)| self@.contains_key(k) implies self@[k]
                    == next[k] by {
                    if k == (entity, r) {
                    } else {
                        assert(self@[k] == before[k]);
                        if k.0 == entity {
                            if exists|j: int| 0 <= j < i + 1 && (#[trigger] items[j]).0.0 == k.1 {
                                let j = choose|j: int|
                                    0 <= j < i + 1 && (#[trigger] items[j]).0.0 == k.1;
                                assert(j < i);
                            }
                        }
                    }
                }
                assert(self@ =~= next);
            }
            i += 1;
        }
        proof {
            let done = g.ascend(memo, entity);
            assert forall|k: (Entity, RelationId)| self@.contains_key(k) == done.contains_key(k) by {
                if k.0 == entity && g.has_target_under(entity, k.1, DespawnPolicy::Reparent) {
                    let t = choose|t: Entity| g.edge(entity, k.1, t);
                    let j = choose|j: int|
                        0 <= j < items.len() && (#[trigger] items[j]).0 == (k.1, t);
                    assert(items[j].0.0 == k.1);
                }
            }
            assert(self@ =~= done);
        }
    }

    /// The nearest ancestor of `entity` along `relation` that is not about
    /// to disappear, with the slot of the edge that leads down from it.
    pub fn get_valid_parent(&self, entity: Entity, relation: RelationId) -> (parent: Option<
        (Entity, usize),
    >)
        ensures
            parent == valid_parent(self@, entity, relation, None, self.fuel()),
    {
        let mut closest: Option<(Entity, usize)> = None;
        let mut current = entity;
        let mut fuel = self.steps;
        while fuel > 0
            invariant
                valid_parent(self@, entity, relation, None, self.fuel()) == valid_parent(
                    self@,
                    current,
                    relation,
                    closest,
                    fuel as nat,
                ),
            decreases fuel,
        {
            match ancestor_map_get(&self.parents, (current, relation)) {
                None => {
                    return closest;
                },
                Some(None) => {
                    return None;
                },
                Some(Some(up)) => {
                    closest = Some(up);
                    current = up.0;
                    fuel = fuel - 1;
                },
            }
        }
        None
    }
}

impl Operation {
    /// Carries out one operation of a cascade.
    pub fn apply(&self, world: &mut World, ascended_parents: &AscendedParents)
        requires
            old(world).wf(),
        ensures
            final(world).wf(),
            final(world)@ == old(world)@.apply(ascended_parents@, ascended_parents.fuel(), *self),
    {
        match *self {
            Operation::Despawn(entity) => {
                world.despawn(entity);
            },
            Operation::Delink(parent, relation, child) => {
                world.unlink(parent, relation, child);
            },
            Operation::Reparent(child, relation) => {
                let reparents = match world.relation_info(relation) {
                    Some(info) => info.policy == DespawnPolicy::Reparent,
                    None => false,
                };
                if reparents {
                    match sole_foster(world, child, relation) {
                        Some(parent) => {
                            world.unlink(parent, relation, child);
                            match ascended_parents.get_valid_parent(parent, relation) {
                                Some(up) => {
                                    if can_link(world, up.0, relation, child, up.1) {
                                        world.link(up.0, relation, child, up.1);
                                    }
                                },
                                None => {},
                            }
                        },
                        None => {},
                    }
                }
            },
        }
    }
}

/// Carries out the operations of a cascade, first to last.
pub fn apply_operations(
    world: &mut World,
    operations: &Vec<Operation>,
    ascended_parents: &AscendedParents,
)
    requires
        old(world).wf(),
    ensures
        final(world).wf(),
        final(world)@ == old(world)@.apply_all(
            ascended_parents@,
            ascended_parents.fuel(),
            operations@,
        ),
{
    let ghost g = world@;
    let mut i: usize = 0;
    while i < operations.len()
        invariant
            i <= operations.len(),
            world.wf(),
            world@ == g.apply_all(
                ascended_parents@,
                ascended_parents.fuel(),
                operations@.subrange(0, i as int),
            ),
        decreases operations.len() - i,
    {
        operations[i].apply(world, ascended_parents);
        proof {
            let next = operations@.subrange(0, i + 1);
            assert(next.drop_last() =~= operations@.subrange(0, i as int));
            assert(next.last() == operations@[i as int]);
        }
        i += 1;
    }
    proof {
        assert(operations@.subrange(0, operations.len() as int) =~= operations@);
    }
}

/// A sequence without repetition stays so when an item is appended that it
/// does not hold.
proof fn lemma_push_distinct(s: Seq<Operation>, x: Operation)
    requires
        s.no_duplicates(),
        forall|n: int| 0 <= n < s.len() ==> #[trigger] s[n] != x,
    ensures
        s.push(x).no_duplicates(),
{
}

/// The delinks that follow when `root` loses a foster of type `relation`, a
/// relation type of policy `RecursiveDelink`: one for every edge of that type
/// that leaves `root` or an entity reached from it over such edges, those
/// of an entity that the walk enters earlier first.
fn delinks_below(world: &World, blocked: &EntitySet, root: Entity, relation: RelationId) -> (found:
    Vec<Operation>)
    requires
        world.wf(),
    ensures
        world@.delink_list(entity_set_members(*blocked), root, relation, found@),
{
    let ghost g = world@;
    let ghost closed_off = entity_set_members(*blocked);
    let mut found: Vec<Operation> = Vec::new();
    let ghost mut at: Seq<int> = Seq::empty();
    let visited = breadth_first_walk(
        world,
        root,
        DespawnPolicy::RecursiveDelink,
        Some(relation),
        blocked,
    );
    let mut v: usize = 0;
    while v < visited.len()
        invariant
            v <= visited.len(),
            world.wf(),
            g == world@,
            closed_off == entity_set_members(*blocked),
            visited@.no_duplicates(),
            forall|e: Entity| visited@.contains(e) <==> g.delink_reaches(closed_off, root, relation, e),
            at.len() == found.len(),
            found@.no_duplicates(),
            forall|n: int|
                0 <= n < found.len() ==> 0 <= #[trigger] at[n] < v && visited@[at[n]]
                    == found@[n].origin() && g.is_delink_below(closed_off, root, relation, found@[n]),
            forall|n: int, m: int| 0 <= n < m < at.len() ==> at[n] <= at[m],
            forall|k: int, c: Entity|
                0 <= k < v && #[trigger] g.step_over(
                    DespawnPolicy::RecursiveDelink,
                    Some(relation),
                    visited@[k],
                    relation,
                    c,
                ) ==> found@.contains(Operation::Delink(visited@[k], relation, c)),
        decreases visited.len() - v,
    {
        let e = visited[v];
        proof {
            assert(visited@.contains(visited@[v as int]));
        }
        let items = world.targets_in(e, DespawnPolicy::RecursiveDelink);
        let mut i: usize = 0;
        while i < items.len()
            invariant
                i <= items.len(),
                v < visited.len(),
                e == visited@[v as int],
                visited@.no_duplicates(),
                g.delink_reaches(closed_off, root, relation, e),
                forall|j: int|
                    0 <= j < items.len() ==> {
                        &&& g.edge(e, (#[trigger] items[j]).0.0, items[j].0.1)
                        &&& g.policy(items[j].0.0) == DespawnPolicy::RecursiveDelink
                    },
                forall|j: int, k: int|
                    0 <= j < k < items.len() ==> (#[trigger] items[j]).0 != (#[trigger] items[k]).0,
                at.len() == found.len(),
                found@.no_duplicates(),
                forall|n: int|
                    0 <= n < found.len() ==> 0 <= #[trigger] at[n] <= v && visited@[at[n]]
                        == found@[n].origin() && g.is_delink_below(
                        closed_off,
                        root,
                        relation,
                        found@[n],
                    ),
                forall|n: int|
                    0 <= n < found.len() && #[trigger] at[n] == v ==> exists|j: int|
                        0 <= j < i && (#[trigger] items[j]).0 == (relation, found@[n].aim()),
                forall|n: int, m: int| 0 <= n < m < at.len() ==> at[n] <= at[m],
                forall|k: int, c: Entity|
                    0 <= k < v && #[trigger] g.step_over(
                        DespawnPolicy::RecursiveDelink,
                        Some(relation),
                        visited@[k],
                        relation,
                        c,
                    ) ==> found@.contains(Operation::Delink(visited@[k], relation, c)),
                forall|j: int|
                    0 <= j < i && (#[trigger] items[j]).0.0 == relation ==> found@.contains(
                        Operation::Delink(e, relation, items[j].0.1),
                    ),
            decreases items.len() - i,
        {
            let ((r, t), _slot) = items[i];
            if r == relation {
                let ghost before = found@;
                let ghost at_before = at;
                let ghost op = Operation::Delink(e, relation, t);
                proof {
                    lemma_contains_push(before, op);
                    assert(g.edge(e, items[i as int].0.0, items[i as int].0.1));
                    assert forall|n: int| 0 <= n < before.len() implies #[trigger] before[n]
                        != op by {
                        if at_before[n] == v {
                            let j = choose|j: int|
                                0 <= j < i && (#[trigger] items[j]).0 == (relation, before[n].aim());
                            assert(items[j].0 != items[i as int].0);
                        } else {
                            assert(visited@[at_before[n]] != visited@[v as int]);
                        }
                    }
                    lemma_push_distinct(before, op);
                    at = at_before.push(v as int);
                }
                found.push(Operation::Delink(e, relation, t));
                proof {
                    assert forall|n: int| 0 <= n < found.len() && #[trigger] at[n]
                        == v implies exists|j: int|
                        0 <= j < i + 1 && (#[trigger] items[j]).0 == (relation, found@[n].aim()) by {
                        if n < before.len() {
                            assert(at_before[n] == v);
                            let j = choose|j: int|
                                0 <= j < i && (#[trigger] items[j]).0 == (relation, before[n].aim());
                            assert(items[j].0 == (relation, found@[n].aim()));
                        } else {
                            assert(items[i as int].0 == (relation, found@[n].aim()));
                        }
                    }
                }
            } else {
                proof {
                    assert forall|n: int| 0 <= n < found.len() && #[trigger] at[n]
                        == v implies exists|j: int|
                        0 <= j < i + 1 && (#[trigger] items[j]).0 == (relation, found@[n].aim()) by {
                        let j = choose|j: int|
                            0 <= j < i && (#[trigger] items[j]).0 == (relation, found@[n].aim());
                        assert(items[j].0 == (relation, found@[n].aim()));
                    }
                }
            }
            i += 1;
        }
        proof {
            assert forall|k: int, c: Entity|
                0 <= k < v + 1 && #[trigger] g.step_over(
                    DespawnPolicy::RecursiveDelink,
                    Some(relation),
                    visited@[k],
                    relation,
                    c,
                ) implies found@.contains(Operation::Delink(visited@[k], relation, c)) by {
                if k == v {
                    let j = choose|j: int|
                        0 <= j < items.len() && (#[trigger] items[j]).0 == (relation, c);
                    assert(items[j].0.0 == relation && items[j].0.1 == c);
                }
            }
        }
        v += 1;
    }
    proof {
        assert forall|op: Operation| #[trigger]
            found@.contains(op) <==> g.is_delink_below(closed_off, root, relation, op) by {
            if found@.contains(op) {
                let n = choose|n: int| 0 <= n < found@.len() && found@[n] == op;
                assert(0 <= at[n]);
            }
            if g.is_delink_below(closed_off, root, relation, op) {
                match op {
                    Operation::Delink(e, r, c) => {
                        assert(visited@.contains(e));
                        let k = choose|k: int| 0 <= k < visited@.len() && visited@[k] == e;
                        assert(g.step_over(
                            DespawnPolicy::RecursiveDelink,
                            Some(relation),
                            visited@[k],
                            relation,
                            c,
                        ));
                    },
                    _ => {},
                }
            }
        }
        lemma_follows(visited@, Seq::new(found@.len(), |i: int| found@[i].origin()), at);
        assert(g.delinks_in_order(closed_off, root, relation, visited@, found@));
    }
    found
}

/// Collects the delinks that follow when `root` loses a foster of type
/// `relation`, a relation type of policy `RecursiveDelink`: one for every
/// edge of that type that leaves `root` or an entity reached from it over
/// such edges, those of an entity before those of the entities below it.
/// Entities staged for despawn are not entered.
pub fn descend_delink_relation(
    world: &World,
    staged_for_despawn: &EntitySet,
    operations: &mut Vec<Operation>,
    root: Entity,
    relation: RelationId,
)
    requires
        world.wf(),
    ensures
        exists|found: Seq<Operation>|
            {
                &&& final(operations)@ == old(operations)@ + found
                &&& #[trigger] world@.delink_list(
                    entity_set_members(*staged_for_despawn),
                    root,
                    relation,
                    found,
                )
            },
{
    let mut found = delinks_below(world, staged_for_despawn, root, relation);
    let ghost listed = found@;
    operations.append(&mut found);
    proof {
        assert(operations@ == old(operations)@ + listed);
    }
}

/// The set of the entities in `items`.
pub fn entity_set_of(items: &Vec<Entity>) -> (set: EntitySet)
    ensures
        forall|e: Entity| entity_set_members(set).contains(e) <==> items@.contains(e),
{
    let mut set = entity_set_new();
    let mut i: usize = 0;
    while i < items.len()
        invariant
            i <= items.len(),
            forall|e: Entity|
                entity_set_members(set).contains(e) <==> exists|j: int|
                    0 <= j < i && items@[j] == e,
        decreases items.len() - i,
    {
        entity_set_insert(&mut set, items[i]);
        i += 1;
    }
    set
}

/// The delinks that tell the surviving fosters of the staged entities that
/// their edges are gone: one for each such edge, those to an entity staged
/// earlier first.
fn foster_cuts(world: &World, staged: &Vec<Entity>, staged_set: &EntitySet) -> (found: Vec<
    Operation,
>)
    requires
        world.wf(),
        staged@.no_duplicates(),
        forall|e: Entity| staged@.contains(e) <==> entity_set_members(*staged_set).contains(e),
    ensures
        forall|op: Operation| #[trigger]
            found@.contains(op) <==> world@.is_foster_cut(entity_set_members(*staged_set), op),
        found@.no_duplicates(),
        follows(staged@, Seq::new(found@.len(), |i: int| found@[i].aim())),
{
    let ghost g = world@;
    let ghost doomed = entity_set_members(*staged_set);
    let mut found: Vec<Operation> = Vec::new();
    let ghost mut at: Seq<int> = Seq::empty();
    let mut v: usize = 0;
    while v < staged.len()
        invariant
            v <= staged.len(),
            world.wf(),
            g == world@,
            doomed == entity_set_members(*staged_set),
            staged@.no_duplicates(),
            forall|e: Entity| staged@.contains(e) <==> doomed.contains(e),
            at.len() == found.len(),
            found@.no_duplicates(),
            forall|n: int|
                0 <= n < found.len() ==> 0 <= #[trigger] at[n] < v && staged@[at[n]]
                    == found@[n].aim() && g.is_foster_cut(doomed, found@[n]),
            forall|n: int, m: int| 0 <= n < m < at.len() ==> at[n] <= at[m],
            forall|k: int, r: RelationId, f: Entity|
                0 <= k < v && !doomed.contains(f) && #[trigger] g.edge(f, r, staged@[k])
                    ==> found@.contains(Operation::Delink(f, r, staged@[k])),
        decreases staged.len() - v,
    {
        let s = staged[v];
        proof {
            assert(staged@.contains(staged@[v as int]));
        }
        let items = world.fosters_of(s);
        let mut i: usize = 0;
        while i < items.len()
            invariant
                i <= items.len(),
                v < staged.len(),
                s == staged@[v as int],
                staged@.no_duplicates(),
                doomed.contains(s),
                doomed == entity_set_members(*staged_set),
                forall|j: int| 0 <= j < items.len() ==> g.edge((#[trigger] items[j]).1, items[j].0, s),
                forall|j: int, k: int|
                    0 <= j < k < items.len() ==> #[trigger] items[j] != #[trigger] items[k],
                at.len() == found.len(),
                found@.no_duplicates(),
                forall|n: int|
                    0 <= n < found.len() ==> 0 <= #[trigger] at[n] <= v && staged@[at[n]]
                        == found@[n].aim() && g.is_foster_cut(doomed, found@[n]),
                forall|n: int|
                    0 <= n < found.len() && #[trigger] at[n] == v ==> exists|j: int|
                        0 <= j < i && found@[n] == Operation::Delink(
                            (#[trigger] items[j]).1,
                            items[j].0,
                            s,
                        ),
                forall|n: int, m: int| 0 <= n < m < at.len() ==> at[n] <= at[m],
                forall|k: int, r: RelationId, f: Entity|
                    0 <= k < v && !doomed.contains(f) && #[trigger] g.edge(f, r, staged@[k])
                        ==> found@.contains(Operation::Delink(f, r, staged@[k])),
                forall|j: int|
                    0 <= j < i && !doomed.contains((#[trigger] items[j]).1) ==> found@.contains(
                        Operation::Delink(items[j].1, items[j].0, s),
                    ),
            decreases items.len() - i,
        {
            let (r, f) = items[i];
            if !entity_set_contains(staged_set, f) {
                let ghost before = found@;
                let ghost at_before = at;
                let ghost op = Operation::Delink(f, r, s);
                proof {
                    lemma_contains_push(before, op);
                    assert(g.edge(items[i as int].1, items[i as int].0, s));
                    assert forall|n: int| 0 <= n < before.len() implies #[trigger] before[n]
                        != op by {
                        if at_before[n] == v {
                            let j = choose|j: int|
                                0 <= j < i && before[n] == Operation::Delink(
                                    (#[trigger] items[j]).1,
                                    items[j].0,
                                    s,
                                );
                            assert(items[j] != items[i as int]);
                        } else {
                            assert(staged@[at_before[n]] != staged@[v as int]);
                        }
                    }
                    lemma_push_distinct(before, op);
                    at = at_before.push(v as int);
                }
                found.push(Operation::Delink(f, r, s));
                proof {
                    assert forall|n: int| 0 <= n < found.len() && #[trigger] at[n]
                        == v implies exists|j: int|
                        0 <= j < i + 1 && found@[n] == Operation::Delink(
                            (#[trigger] items[j]).1,
                            items[j].0,
                            s,
                        ) by {
                        if n < before.len() {
                            assert(at_before[n] == v);
                            let j = choose|j: int|
                                0 <= j < i && before[n] == Operation::Delink(
                                    (#[trigger] items[j]).1,
                                    items[j].0,
                                    s,
                                );
                            assert(found@[n] == Operation::Delink(items[j].1, items[j].0, s));
                        } else {
                            assert(found@[n] == Operation::Delink(
                                items[i as int].1,
                                items[i as int].0,
                                s,
                            ));
                        }
                    }
                }
            } else {
                proof {
                    assert forall|n: int| 0 <= n < found.len() && #[trigger] at[n]
                        == v implies exists|j: int|
                        0 <= j < i + 1 && found@[n] == Operation::Delink(
                            (#[trigger] items[j]).1,
                            items[j].0,
                            s,
                        ) by {
                        let j = choose|j: int|
                            0 <= j < i && found@[n] == Operation::Delink(
                                (#[trigger] items[j]).1,
                                items[j].0,
                                s,
                            );
                        assert(found@[n] == Operation::Delink(items[j].1, items[j].0, s));
                    }
                }
            }
            i += 1;
        }
        proof {
            assert forall|k: int, r: RelationId, f: Entity|
                0 <= k < v + 1 && !doomed.contains(f) && #[trigger] g.edge(
                    f,
                    r,
                    staged@[k],
                ) implies found@.contains(Operation::Delink(f, r, staged@[k])) by {
                if k == v {
                    let j = choose|j: int| 0 <= j < items.len() && #[trigger] items[j] == (r, f);
                    assert(items[j].1 == f && items[j].0 == r);
                }
            }
        }
        v += 1;
    }
    proof {
        assert forall|op: Operation| #[trigger]
            found@.contains(op) <==> g.is_foster_cut(doomed, op) by {
            if found@.contains(op) {
                let n = choose|n: int| 0 <= n < found@.len() && found@[n] == op;
                assert(0 <= at[n]);
            }
            if g.is_foster_cut(doomed, op) {
                match op {
                    Operation::Delink(f, r, s) => {
                        assert(staged@.contains(s));
                        let k = choose|k: int| 0 <= k < staged@.len() && staged@[k] == s;
                        assert(g.edge(f, r, staged@[k]));
                    },
                    _ => {},
                }
            }
        }
        lemma_follows(staged@, Seq::new(found@.len(), |i: int| found@[i].aim()), at);
    }
    found
}

/// The lists and their edges that `downstream_cuts` hands back beside the
/// delinks.
struct Downstream {
    found: Vec<Operation>,
    sites: Ghost<Seq<(Entity, RelationId, Entity)>>,
    blocks: Ghost<Seq<Seq<Operation>>>,
}

/// The delinks below the surviving targets that the staged entities have
/// along relation types of the policy `RecursiveDelink`: one list for each
/// edge to such a target, those of an entity staged earlier first.
fn downstream_cuts(world: &World, staged: &Vec<Entity>, staged_set: &EntitySet) -> (out: Downstream)
    requires
        world.wf(),
        staged@.no_duplicates(),
        forall|e: Entity| staged@.contains(e) <==> entity_set_members(*staged_set).contains(e),
    ensures
        forall|op: Operation| #[trigger]
            out.found@.contains(op) <==> world@.is_downstream_cut(
                entity_set_members(*staged_set),
                op,
            ),
        out.sites@.no_duplicates(),
        forall|site: (Entity, RelationId, Entity)| #[trigger]
            out.sites@.contains(site) <==> entity_set_members(*staged_set).contains(site.0)
                && !entity_set_members(*staged_set).contains(site.2) && world@.step_over(
                DespawnPolicy::RecursiveDelink,
                None,
                site.0,
                site.1,
                site.2,
            ),
        follows(staged@, Seq::new(out.sites@.len(), |i: int| out.sites@[i].0)),
        out.blocks@.len() == out.sites@.len(),
        forall|i: int|
            0 <= i < out.sites@.len() ==> world@.delink_list(
                entity_set_members(*staged_set),
                out.sites@[i].2,
                out.sites@[i].1,
                #[trigger] out.blocks@[i],
            ),
        out.found@ == flat(out.blocks@),
{
    let ghost g = world@;
    let ghost doomed = entity_set_members(*staged_set);
    let mut found: Vec<Operation> = Vec::new();
    let ghost mut at: Seq<int> = Seq::empty();
    let ghost mut sites: Seq<(Entity, RelationId, Entity)> = Seq::empty();
    let ghost mut blocks: Seq<Seq<Operation>> = Seq::empty();
    let mut v: usize = 0;
    while v < staged.len()
        invariant
            v <= staged.len(),
            world.wf(),
            g == world@,
            doomed == entity_set_members(*staged_set),
            staged@.no_duplicates(),
            forall|e: Entity| staged@.contains(e) <==> doomed.contains(e),
            at.len() == sites.len(),
            blocks.len() == sites.len(),
            sites.no_duplicates(),
            found@ == flat(blocks),
            forall|n: int|
                0 <= n < sites.len() ==> 0 <= #[trigger] at[n] < v && staged@[at[n]] == sites[n].0
                    && !doomed.contains(sites[n].2) && g.step_over(
                    DespawnPolicy::RecursiveDelink,
                    None,
                    sites[n].0,
                    sites[n].1,
                    sites[n].2,
                ),
            forall|n: int|
                0 <= n < sites.len() ==> g.delink_list(
                    doomed,
                    sites[n].2,
                    sites[n].1,
                    #[trigger] blocks[n],
                ),
            forall|n: int, m: int| 0 <= n < m < at.len() ==> at[n] <= at[m],
            forall|op: Operation| #[trigger] found@.contains(op) ==> g.is_downstream_cut(doomed, op),
            forall|k: int, r: RelationId, c: Entity|
                0 <= k < v && !doomed.contains(c) && #[trigger] g.step_over(
                    DespawnPolicy::RecursiveDelink,
                    None,
                    staged@[k],
                    r,
                    c,
                ) ==> sites.contains((staged@[k], r, c)),
            forall|n: int, op: Operation|
                0 <= n < sites.len() && #[trigger] g.is_delink_below(
                    doomed,
                    (#[trigger] sites[n]).2,
                    sites[n].1,
                    op,
                ) ==> found@.contains(op),
        decreases staged.len() - v,
    {
        let s = staged[v];
        proof {
            assert(staged@.contains(staged@[v as int]));
        }
        let items = world.targets_in(s, DespawnPolicy::RecursiveDelink);
        let mut i: usize = 0;
        while i < items.len()
            invariant
                i <= items.len(),
                v < staged.len(),
                s == staged@[v as int],
                staged@.no_duplicates(),
                doomed.contains(s),
                world.wf(),
                g == world@,
                doomed == entity_set_members(*staged_set),
                forall|j: int|
                    0 <= j < items.len() ==> {
                        &&& g.edge(s, (#[trigger] items[j]).0.0, items[j].0.1)
                        &&& g.policy(items[j].0.0) == DespawnPolicy::RecursiveDelink
                    },
                forall|j: int, k: int|
                    0 <= j < k < items.len() ==> (#[trigger] items[j]).0 != (#[trigger] items[k]).0,
                at.len() == sites.len(),
                blocks.len() == sites.len(),
                sites.no_duplicates(),
                found@ == flat(blocks),
                forall|n: int|
                    0 <= n < sites.len() ==> 0 <= #[trigger] at[n] <= v && staged@[at[n]]
                        == sites[n].0 && !doomed.contains(sites[n].2) && g.step_over(
                        DespawnPolicy::RecursiveDelink,
                        None,
                        sites[n].0,
                        sites[n].1,
                        sites[n].2,
                    ),
                forall|n: int|
                    0 <= n < sites.len() && #[trigger] at[n] == v ==> exists|j: int|
                        0 <= j < i && (#[trigger] items[j]).0 == (sites[n].1, sites[n].2),
                forall|n: int|
                    0 <= n < sites.len() ==> g.delink_list(
                        doomed,
                        sites[n].2,
                        sites[n].1,
                        #[trigger] blocks[n],
                    ),
                forall|n: int, m: int| 0 <= n < m < at.len() ==> at[n] <= at[m],
                forall|op: Operation| #[trigger]
                    found@.contains(op) ==> g.is_downstream_cut(doomed, op),
                forall|k: int, r: RelationId, c: Entity|
                    0 <= k < v && !doomed.contains(c) && #[trigger] g.step_over(
                        DespawnPolicy::RecursiveDelink,
                        None,
                        staged@[k],
                        r,
                        c,
                    ) ==> sites.contains((staged@[k], r, c)),
                forall|j: int|
                    0 <= j < i && !doomed.contains((#[trigger] items[j]).0.1) ==> sites.contains(
                        (s, items[j].0.0, items[j].0.1),
                    ),
                forall|n: int, op: Operation|
                    0 <= n < sites.len() && #[trigger] g.is_delink_below(
                        doomed,
                        (#[trigger] sites[n]).2,
                        sites[n].1,
                        op,
                    ) ==> found@.contains(op),
            decreases items.len() - i,
        {
            let ((r, c), _slot) = items[i];
            if !entity_set_contains(staged_set, c) {
                let mut below = delinks_below(world, staged_set, c, r);
                let ghost sites_before = sites;
                let ghost at_before = at;
                let ghost blocks_before = blocks;
                let ghost site = (s, r, c);
                proof {
                    lemma_contains_add(found@, below@);
                    assert(g.edge(s, items[i as int].0.0, items[i as int].0.1));
                    assert(g.step_over(DespawnPolicy::RecursiveDelink, None, s, r, c));
                    assert(g.is_site(doomed, DespawnPolicy::RecursiveDelink, r, c));
                    let walk = choose|walk: Seq<Entity>| #[trigger]
                        g.delinks_in_order(doomed, c, r, walk, below@);
                    assert forall|op: Operation| #[trigger] below@.contains(
                        op,
                    ) implies g.is_downstream_cut(doomed, op) by {
                        assert(g.is_delink_below(doomed, c, r, op));
                    }
                    assert forall|op: Operation| #[trigger]
                        g.is_delink_below(doomed, c, r, op) implies below@.contains(op) by {}
                    assert forall|n: int| 0 <= n < sites_before.len() implies #[trigger] sites_before[n]
                        != site by {
                        if at_before[n] == v {
                            let j = choose|j: int|
                                0 <= j < i && (#[trigger] items[j]).0 == (
                                    sites_before[n].1,
                                    sites_before[n].2,
                                );
                            assert(items[j].0 != items[i as int].0);
                        } else {
                            assert(staged@[at_before[n]] != staged@[v as int]);
                        }
                    }
                    sites = sites_before.push(site);
                    at = at_before.push(v as int);
                    blocks = blocks_before.push(below@);
                    assert(blocks.drop_last() =~= blocks_before);
                    assert(blocks.last() == below@);
                    assert forall|x: (Entity, RelationId, Entity)|
                        sites_before.contains(x) implies sites.contains(x) by {
                        let n = choose|n: int| 0 <= n < sites_before.len() && sites_before[n] == x;
                        assert(sites[n] == x);
                    }
                    assert(sites[sites_before.len() as int] == site);
                    assert forall|n: int| 0 <= n < sites.len() implies g.delink_list(
                        doomed,
                        sites[n].2,
                        sites[n].1,
                        #[trigger] blocks[n],
                    ) by {
                        if n < sites_before.len() {
                            assert(blocks[n] == blocks_before[n]);
                            assert(sites[n] == sites_before[n]);
                        }
                    }
                    assert forall|n: int| 0 <= n < sites.len() && #[trigger] at[n]
                        == v implies exists|j: int|
                        0 <= j < i + 1 && (#[trigger] items[j]).0 == (sites[n].1, sites[n].2) by {
                        if n < sites_before.len() {
                            assert(at_before[n] == v);
                            let j = choose|j: int|
                                0 <= j < i && (#[trigger] items[j]).0 == (
                                    sites_before[n].1,
                                    sites_before[n].2,
                                );
                            assert(items[j].0 == (sites[n].1, sites[n].2));
                        } else {
                            assert(items[i as int].0 == (sites[n].1, sites[n].2));
                        }
                    }
                    assert forall|n: int, op: Operation|
                        0 <= n < sites.len() && #[trigger] g.is_delink_below(
                            doomed,
                            (#[trigger] sites[n]).2,
                            sites[n].1,
                            op,
                        ) implies (found@ + below@).contains(op) by {
                        if n < sites_before.len() {
                            assert(sites[n] == sites_before[n]);
                            assert(found@.contains(op));
                        }
                    }
                }
                found.append(&mut below);
            } else {
                proof {
                    assert forall|n: int| 0 <= n < sites.len() && #[trigger] at[n]
                        == v implies exists|j: int|
                        0 <= j < i + 1 && (#[trigger] items[j]).0 == (sites[n].1, sites[n].2) by {
                        let j = choose|j: int|
                            0 <= j < i && (#[trigger] items[j]).0 == (sites[n].1, sites[n].2);
                        assert(items[j].0 == (sites[n].1, sites[n].2));
                    }
                }
            }
            i += 1;
        }
        proof {
            assert forall|k: int, r: RelationId, c: Entity|
                0 <= k < v + 1 && !doomed.contains(c) && #[trigger] g.step_over(
                    DespawnPolicy::RecursiveDelink,
                    None,
                    staged@[k],
                    r,
                    c,
                ) implies sites.contains((staged@[k], r, c)) by {
                if k == v {
                    let j = choose|j: int| 0 <= j < items.len() && (#[trigger] items[j]).0 == (r, c);
                    assert(items[j].0.1 == c && items[j].0.0 == r);
                }
            }
        }
        v += 1;
    }
    proof {
        assert forall|op: Operation| g.is_downstream_cut(doomed, op) implies #[trigger] found@.contains(
            op,
        ) by {
            match op {
                Operation::Delink(e, r, c) => {
                    let site = choose|site: Entity|
                        #[trigger] g.is_site(doomed, DespawnPolicy::RecursiveDelink, r, site)
                            && g.is_delink_below(doomed, site, r, op);
                    let s = choose|s: Entity|
                        doomed.contains(s) && #[trigger] g.step_over(
                            DespawnPolicy::RecursiveDelink,
                            None,
                            s,
                            r,
                            site,
                        );
                    assert(staged@.contains(s));
                    let k = choose|k: int| 0 <= k < staged@.len() && staged@[k] == s;
                    assert(g.step_over(DespawnPolicy::RecursiveDelink, None, staged@[k], r, site));
                    assert(sites.contains((s, r, site)));
                    let n = choose|n: int| 0 <= n < sites.len() && sites[n] == (s, r, site);
                    assert(g.is_delink_below(doomed, sites[n].2, sites[n].1, op));
                },
                _ => {},
            }
        }
        assert forall|site: (Entity, RelationId, Entity)| #[trigger]
            sites.contains(site) <==> doomed.contains(site.0) && !doomed.contains(site.2)
                && g.step_over(DespawnPolicy::RecursiveDelink, None, site.0, site.1, site.2) by {
            if sites.contains(site) {
                let n = choose|n: int| 0 <= n < sites.len() && sites[n] == site;
                assert(0 <= at[n]);
                assert(staged@.contains(staged@[at[n]]));
            }
            if doomed.contains(site.0) && !doomed.contains(site.2) && g.step_over(
                DespawnPolicy::RecursiveDelink,
                None,
                site.0,
                site.1,
                site.2,
            ) {
                assert(staged@.contains(site.0));
                let k = choose|k: int| 0 <= k < staged@.len() && staged@[k] == site.0;
                assert(g.step_over(
                    DespawnPolicy::RecursiveDelink,
                    None,
                    staged@[k],
                    site.1,
                    site.2,
                ));
            }
        }
        lemma_follows(staged@, Seq::new(sites.len(), |i: int| sites[i].0), at);
    }
    Downstream { found, sites: Ghost(sites), blocks: Ghost(blocks) }
}

/// The reparentings that `moves` hands back, with the doomed foster of each.
struct Moves {
    found: Vec<Operation>,
    fosters: Ghost<Seq<Entity>>,
}

/// The reparenting of the surviving targets that the staged entities have
/// along relation types of the policy `Reparent`: one for each edge to such
/// a target, those of an entity staged earlier first.
fn moves(world: &World, staged: &Vec<Entity>, staged_set: &EntitySet) -> (out: Moves)
    requires
        world.wf(),
        staged@.no_duplicates(),
        forall|e: Entity| staged@.contains(e) <==> entity_set_members(*staged_set).contains(e),
    ensures
        forall|op: Operation| #[trigger]
            out.found@.contains(op) <==> world@.is_move(entity_set_members(*staged_set), op),
        out.fosters@.len() == out.found@.len(),
        forall|i: int|
            0 <= i < out.found@.len() ==> entity_set_members(*staged_set).contains(
                #[trigger] out.fosters@[i],
            ) && !entity_set_members(*staged_set).contains(out.found@[i].aim()) && (exists|
                r: RelationId,
            |
                out.found@[i] == Operation::Reparent(out.found@[i].aim(), r) && world@.step_over(
                    DespawnPolicy::Reparent,
                    None,
                    out.fosters@[i],
                    r,
                    out.found@[i].aim(),
                )),
        forall|i: int, j: int|
            0 <= i < j < out.found@.len() ==> !(#[trigger] out.fosters@[i] == #[trigger] out.fosters@[j]
                && out.found@[i] == out.found@[j]),
        follows(staged@, out.fosters@),
{
    let ghost g = world@;
    let ghost doomed = entity_set_members(*staged_set);
    let mut found: Vec<Operation> = Vec::new();
    let ghost mut at: Seq<int> = Seq::empty();
    let ghost mut fosters: Seq<Entity> = Seq::empty();
    let mut v: usize = 0;
    while v < staged.len()
        invariant
            v <= staged.len(),
            world.wf(),
            g == world@,
            doomed == entity_set_members(*staged_set),
            staged@.no_duplicates(),
            forall|e: Entity| staged@.contains(e) <==> doomed.contains(e),
            at.len() == found.len(),
            fosters.len() == found.len(),
            forall|n: int|
                0 <= n < found.len() ==> 0 <= #[trigger] at[n] < v && staged@[at[n]] == fosters[n]
                    && !doomed.contains(found@[n].aim()) && (exists|r: RelationId|
                    found@[n] == Operation::Reparent(found@[n].aim(), r) && g.step_over(
                        DespawnPolicy::Reparent,
                        None,
                        fosters[n],
                        r,
                        found@[n].aim(),
                    )),
            forall|n: int, m: int| 0 <= n < m < at.len() ==> at[n] <= at[m],
            forall|n: int, m: int|
                0 <= n < m < found.len() ==> !(#[trigger] at[n] == #[trigger] at[m] && found@[n]
                    == found@[m]),
            forall|k: int, r: RelationId, c: Entity|
                0 <= k < v && !doomed.contains(c) && #[trigger] g.step_over(
                    DespawnPolicy::Reparent,
                    None,
                    staged@[k],
                    r,
                    c,
                ) ==> found@.contains(Operation::Reparent(c, r)),
        decreases staged.len() - v,
    {
        let s = staged[v];
        proof {
            assert(staged@.contains(staged@[v as int]));
        }
        let items = world.targets_in(s, DespawnPolicy::Reparent);
        let mut i: usize = 0;
        while i < items.len()
            invariant
                i <= items.len(),
                v < staged.len(),
                s == staged@[v as int],
                doomed.contains(s),
                doomed == entity_set_members(*staged_set),
                forall|j: int|
                    0 <= j < items.len() ==> {
                        &&& g.edge(s, (#[trigger] items[j]).0.0, items[j].0.1)
                        &&& g.policy(items[j].0.0) == DespawnPolicy::Reparent
                    },
                forall|j: int, k: int|
                    0 <= j < k < items.len() ==> (#[trigger] items[j]).0 != (#[trigger] items[k]).0,
                at.len() == found.len(),
                fosters.len() == found.len(),
                forall|n: int|
                    0 <= n < found.len() ==> 0 <= #[trigger] at[n] <= v && staged@[at[n]]
                        == fosters[n] && !doomed.contains(found@[n].aim()) && (exists|r: RelationId|
                        found@[n] == Operation::Reparent(found@[n].aim(), r) && g.step_over(
                            DespawnPolicy::Reparent,
                            None,
                            fosters[n],
                            r,
                            found@[n].aim(),
                        )),
                forall|n: int|
                    0 <= n < found.len() && #[trigger] at[n] == v ==> exists|j: int|
                        0 <= j < i && found@[n] == Operation::Reparent(
                            (#[trigger] items[j]).0.1,
                            items[j].0.0,
                        ),
                forall|n: int, m: int| 0 <= n < m < at.len() ==> at[n] <= at[m],
                forall|n: int, m: int|
                    0 <= n < m < found.len() ==> !(#[trigger] at[n] == #[trigger] at[m] && found@[n]
                        == found@[m]),
                forall|k: int, r: RelationId, c: Entity|
                    0 <= k < v && !doomed.contains(c) && #[trigger] g.step_over(
                        DespawnPolicy::Reparent,
                        None,
                        staged@[k],
                        r,
                        c,
                    ) ==> found@.contains(Operation::Reparent(c, r)),
                forall|j: int|
                    0 <= j < i && !doomed.contains((#[trigger] items[j]).0.1) ==> found@.contains(
                        Operation::Reparent(items[j].0.1, items[j].0.0),
                    ),
            decreases items.len() - i,
        {
            let ((r, c), _slot) = items[i];
            if !entity_set_contains(staged_set, c) {
                let ghost before = found@;
                let ghost at_before = at;
                let ghost fosters_before = fosters;
                let ghost op = Operation::Reparent(c, r);
                proof {
                    lemma_contains_push(before, op);
                    assert(g.edge(s, items[i as int].0.0, items[i as int].0.1));
                    assert(g.step_over(DespawnPolicy::Reparent, None, s, r, c));
                    at = at_before.push(v as int);
                    fosters = fosters_before.push(s);
                }
                found.push(Operation::Reparent(c, r));
                proof {
                    let last = before.len() as int;
                    assert(found@[last] == op && at[last] == v && fosters[last] == s);
                    assert forall|n: int| 0 <= n < last implies found@[n] == before[n] && at[n]
                        == at_before[n] && fosters[n] == fosters_before[n] by {}
                    assert forall|n: int, m: int| 0 <= n < m < found.len() implies !(#[trigger] at[n]
                        == #[trigger] at[m] && found@[n] == found@[m]) by {
                        if m == last && at[n] == v {
                            let j = choose|j: int|
                                0 <= j < i && before[n] == Operation::Reparent(
                                    (#[trigger] items[j]).0.1,
                                    items[j].0.0,
                                );
                            assert(items[j].0 != items[i as int].0);
                        }
                    }
                    assert forall|n: int| 0 <= n < found.len() && #[trigger] at[n]
                        == v implies exists|j: int|
                        0 <= j < i + 1 && found@[n] == Operation::Reparent(
                            (#[trigger] items[j]).0.1,
                            items[j].0.0,
                        ) by {
                        if n < last {
                            let j = choose|j: int|
                                0 <= j < i && before[n] == Operation::Reparent(
                                    (#[trigger] items[j]).0.1,
                                    items[j].0.0,
                                );
                            assert(found@[n] == Operation::Reparent(items[j].0.1, items[j].0.0));
                        } else {
                            assert(found@[n] == Operation::Reparent(
                                items[i as int].0.1,
                                items[i as int].0.0,
                            ));
                        }
                    }
                    assert forall|n: int| 0 <= n < found.len() implies 0 <= #[trigger] at[n] <= v
                        && staged@[at[n]] == fosters[n] && !doomed.contains(found@[n].aim())
                        && (exists|r2: RelationId|
                        found@[n] == Operation::Reparent(found@[n].aim(), r2) && g.step_over(
                            DespawnPolicy::Reparent,
                            None,
                            fosters[n],
                            r2,
                            found@[n].aim(),
                        )) by {
                        if n < last {
                            assert(0 <= at_before[n]);
                        } else {
                            assert(found@[n] == Operation::Reparent(found@[n].aim(), r));
                        }
                    }
                }
            } else {
                proof {
                    assert forall|n: int| 0 <= n < found.len() && #[trigger] at[n]
                        == v implies exists|j: int|
                        0 <= j < i + 1 && found@[n] == Operation::Reparent(
                            (#[trigger] items[j]).0.1,
                            items[j].0.0,
                        ) by {
                        let j = choose|j: int|
                            0 <= j < i && found@[n] == Operation::Reparent(
                                (#[trigger] items[j]).0.1,
                                items[j].0.0,
                            );
                        assert(found@[n] == Operation::Reparent(items[j].0.1, items[j].0.0));
                    }
                }
            }
            i += 1;
        }
        proof {
            assert forall|k: int, r: RelationId, c: Entity|
                0 <= k < v + 1 && !doomed.contains(c) && #[trigger] g.step_over(
                    DespawnPolicy::Reparent,
                    None,
                    staged@[k],
                    r,
                    c,
                ) implies found@.contains(Operation::Reparent(c, r)) by {
                if k == v {
                    let j = choose|j: int| 0 <= j < items.len() && (#[trigger] items[j]).0 == (r, c);
                    assert(items[j].0.1 == c && items[j].0.0 == r);
                }
            }
        }
        v += 1;
    }
    proof {
        assert forall|op: Operation| #[trigger] found@.contains(op) <==> g.is_move(doomed, op) by {
            if found@.contains(op) {
                let n = choose|n: int| 0 <= n < found@.len() && found@[n] == op;
                assert(0 <= at[n]);
                assert(staged@.contains(staged@[at[n]]));
            }
            if g.is_move(doomed, op) {
                match op {
                    Operation::Reparent(c, r) => {
                        let s = choose|s: Entity|
                            doomed.contains(s) && #[trigger] g.step_over(
                                DespawnPolicy::Reparent,
                                None,
                                s,
                                r,
                                c,
                            );
                        assert(staged@.contains(s));
                        let k = choose|k: int| 0 <= k < staged@.len() && staged@[k] == s;
                        assert(g.step_over(DespawnPolicy::Reparent, None, staged@[k], r, c));
                    },
                    _ => {},
                }
            }
        }
        assert forall|i: int| 0 <= i < found@.len() implies doomed.contains(#[trigger] fosters[i])
            && !doomed.contains(found@[i].aim()) && (exists|r: RelationId|
            found@[i] == Operation::Reparent(found@[i].aim(), r) && g.step_over(
                DespawnPolicy::Reparent,
                None,
                fosters[i],
                r,
                found@[i].aim(),
            )) by {
            assert(0 <= at[i]);
            assert(staged@.contains(staged@[at[i]]));
        }
        assert forall|i: int, j: int| 0 <= i < j < found@.len() implies !(#[trigger] fosters[i]
            == #[trigger] fosters[j] && found@[i] == found@[j]) by {
            assert(staged@[at[i]] == fosters[i] && staged@[at[j]] == fosters[j]);
            assert(!(at[i] == at[j] && found@[i] == found@[j]));
        }
        lemma_follows(staged@, fosters, at);
    }
    Moves { found, fosters: Ghost(fosters) }
}

/// The despawns of the staged entities but the first, in their order.
fn removals(world: &World, staged: &Vec<Entity>, staged_set: &EntitySet, root: Entity) -> (found:
    Vec<Operation>)
    requires
        staged@.no_duplicates(),
        staged.len() > 0 ==> staged@[0] == root,
        forall|e: Entity| staged@.contains(e) <==> entity_set_members(*staged_set).contains(e),
    ensures
        found@ == despawns_after_first(staged@),
        forall|op: Operation| #[trigger]
            found@.contains(op) <==> world@.is_removal(entity_set_members(*staged_set), root, op),
{
    let ghost g = world@;
    let ghost doomed = entity_set_members(*staged_set);
    let mut found: Vec<Operation> = Vec::new();
    let mut v: usize = 1;
    while v < staged.len()
        invariant
            1 <= v,
            v <= staged.len() || (staged.len() == 0 && v == 1),
            found@ == Seq::new((v - 1) as nat, |i: int| Operation::Despawn(staged@[i + 1])),
        decreases staged.len() - v,
    {
        found.push(Operation::Despawn(staged[v]));
        proof {
            assert(found@ =~= Seq::new(v as nat, |i: int| Operation::Despawn(staged@[i + 1])));
        }
        v += 1;
    }
    proof {
        assert(found@ =~= despawns_after_first(staged@));
        assert forall|op: Operation| #[trigger]
            found@.contains(op) <==> g.is_removal(doomed, root, op) by {
            if found@.contains(op) {
                let n = choose|n: int| 0 <= n < found@.len() && found@[n] == op;
                assert(n + 1 < staged@.len());
                assert(op == Operation::Despawn(staged@[n + 1]));
                assert(staged@.contains(staged@[n + 1]));
                assert(staged@[n + 1] != staged@[0]);
            }
            if g.is_removal(doomed, root, op) {
                match op {
                    Operation::Despawn(s) => {
                        assert(staged@.contains(s));
                        let k = choose|k: int| 0 <= k < staged@.len() && staged@[k] == s;
                        assert(k != 0);
                        assert(found@[k - 1] == op);
                    },
                    _ => {},
                }
            }
        }
    }
    found
}

/// Collects what despawning `root` entails, without the despawn of `root`
/// itself, behind what `operations` holds already, and records in
/// `ascended_parents` where the targets to be reparented can climb to.
pub fn descend_despawn_relations(
    world: &World,
    operations: &mut Vec<Operation>,
    ascended_parents: &mut AscendedParents,
    root: Entity,
)
    requires
        world.wf(),
        climbable(old(ascended_parents)@, old(ascended_parents).fuel()),
    ensures
        climbable(final(ascended_parents)@, final(ascended_parents).fuel()),
        exists|plan: Seq<Operation>|
            {
                &&& final(operations)@ == old(operations)@ + plan
                &&& #[trigger] world@.despawn_plan(
                    root,
                    old(ascended_parents)@,
                    final(ascended_parents)@,
                    plan,
                )
            },
{
    let ghost g = world@;
    let ghost memo = ascended_parents@;
    let nothing = entity_set_new();
    let staged = breadth_first_walk(world, root, DespawnPolicy::RecursiveDespawn, None, &nothing);
    let staged_set = entity_set_of(&staged);
    let ghost doomed = entity_set_members(staged_set);
    proof {
        assert(entity_set_members(nothing) =~= Set::<Entity>::empty());
        assert(doomed =~= g.doomed_set(root));
        assert(g.is_breadth_first(
            DespawnPolicy::RecursiveDespawn,
            None,
            Set::empty(),
            root,
            staged@,
        ));
    }
    let mut v: usize = 0;
    while v < staged.len()
        invariant
            v <= staged.len(),
            world.wf(),
            g == world@,
            climbable(ascended_parents@, ascended_parents.fuel()),
            ascended_parents@ == g.ascend_all(memo, staged@.subrange(0, v as int)),
        decreases staged.len() - v,
    {
        ascended_parents.ascend_parent(world, staged[v]);
        proof {
            let next = staged@.subrange(0, v + 1);
            assert(next.drop_last() =~= staged@.subrange(0, v as int));
            assert(next.last() == staged@[v as int]);
        }
        v += 1;
    }
    proof {
        assert(staged@.subrange(0, staged.len() as int) =~= staged@);
    }
    let mut cuts = foster_cuts(world, &staged, &staged_set);
    let below = downstream_cuts(world, &staged, &staged_set);
    let mut downstream = below.found;
    let moved = moves(world, &staged, &staged_set);
    let mut reparents = moved.found;
    let mut despawns = removals(world, &staged, &staged_set, root);
    let ghost plan = cuts@ + downstream@ + reparents@ + despawns@;
    proof {
        assert(g.plan_parts(
            root,
            memo,
            ascended_parents@,
            plan,
            staged@,
            cuts@,
            downstream@,
            reparents@,
            despawns@,
        ));
        let sites = below.sites@;
        let blocks = below.blocks@;
        let fosters = moved.fosters@;
        assert(follows(staged@, Seq::new(cuts@.len(), |i: int| cuts@[i].aim())));
        assert(follows(staged@, Seq::new(sites.len(), |i: int| sites[i].0)));
        assert(forall|site: (Entity, RelationId, Entity)| #[trigger]
            sites.contains(site) <==> g.doomed_set(root).contains(site.0) && !g.doomed_set(
                root,
            ).contains(site.2) && g.step_over(
                DespawnPolicy::RecursiveDelink,
                None,
                site.0,
                site.1,
                site.2,
            ));
        assert(forall|i: int|
            0 <= i < sites.len() ==> g.delink_list(
                g.doomed_set(root),
                sites[i].2,
                sites[i].1,
                #[trigger] blocks[i],
            ));
        assert(forall|i: int|
            0 <= i < reparents@.len() ==> g.doomed_set(root).contains(#[trigger] fosters[i])
                && !g.doomed_set(root).contains(reparents@[i].aim()) && (exists|r: RelationId|
                reparents@[i] == Operation::Reparent(reparents@[i].aim(), r) && g.step_over(
                    DespawnPolicy::Reparent,
                    None,
                    fosters[i],
                    r,
                    reparents@[i].aim(),
                )));
        assert(forall|i: int, j: int|
            0 <= i < j < reparents@.len() ==> !(#[trigger] fosters[i] == #[trigger] fosters[j]
                && reparents@[i] == reparents@[j]));
        assert(g.plan_order(
            root,
            staged@,
            cuts@,
            downstream@,
            reparents@,
            despawns@,
            sites,
            blocks,
            fosters,
        ));
    }
    operations.append(&mut cuts);
    operations.append(&mut downstream);
    operations.append(&mut reparents);
    operations.append(&mut despawns);
    proof {
        assert(operations@ =~= old(operations)@ + plan);
        assert(g.despawn_plan(root, memo, ascended_parents@, plan));
    }
}

impl DespawnPolicy {
    /// Resolves the cascade that `initial_operation` sets off: collects what
    /// follows from it while the graph is only read, then carries out what
    /// was collected. The initial operation itself is not carried out. For
    /// the removal of an edge, `self` is the policy of its relation type.
    pub fn apply(&self, world: &mut World, initial_operation: Operation)
        requires
            old(world).wf(),
        ensures
            final(world).wf(),
            exists|ops: Seq<Operation>, memo: Memo, fuel: nat|
                {
                    &&& #[trigger] old(world)@.resolves(*self, initial_operation, ops, memo, fuel)
                    &&& final(world)@ == old(world)@.apply_all(memo, fuel, ops)
                },
    {
        let ghost g = world@;
        let mut operations: Vec<Operation> = Vec::new();
        let mut ascended_parents = AscendedParents::new();
        match initial_operation {
            Operation::Despawn(entity) => {
                descend_despawn_relations(world, &mut operations, &mut ascended_parents, entity);
                proof {
                    let plan = choose|plan: Seq<Operation>|
                        {
                            &&& operations@ == Seq::<Operation>::empty() + plan
                            &&& #[trigger] g.despawn_plan(
                                entity,
                                Map::empty(),
                                ascended_parents@,
                                plan,
                            )
                        };
                    assert(operations@ =~= plan);
                }
            },
            Operation::Delink(_parent, relation, child) => {
                match *self {
                    DespawnPolicy::RecursiveDespawn => {
                        descend_despawn_relations(
                            world,
                            &mut operations,
                            &mut ascended_parents,
                            child,
                        );
                        proof {
                            let plan = choose|plan: Seq<Operation>|
                                {
                                    &&& operations@ == Seq::<Operation>::empty() + plan
                                    &&& #[trigger] g.despawn_plan(
                                        child,
                                        Map::empty(),
                                        ascended_parents@,
                                        plan,
                                    )
                                };
                            assert(operations@ =~= plan);
                        }
                        let ghost plan = operations@;
                        operations.push(Operation::Despawn(child));
                        proof {
                            assert(operations@.drop_last() =~= plan);
                        }
                    },
                    DespawnPolicy::RecursiveDelink => {
                        let nothing = entity_set_new();
                        descend_delink_relation(world, &nothing, &mut operations, child, relation);
                        proof {
                            let found = choose|found: Seq<Operation>|
                                {
                                    &&& operations@ == Seq::<Operation>::empty() + found
                                    &&& #[trigger] g.delink_list(
                                        entity_set_members(nothing),
                                        child,
                                        relation,
                                        found,
                                    )
                                };
                            assert(operations@ =~= found);
                            assert(entity_set_members(nothing) =~= Set::<Entity>::empty());
                        }
                    },
                    DespawnPolicy::Reparent => {
                        operations.push(Operation::Reparent(child, relation));
                        proof {
                            assert(operations@ =~= seq![Operation::Reparent(child, relation)]);
                        }
                    },
                    DespawnPolicy::Orphan => {},
                }
            },
            Operation::Reparent(child, relation) => {
                match sole_foster(world, child, relation) {
                    Some(parent) => {
                        operations.push(Operation::Delink(parent, relation, child));
                        proof {
                            assert(operations@ =~= seq![Operation::Delink(parent, relation, child)]);
                        }
                    },
                    None => {},
                }
            },
        }
        proof {
            assert(g.resolves(
                *self,
                initial_operation,
                operations@,
                ascended_parents@,
                ascended_parents.fuel(),
            ));
        }
        apply_operations(world, &operations, &ascended_parents);
    }
}

} // verus!

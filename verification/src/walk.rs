//! The breadth-first walk that the cascade and the traversal share: from a
//! root, over the edges of one bucket, never entering the same entity twice.

use crate::collections::{
    entity_set_contains, entity_set_insert, entity_set_members, entity_set_new, Entity, EntitySet,
    RelationId,
};
use crate::graph::{DespawnPolicy, Graph};
use crate::world::World;
use std::collections::VecDeque;
use vstd::prelude::*;

verus! {

/// A sequence without repetition whose members are all below `bound` is no
/// longer than `bound`.
pub proof fn lemma_bounded_distinct(s: Seq<Entity>, bound: nat)
    requires
        s.no_duplicates(),
        forall|i: int| 0 <= i < s.len() ==> (#[trigger] s[i]) < bound,
    ensures
        s.len() <= bound,
{
    let f = |x: Entity| x as int;
    assert(vstd::relations::injective(f));
    let t = s.map_values(f);
    s.lemma_no_duplicates_injective(f);
    t.unique_seq_to_set();
    vstd::set_lib::lemma_int_range(0, bound as int);
    assert(t.to_set().subset_of(vstd::set_lib::set_int_range(0, bound as int))) by {
        assert forall|x: int| t.to_set().contains(x) implies vstd::set_lib::set_int_range(
            0,
            bound as int,
        ).contains(x) by {
            let i = choose|i: int| 0 <= i < t.len() && t[i] == x;
            assert(t[i] == s[i] as int);
        }
    }
    vstd::set_lib::lemma_len_subset(t.to_set(), vstd::set_lib::set_int_range(0, bound as int));
}

/// A walk that is extended by one admissible step is a walk, one step
/// longer.
pub proof fn lemma_walk_extends(
    g: Graph,
    policy: DespawnPolicy,
    only: Option<RelationId>,
    blocked: Set<Entity>,
    root: Entity,
    path: Seq<Entity>,
    next: Entity,
)
    requires
        g.is_walk(policy, only, blocked, root, path),
        g.step(policy, only, path.last(), next),
        g.live.contains(next),
        !blocked.contains(next),
    ensures
        g.is_walk(policy, only, blocked, root, path.push(next)),
        g.reaches(policy, only, blocked, root, next),
        g.reaches_within(policy, only, blocked, root, next, path.len()),
{
    let longer = path.push(next);
    assert forall|i: int| 0 <= i < longer.len() - 1 implies g.step(
        policy,
        only,
        #[trigger] longer[i],
        longer[i + 1],
    ) by {
        if i < path.len() - 1 {
            assert(longer[i] == path[i]);
            assert(longer[i + 1] == path[i + 1]);
        }
    }
    assert(longer.last() == next);
}

/// What a walk within so many steps reaches, a walk reaches, and so does a
/// walk within more steps.
pub proof fn lemma_within_reaches(
    g: Graph,
    policy: DespawnPolicy,
    only: Option<RelationId>,
    blocked: Set<Entity>,
    root: Entity,
    entity: Entity,
    steps: nat,
    more: nat,
)
    requires
        g.reaches_within(policy, only, blocked, root, entity, steps),
        steps <= more,
    ensures
        g.reaches(policy, only, blocked, root, entity),
        g.reaches_within(policy, only, blocked, root, entity, more),
{
    let path = choose|path: Seq<Entity>| #[trigger]
        g.is_walk(policy, only, blocked, root, path) && path.last() == entity && path.len() <= steps
            + 1;
    assert(g.is_walk(policy, only, blocked, root, path) && path.last() == entity && path.len()
        <= more + 1);
}

/// Whether `levels` says of each entity of `order` within how many steps a
/// walk reaches it, the levels never falling along the order, where `root`
/// is first at level 0, and whatever an entity of the order steps to comes
/// in the order at most one level higher.
pub open spec fn is_level_order(
    g: Graph,
    policy: DespawnPolicy,
    only: Option<RelationId>,
    blocked: Set<Entity>,
    root: Entity,
    order: Seq<Entity>,
    levels: Seq<nat>,
) -> bool {
    &&& levels.len() == order.len()
    &&& order.len() > 0 ==> order[0] == root && levels[0] == 0
    &&& g.live.contains(root) && !blocked.contains(root) ==> order.len() > 0
    &&& forall|i: int|
        0 <= i < order.len() ==> g.reaches_within(
            policy,
            only,
            blocked,
            root,
            #[trigger] order[i],
            levels[i],
        )
    &&& forall|i: int, j: int| 0 <= i < j < levels.len() ==> levels[i] <= levels[j]
    &&& forall|i: int, z: Entity|
        #![trigger g.step(policy, only, order[i], z)]
        0 <= i < order.len() && g.step(policy, only, order[i], z) && !blocked.contains(z)
            ==> exists|j: int| 0 <= j < order.len() && order[j] == z && levels[j] <= levels[i] + 1
}

/// In a level order, every entity on a walk comes at a level that is no
/// higher than its place on the walk.
pub proof fn lemma_level_order_walk(
    g: Graph,
    policy: DespawnPolicy,
    only: Option<RelationId>,
    blocked: Set<Entity>,
    root: Entity,
    order: Seq<Entity>,
    levels: Seq<nat>,
    path: Seq<Entity>,
    upto: int,
)
    requires
        is_level_order(g, policy, only, blocked, root, order, levels),
        g.is_walk(policy, only, blocked, root, path),
        0 <= upto < path.len(),
    ensures
        exists|j: int| 0 <= j < order.len() && order[j] == path[upto] && levels[j] <= upto,
    decreases upto,
{
    if upto == 0 {
        assert(g.live.contains(path[0]) && !blocked.contains(path[0]));
        assert(order[0] == path[0] && levels[0] <= 0);
    } else {
        lemma_level_order_walk(g, policy, only, blocked, root, order, levels, path, upto - 1);
        let i = choose|i: int|
            0 <= i < order.len() && order[i] == path[upto - 1] && levels[i] <= upto - 1;
        assert(g.step(policy, only, path[upto - 1], path[upto - 1 + 1]));
        assert(g.step(policy, only, order[i], path[upto]));
        assert(!blocked.contains(path[upto]));
    }
}

/// A level order without repetition is breadth-first: it holds exactly
/// what a walk reaches, and no entity comes before one that a walk reaches
/// within fewer steps.
pub proof fn lemma_level_order_is_breadth_first(
    g: Graph,
    policy: DespawnPolicy,
    only: Option<RelationId>,
    blocked: Set<Entity>,
    root: Entity,
    order: Seq<Entity>,
    levels: Seq<nat>,
)
    requires
        is_level_order(g, policy, only, blocked, root, order, levels),
        order.no_duplicates(),
    ensures
        forall|e: Entity| order.contains(e) <==> g.reaches(policy, only, blocked, root, e),
        forall|i: int, j: int, steps: nat|
            #![trigger order[i], g.reaches_within(policy, only, blocked, root, order[j], steps)]
            0 <= i < j < order.len() && g.reaches_within(policy, only, blocked, root, order[j], steps)
                ==> g.reaches_within(policy, only, blocked, root, order[i], steps),
{
    assert forall|e: Entity| order.contains(e) <==> g.reaches(policy, only, blocked, root, e) by {
        if order.contains(e) {
            let i = choose|i: int| 0 <= i < order.len() && order[i] == e;
            lemma_within_reaches(g, policy, only, blocked, root, order[i], levels[i], levels[i]);
        }
        if g.reaches(policy, only, blocked, root, e) {
            let path = choose|path: Seq<Entity>| #[trigger]
                g.is_walk(policy, only, blocked, root, path) && path.last() == e;
            lemma_level_order_walk(
                g,
                policy,
                only,
                blocked,
                root,
                order,
                levels,
                path,
                path.len() - 1,
            );
        }
    }
    assert forall|i: int, j: int, steps: nat|
        #![trigger order[i], g.reaches_within(policy, only, blocked, root, order[j], steps)]
        0 <= i < j < order.len() && g.reaches_within(
            policy,
            only,
            blocked,
            root,
            order[j],
            steps,
        ) implies g.reaches_within(policy, only, blocked, root, order[i], steps) by {
        let path = choose|path: Seq<Entity>| #[trigger]
            g.is_walk(policy, only, blocked, root, path) && path.last() == order[j] && path.len()
                <= steps + 1;
        lemma_level_order_walk(
            g,
            policy,
            only,
            blocked,
            root,
            order,
            levels,
            path,
            path.len() - 1,
        );
        let at = choose|at: int|
            0 <= at < order.len() && order[at] == path[path.len() - 1] && levels[at] <= path.len()
                - 1;
        assert(at == j);
        lemma_within_reaches(g, policy, only, blocked, root, order[i], levels[i], steps);
    }
}

/// What the walk keeps track of while it runs: the levels of the entities
/// entered and of those that wait, which never fall, first along the
/// entities entered and then along those that wait, and rise by at most one.
spec fn paced(
    g: Graph,
    policy: DespawnPolicy,
    only: Option<RelationId>,
    blocked: Set<Entity>,
    root: Entity,
    visited: Seq<Entity>,
    levels: Seq<nat>,
    queue: Seq<Entity>,
    waiting: Seq<nat>,
) -> bool {
    &&& levels.len() == visited.len()
    &&& waiting.len() == queue.len()
    &&& visited.no_duplicates()
    &&& visited.len() > 0 ==> visited[0] == root && levels[0] == 0
    &&& visited.len() == 0 ==> forall|k: int|
        0 <= k < queue.len() ==> #[trigger] queue[k] == root && waiting[k] == 0
    &&& g.live.contains(root) && !blocked.contains(root) ==> visited.len() > 0 || queue.len() > 0
    &&& forall|i: int|
        0 <= i < visited.len() ==> g.reaches_within(
            policy,
            only,
            blocked,
            root,
            #[trigger] visited[i],
            levels[i],
        )
    &&& forall|k: int|
        0 <= k < queue.len() && g.live.contains(#[trigger] queue[k]) && !blocked.contains(queue[k])
            ==> g.reaches_within(policy, only, blocked, root, queue[k], waiting[k])
    &&& forall|i: int, j: int| 0 <= i < j < levels.len() ==> levels[i] <= levels[j]
    &&& forall|k: int, m: int| 0 <= k < m < waiting.len() ==> waiting[k] <= waiting[m]
    &&& forall|i: int, k: int|
        0 <= i < levels.len() && 0 <= k < waiting.len() ==> levels[i] <= waiting[k]
    &&& forall|k: int|
        0 <= k < waiting.len() && levels.len() > 0 ==> #[trigger] waiting[k] <= levels.last() + 1
}

/// Whether whatever one of the first `count` entities entered steps to was
/// entered, or waits, at most one level higher.
spec fn closed(
    g: Graph,
    policy: DespawnPolicy,
    only: Option<RelationId>,
    blocked: Set<Entity>,
    visited: Seq<Entity>,
    levels: Seq<nat>,
    queue: Seq<Entity>,
    waiting: Seq<nat>,
    count: int,
) -> bool {
    forall|i: int, z: Entity|
        #![trigger g.step(policy, only, visited[i], z)]
        0 <= i < count && g.step(policy, only, visited[i], z) && !blocked.contains(z) ==> (exists|
            j: int,
        |
            0 <= j < visited.len() && visited[j] == z && levels[j] <= levels[i] + 1) || (exists|
            k: int,
        |
            0 <= k < queue.len() && queue[k] == z && waiting[k] <= levels[i] + 1)
}

/// The entities that a breadth-first walk from `root` enters, in the order
/// in which it enters them. The walk follows the edges in the bucket of
/// `policy`, of the relation type `only` where one is named, and enters
/// neither a blocked entity nor one that does not live. It enters each
/// entity that it reaches once, `root` first, and none before another that
/// it reaches within fewer steps.
pub fn breadth_first_walk(
    world: &World,
    root: Entity,
    policy: DespawnPolicy,
    only: Option<RelationId>,
    blocked: &EntitySet,
) -> (visited: Vec<Entity>)
    requires
        world.wf(),
    ensures
        visited@.no_duplicates(),
        forall|e: Entity|
            visited@.contains(e) <==> world@.reaches(
                policy,
                only,
                entity_set_members(*blocked),
                root,
                e,
            ),
        visited.len() > 0 ==> visited[0] == root,
        forall|i: int, j: int, steps: nat|
            #![trigger visited@[i], world@.reaches_within(policy, only, entity_set_members(*blocked), root, visited@[j], steps)]
            0 <= i < j < visited.len() && world@.reaches_within(
                policy,
                only,
                entity_set_members(*blocked),
                root,
                visited@[j],
                steps,
            ) ==> world@.reaches_within(
                policy,
                only,
                entity_set_members(*blocked),
                root,
                visited@[i],
                steps,
            ),
{
    let ghost g = world@;
    let ghost closed_off = entity_set_members(*blocked);
    let mut visited: Vec<Entity> = Vec::new();
    let ghost mut levels: Seq<nat> = Seq::empty();
    let mut seen = entity_set_new();
    let mut queue: VecDeque<Entity> = VecDeque::new();
    let ghost mut waiting: Seq<nat> = seq![0nat];
    queue.push_back(root);
    proof {
        assert(queue@[0] == root);
        if g.live.contains(root) && !closed_off.contains(root) {
            assert(g.is_walk(policy, only, closed_off, root, seq![root]));
            assert(seq![root].last() == root);
        }
    }
    while queue.len() > 0
        invariant
            world.wf(),
            g == world@,
            closed_off == entity_set_members(*blocked),
            visited.len() <= g.size,
            forall|x: Entity| entity_set_members(seen).contains(x) <==> visited@.contains(x),
            paced(g, policy, only, closed_off, root, visited@, levels, queue@, waiting),
            closed(g, policy, only, closed_off, visited@, levels, queue@, waiting, visited.len() as int),
        decreases g.size - visited.len(), queue@.len(),
    {
        let ghost queue_before = queue@;
        let ghost waiting_before = waiting;
        let ghost visited_before = visited@;
        let ghost levels_before = levels;
        let e = match queue.pop_front() {
            Some(e) => e,
            None => {
                return visited;
            },
        };
        let ghost level = waiting_before[0];
        proof {
            waiting = waiting_before.subrange(1, waiting_before.len() as int);
            assert(e == queue_before[0]);
            assert forall|k: int| 0 <= k < queue@.len() implies queue@[k] == queue_before[k + 1]
                && waiting[k] == waiting_before[k + 1] by {}
        }
        if !entity_set_contains(&seen, e) && !entity_set_contains(blocked, e) && world.contains(e) {
            entity_set_insert(&mut seen, e);
            visited.push(e);
            proof {
                levels = levels_before.push(level);
                let last = visited_before.len() as int;
                assert(visited@[last] == e);
                assert forall|i: int| 0 <= i < last implies visited@[i] == visited_before[i]
                    && levels[i] == levels_before[i] by {}
                assert(visited@.no_duplicates()) by {
                    assert forall|i: int, j: int|
                        0 <= i < visited@.len() && 0 <= j < visited@.len() && i != j implies visited@[i]
                        != visited@[j] by {
                        if i < last && j < last {
                            assert(visited_before[i] != visited_before[j]);
                        } else if i < last {
                            assert(visited_before.contains(visited_before[i]));
                        } else if j < last {
                            assert(visited_before.contains(visited_before[j]));
                        }
                    }
                }
                assert forall|x: Entity| entity_set_members(seen).contains(x) <==> visited@.contains(
                    x,
                ) by {
                    if visited@.contains(x) {
                        let i = choose|i: int| 0 <= i < visited@.len() && visited@[i] == x;
                        if i < last {
                            assert(visited_before.contains(x));
                        }
                    }
                    if visited_before.contains(x) {
                        let i = choose|i: int| 0 <= i < visited_before.len() && visited_before[i] == x;
                        assert(visited@[i] == x);
                    }
                }
                assert(g.reaches_within(policy, only, closed_off, root, e, level));
                assert forall|i: int| 0 <= i < visited@.len() implies (#[trigger] visited@[i])
                    < g.size by {
                    let x = visited@[i];
                    assert(g.reaches_within(policy, only, closed_off, root, x, levels[i]));
                    let path = choose|path: Seq<Entity>| #[trigger]
                        g.is_walk(policy, only, closed_off, root, path) && path.last() == x
                            && path.len() <= levels[i] + 1;
                    assert(g.live.contains(path[path.len() - 1]));
                }
                lemma_bounded_distinct(visited@, g.size);
                assert(levels.last() == level);
                assert forall|i: int, j: int| 0 <= i < j < levels.len() implies levels[i]
                    <= levels[j] by {
                    if j == last {
                        assert(levels_before[i] <= waiting_before[0]);
                    }
                }
                assert forall|i: int, k: int|
                    0 <= i < levels.len() && 0 <= k < waiting.len() implies levels[i]
                    <= waiting[k] by {
                    if i == last {
                        assert(waiting_before[0] <= waiting_before[k + 1]);
                    } else {
                        assert(levels_before[i] <= waiting_before[k + 1]);
                    }
                }
                assert forall|k: int| 0 <= k < waiting.len() && levels.len() > 0 implies #[trigger]
                    waiting[k] <= levels.last() + 1 by {
                    if levels_before.len() > 0 {
                        assert(waiting_before[k + 1] <= levels_before.last() + 1);
                        assert(levels_before[levels_before.len() - 1] <= waiting_before[0]);
                    } else {
                        assert(queue_before[k + 1] == root);
                        assert(waiting_before[k + 1] == 0);
                    }
                }
                assert(paced(g, policy, only, closed_off, root, visited@, levels, queue@, waiting));
                assert(closed(
                    g,
                    policy,
                    only,
                    closed_off,
                    visited@,
                    levels,
                    queue@,
                    waiting,
                    last,
                )) by {
                    assert forall|i: int, z: Entity|
                        #![trigger g.step(policy, only, visited@[i], z)]
                        0 <= i < last && g.step(policy, only, visited@[i], z)
                            && !closed_off.contains(z) implies (exists|j: int|
                        0 <= j < visited@.len() && visited@[j] == z && levels[j] <= levels[i] + 1)
                        || (exists|k: int|
                        0 <= k < queue@.len() && queue@[k] == z && waiting[k] <= levels[i] + 1) by {
                        assert(g.step(policy, only, visited_before[i], z));
                        if exists|j: int|
                            0 <= j < visited_before.len() && visited_before[j] == z
                                && levels_before[j] <= levels_before[i] + 1 {
                            let j = choose|j: int|
                                0 <= j < visited_before.len() && visited_before[j] == z
                                    && levels_before[j] <= levels_before[i] + 1;
                            assert(visited@[j] == z && levels[j] <= levels[i] + 1);
                        } else {
                            let k = choose|k: int|
                                0 <= k < queue_before.len() && queue_before[k] == z
                                    && waiting_before[k] <= levels_before[i] + 1;
                            if k == 0 {
                                assert(visited@[last] == z && levels[last] <= levels[i] + 1);
                            } else {
                                assert(queue@[k - 1] == z && waiting[k - 1] <= levels[i] + 1);
                            }
                        }
                    }
                }
            }
            let items = world.targets_in(e, policy);
            let mut i: usize = 0;
            while i < items.len()
                invariant
                    i <= items.len(),
                    world.wf(),
                    g == world@,
                    visited.len() > 0,
                    visited@.last() == e,
                    levels.len() == visited.len(),
                    levels.last() == level,
                    forall|j: int|
                        0 <= j < items.len() ==> {
                            &&& g.edge(e, (#[trigger] items[j]).0.0, items[j].0.1)
                            &&& g.policy(items[j].0.0) == policy
                        },
                    paced(g, policy, only, closed_off, root, visited@, levels, queue@, waiting),
                    closed(
                        g,
                        policy,
                        only,
                        closed_off,
                        visited@,
                        levels,
                        queue@,
                        waiting,
                        visited.len() - 1,
                    ),
                    forall|j: int|
                        0 <= j < i && (only is None || only == Some((#[trigger] items[j]).0.0))
                            ==> exists|k: int|
                            0 <= k < queue@.len() && queue@[k] == items[j].0.1 && waiting[k] <= level
                                + 1,
                decreases items.len() - i,
            {
                let ghost queue_then = queue@;
                let ghost waiting_then = waiting;
                let ((r, t), _slot) = items[i];
                let admitted = match only {
                    Some(wanted) => wanted == r,
                    None => true,
                };
                if admitted {
                    queue.push_back(t);
                    proof {
                        waiting = waiting_then.push(level + 1);
                        let end = queue_then.len() as int;
                        assert(queue@[end] == t && waiting[end] == level + 1);
                        assert forall|k: int| 0 <= k < end implies queue@[k] == queue_then[k]
                            && waiting[k] == waiting_then[k] by {}
                        assert(g.reaches_within(
                            policy,
                            only,
                            closed_off,
                            root,
                            visited@[visited.len() - 1],
                            levels[visited.len() - 1],
                        ));
                        if g.live.contains(t) && !closed_off.contains(t) {
                            let path = choose|path: Seq<Entity>| #[trigger]
                                g.is_walk(policy, only, closed_off, root, path) && path.last() == e
                                    && path.len() <= level + 1;
                            assert(g.edge(e, items[i as int].0.0, items[i as int].0.1));
                            assert(g.step_over(policy, only, e, r, t));
                            lemma_walk_extends(g, policy, only, closed_off, root, path, t);
                            lemma_within_reaches(
                                g,
                                policy,
                                only,
                                closed_off,
                                root,
                                t,
                                path.len(),
                                level + 1,
                            );
                        }
                        assert forall|k: int, m: int| 0 <= k < m < waiting.len() implies waiting[k]
                            <= waiting[m] by {
                            if m == end {
                                assert(waiting_then[k] <= levels.last() + 1);
                            }
                        }
                        assert forall|n: int, k: int|
                            0 <= n < levels.len() && 0 <= k < waiting.len() implies levels[n]
                            <= waiting[k] by {
                            if k == end {
                                if n < levels.len() - 1 {
                                    assert(levels[n] <= levels[levels.len() - 1]);
                                }
                            } else {
                                assert(levels[n] <= waiting_then[k]);
                            }
                        }
                        assert(paced(
                            g,
                            policy,
                            only,
                            closed_off,
                            root,
                            visited@,
                            levels,
                            queue@,
                            waiting,
                        ));
                        assert(closed(
                            g,
                            policy,
                            only,
                            closed_off,
                            visited@,
                            levels,
                            queue@,
                            waiting,
                            visited.len() - 1,
                        )) by {
                            assert forall|n: int, z: Entity|
                                #![trigger g.step(policy, only, visited@[n], z)]
                                0 <= n < visited.len() - 1 && g.step(policy, only, visited@[n], z)
                                    && !closed_off.contains(z) implies (exists|j: int|
                                0 <= j < visited@.len() && visited@[j] == z && levels[j] <= levels[n]
                                    + 1) || (exists|k: int|
                                0 <= k < queue@.len() && queue@[k] == z && waiting[k] <= levels[n]
                                    + 1) by {
                                if !(exists|j: int|
                                    0 <= j < visited@.len() && visited@[j] == z && levels[j]
                                        <= levels[n] + 1) {
                                    let k = choose|k: int|
                                        0 <= k < queue_then.len() && queue_then[k] == z
                                            && waiting_then[k] <= levels[n] + 1;
                                    assert(queue@[k] == z && waiting[k] <= levels[n] + 1);
                                }
                            }
                        }
                        assert forall|j: int|
                            0 <= j < i + 1 && (only is None || only == Some(
                                (#[trigger] items[j]).0.0,
                            )) implies exists|k: int|
                            0 <= k < queue@.len() && queue@[k] == items[j].0.1 && waiting[k] <= level
                                + 1 by {
                            if j < i {
                                let k = choose|k: int|
                                    0 <= k < queue_then.len() && queue_then[k] == items[j].0.1
                                        && waiting_then[k] <= level + 1;
                                assert(queue@[k] == items[j].0.1 && waiting[k] <= level + 1);
                            } else {
                                assert(queue@[end] == items[j].0.1);
                            }
                        }
                    }
                }
                i += 1;
            }
            proof {
                assert forall|n: int, z: Entity|
                    #![trigger g.step(policy, only, visited@[n], z)]
                    0 <= n < visited.len() && g.step(policy, only, visited@[n], z)
                        && !closed_off.contains(z) implies (exists|j: int|
                    0 <= j < visited@.len() && visited@[j] == z && levels[j] <= levels[n] + 1)
                    || (exists|k: int|
                    0 <= k < queue@.len() && queue@[k] == z && waiting[k] <= levels[n] + 1) by {
                    if n == visited.len() - 1 {
                        let r = choose|r: RelationId| g.step_over(policy, only, e, r, z);
                        let j = choose|j: int|
                            0 <= j < items.len() && (#[trigger] items[j]).0 == (r, z);
                        assert(items[j].0.0 == r && items[j].0.1 == z);
                    }
                }
            }
        } else {
            proof {
                assert(paced(g, policy, only, closed_off, root, visited@, levels, queue@, waiting)) by {
                    if visited@.len() == 0 {
                        assert(queue_before[0] == root);
                        assert(!(g.live.contains(root) && !closed_off.contains(root)));
                    }
                    assert forall|i: int, k: int|
                        0 <= i < levels.len() && 0 <= k < waiting.len() implies levels[i]
                        <= waiting[k] by {
                        assert(levels[i] <= waiting_before[k + 1]);
                    }
                    assert forall|k: int, m: int| 0 <= k < m < waiting.len() implies waiting[k]
                        <= waiting[m] by {
                        assert(waiting_before[k + 1] <= waiting_before[m + 1]);
                    }
                }
                assert forall|i: int, z: Entity|
                    #![trigger g.step(policy, only, visited@[i], z)]
                    0 <= i < visited.len() && g.step(policy, only, visited@[i], z)
                        && !closed_off.contains(z) implies (exists|j: int|
                    0 <= j < visited@.len() && visited@[j] == z && levels[j] <= levels[i] + 1)
                    || (exists|k: int|
                    0 <= k < queue@.len() && queue@[k] == z && waiting[k] <= levels[i] + 1) by {
                    if !(exists|j: int|
                        0 <= j < visited@.len() && visited@[j] == z && levels[j] <= levels[i] + 1) {
                        let k = choose|k: int|
                            0 <= k < queue_before.len() && queue_before[k] == z && waiting_before[k]
                                <= levels[i] + 1;
                        if k == 0 {
                            let r = choose|r: RelationId| g.step_over(policy, only, visited@[i], r, z);
                            assert(g.edge(visited@[i], r, z));
                            assert(g.edge_ok(visited@[i], r, z));
                            assert(visited@.contains(z));
                            let j = choose|j: int| 0 <= j < visited@.len() && visited@[j] == z;
                            assert(levels[j] <= waiting_before[0]);
                        } else {
                            assert(queue@[k - 1] == z && waiting[k - 1] <= levels[i] + 1);
                        }
                    }
                }
            }
        }
    }
    proof {
        assert(queue@.len() == 0);
        assert(is_level_order(g, policy, only, closed_off, root, visited@, levels)) by {
            assert forall|i: int, z: Entity|
                #![trigger g.step(policy, only, visited@[i], z)]
                0 <= i < visited@.len() && g.step(policy, only, visited@[i], z)
                    && !closed_off.contains(z) implies exists|j: int|
                0 <= j < visited@.len() && visited@[j] == z && levels[j] <= levels[i] + 1 by {}
        }
        lemma_level_order_is_breadth_first(g, policy, only, closed_off, root, visited@, levels);
    }
    visited
}

} // verus!

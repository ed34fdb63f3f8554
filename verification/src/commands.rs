//! The three commands that change the relation graph. Each runs to its end,
//! cascade included, before it returns, and leaves the store valid.

use crate::cascade::{Memo, Operation};
use crate::collections::{Entity, RelationId, MAX_SLOTS};
use crate::graph::{DespawnPolicy, Graph};
use crate::laws::{lemma_despawned, lemma_resolved};
use crate::world::World;
use vstd::prelude::*;

verus! {

/// Some target that `foster` has under `relation`, with the slot of its
/// edge; `None` where it has no such target.
pub fn first_target(world: &World, foster: Entity, relation: RelationId) -> (found: Option<
    (Entity, usize),
>)
    requires
        world.wf(),
    ensures
        match found {
            Some(hit) => world@.edge(foster, relation, hit.0) && world@.edges[(
                foster,
                relation,
                hit.0,
            )] == hit.1,
            None => !world@.has_target(foster, relation),
        },
{
    let info = match world.relation_info(relation) {
        Some(info) => info,
        None => {
            proof {
                assert forall|t: Entity| !world@.edge(foster, relation, t) by {
                    if world@.edge(foster, relation, t) {
                        assert(world@.edge_ok(foster, relation, t));
                    }
                }
            }
            return None;
        },
    };
    let ghost g = world@;
    let items = world.targets_in(foster, info.policy);
    let mut i: usize = 0;
    while i < items.len()
        invariant
            i <= items.len(),
            g == world@,
            forall|j: int|
                0 <= j < items.len() ==> {
                    &&& g.edge(foster, (#[trigger] items[j]).0.0, items[j].0.1)
                    &&& g.edges[(foster, items[j].0.0, items[j].0.1)] == items[j].1
                },
            forall|j: int| 0 <= j < i ==> (#[trigger] items[j]).0.0 != relation,
        decreases items.len() - i,
    {
        let ((r, t), slot) = items[i];
        if r == relation {
            proof {
                assert(g.edge(foster, items[i as int].0.0, items[i as int].0.1));
            }
            return Some((t, slot));
        }
        i += 1;
    }
    proof {
        assert forall|t: Entity| !g.edge(foster, relation, t) by {
            if g.edge(foster, relation, t) {
                let j = choose|j: int| 0 <= j < items.len() && (#[trigger] items[j]).0 == (relation, t);
                assert(items[j].0.0 == relation);
            }
        }
    }
    None
}

/// Sets the relation of type `relation` from `foster` to `target`, with the
/// payload `value`.
#[derive(Clone, Copy, PartialEq, Eq, Structural, Debug)]
pub struct SetRelation {
    pub foster: Entity,
    pub target: Entity,
    pub relation: RelationId,
    pub value: u64,
}

impl SetRelation {
    /// Whether the command has anything to work on: both entities live and
    /// the relation type is registered.
    pub open spec fn applies(self, g: Graph) -> bool {
        &&& g.live.contains(self.foster)
        &&& g.live.contains(self.target)
        &&& g.kinds.contains_key(self.relation)
    }

    /// The target that the command displaces: the one that `foster` has
    /// under an exclusive relation type where it is not `target`.
    pub open spec fn displaced(self, g: Graph) -> Option<Entity> {
        if self.applies(g) && !g.edge(self.foster, self.relation, self.target) && g.exclusive(
            self.relation,
        ) && g.has_target(self.foster, self.relation) {
            Some(choose|t: Entity| g.edge(self.foster, self.relation, t))
        } else {
            None
        }
    }

    /// The graph once the command has updated index and storage, before any
    /// cascade:
    /// - unchanged where the command does not apply;
    /// - with the payload overwritten in place where the edge exists;
    /// - with the displaced edge replaced, in the same slot, where the
    ///   relation type is exclusive and `foster` has another target;
    /// - else with the payload in a new slot and a new edge to it. Only a
    ///   storage that holds `MAX_SLOTS` payloads, the length beyond which no
    ///   storage can grow, stays as it is, and the graph with it.
    pub open spec fn stored(self, g: Graph) -> Graph {
        let (f, r, t) = (self.foster, self.relation, self.target);
        if !self.applies(g) {
            g
        } else if g.edge(f, r, t) {
            g.set_payload(f, r, g.edges[(f, r, t)], self.value)
        } else {
            match self.displaced(g) {
                Some(gone) => {
                    let slot = g.edges[(f, r, gone)];
                    g.unlink(f, r, gone).link(f, r, t, slot).set_payload(f, r, slot, self.value)
                },
                None => if g.storage_has_room(f, r) {
                    g.push_payload(f, r, self.value).link(f, r, t, g.storage[(f, r)].len() as usize)
                } else {
                    g
                },
            }
        }
    }

    /// Carries out the command. Where a target is displaced, the cascade
    /// for the removal of its edge follows, by the policy of the relation
    /// type.
    pub fn write(self, world: &mut World)
        requires
            old(world).wf(),
        ensures
            final(world).wf(),
            self.displaced(old(world)@) is None ==> final(world)@ == self.stored(old(world)@),
            self.displaced(old(world)@) matches Some(gone) ==> exists|
                ops: Seq<Operation>,
                memo: Memo,
                fuel: nat,
            |
                {
                    &&& #[trigger] self.stored(old(world)@).resolves(
                        old(world)@.policy(self.relation),
                        Operation::Delink(self.foster, self.relation, gone),
                        ops,
                        memo,
                        fuel,
                    )
                    &&& final(world)@ == self.stored(old(world)@).apply_all(memo, fuel, ops)
                },
            self.displaced(old(world)@) matches Some(gone) ==> self.stored(old(world)@).resolved(
                old(world)@.policy(self.relation),
                self.relation,
                gone,
                final(world)@,
            ),
    {
        let ghost g = world@;
        let info = match world.relation_info(self.relation) {
            Some(info) => info,
            None => {
                return ;
            },
        };
        if !world.contains(self.foster) || !world.contains(self.target) {
            return ;
        }
        match world.slot_of(self.foster, self.relation, self.target) {
            Some(slot) => {
                proof {
                    assert(g.edge_ok(self.foster, self.relation, self.target));
                }
                world.set_payload(self.foster, self.relation, slot, self.value);
            },
            None => {
                let displaced = if info.exclusive {
                    first_target(world, self.foster, self.relation)
                } else {
                    None
                };
                match displaced {
                    Some(hit) => {
                        let gone = hit.0;
                        let slot = hit.1;
                        proof {
                            assert(g.edge_ok(self.foster, self.relation, gone));
                            let chosen = choose|t: Entity| g.edge(self.foster, self.relation, t);
                            assert(chosen == gone);
                            assert(self.displaced(g) == Some(gone));
                        }
                        world.unlink(self.foster, self.relation, gone);
                        proof {
                            assert forall|t: Entity| #[trigger]
                                world@.edge(self.foster, self.relation, t) implies t
                                == self.target by {
                                assert(g.edge(self.foster, self.relation, t));
                            }
                        }
                        world.link(self.foster, self.relation, self.target, slot);
                        world.set_payload(self.foster, self.relation, slot, self.value);
                        let ghost stored = world@;
                        proof {
                            assert(stored == self.stored(g));
                        }
                        info.policy.apply(
                            world,
                            Operation::Delink(self.foster, self.relation, gone),
                        );
                        proof {
                            let (ops, memo, fuel) = choose|
                                ops: Seq<Operation>,
                                memo: Memo,
                                fuel: nat,
                            |
                                {
                                    &&& #[trigger] stored.resolves(
                                        info.policy,
                                        Operation::Delink(self.foster, self.relation, gone),
                                        ops,
                                        memo,
                                        fuel,
                                    )
                                    &&& world@ == stored.apply_all(memo, fuel, ops)
                                };
                            assert(self.stored(g).resolves(
                                g.policy(self.relation),
                                Operation::Delink(self.foster, self.relation, gone),
                                ops,
                                memo,
                                fuel,
                            ));
                            lemma_resolved(
                                stored,
                                info.policy,
                                self.foster,
                                self.relation,
                                gone,
                                ops,
                                memo,
                                fuel,
                            );
                        }
                    },
                    None => {
                        proof {
                            if info.exclusive {
                                assert(!g.has_target(self.foster, self.relation));
                            }
                            assert(self.displaced(g) is None);
                        }
                        if world.storage_len(self.foster, self.relation) < MAX_SLOTS {
                            let slot = world.push_payload(self.foster, self.relation, self.value);
                            proof {
                                if info.exclusive {
                                    assert forall|t: Entity| #[trigger]
                                        world@.edge(self.foster, self.relation, t) implies t
                                        == self.target by {
                                        assert(g.edge(self.foster, self.relation, t));
                                        assert(g.has_target(self.foster, self.relation));
                                    }
                                }
                            }
                            world.link(self.foster, self.relation, self.target, slot);
                        }
                    },
                }
            },
        }
    }
}

/// Removes the relation of type `relation` from `foster` to `target`.
#[derive(Clone, Copy, PartialEq, Eq, Structural, Debug)]
pub struct UnSet {
    pub foster: Entity,
    pub target: Entity,
    pub relation: RelationId,
}

impl UnSet {
    /// Carries out the command. Without such an edge nothing happens. Else
    /// the edge goes, and the cascade for its removal follows, by the policy
    /// of the relation type.
    pub fn write(self, world: &mut World)
        requires
            old(world).wf(),
        ensures
            final(world).wf(),
            !old(world)@.edge(self.foster, self.relation, self.target) ==> final(world)@ == old(
                world,
            )@,
            old(world)@.edge(self.foster, self.relation, self.target) ==> exists|
                ops: Seq<Operation>,
                memo: Memo,
                fuel: nat,
            |
                {
                    &&& #[trigger] old(world)@.unlink(
                        self.foster,
                        self.relation,
                        self.target,
                    ).resolves(
                        old(world)@.policy(self.relation),
                        Operation::Delink(self.foster, self.relation, self.target),
                        ops,
                        memo,
                        fuel,
                    )
                    &&& final(world)@ == old(world)@.unlink(
                        self.foster,
                        self.relation,
                        self.target,
                    ).apply_all(memo, fuel, ops)
                },
            old(world)@.edge(self.foster, self.relation, self.target) ==> old(world)@.unlink(
                self.foster,
                self.relation,
                self.target,
            ).resolved(old(world)@.policy(self.relation), self.relation, self.target, final(world)@),
    {
        let ghost g = world@;
        if world.slot_of(self.foster, self.relation, self.target).is_some() {
            proof {
                assert(g.edge_ok(self.foster, self.relation, self.target));
            }
            let policy = match world.relation_info(self.relation) {
                Some(info) => info.policy,
                None => DespawnPolicy::Orphan,
            };
            world.unlink(self.foster, self.relation, self.target);
            let ghost cut = world@;
            policy.apply(world, Operation::Delink(self.foster, self.relation, self.target));
            proof {
                let (ops, memo, fuel) = choose|ops: Seq<Operation>, memo: Memo, fuel: nat|
                    {
                        &&& #[trigger] cut.resolves(
                            policy,
                            Operation::Delink(self.foster, self.relation, self.target),
                            ops,
                            memo,
                            fuel,
                        )
                        &&& world@ == cut.apply_all(memo, fuel, ops)
                    };
                lemma_resolved(
                    cut,
                    policy,
                    self.foster,
                    self.relation,
                    self.target,
                    ops,
                    memo,
                    fuel,
                );
            }
        }
    }
}

/// Despawns `entity` with everything that its despawn entails.
#[derive(Clone, Copy, PartialEq, Eq, Structural, Debug)]
pub struct CheckeDespawn {
    pub entity: Entity,
}

impl CheckeDespawn {
    /// Carries out the command: the cascade for the despawn of `entity`,
    /// then the despawn itself. The store stays valid, so no edge is left
    /// that starts or ends at an entity that is gone.
    pub fn write(self, world: &mut World)
        requires
            old(world).wf(),
        ensures
            final(world).wf(),
            exists|ops: Seq<Operation>, memo: Memo, fuel: nat|
                {
                    &&& #[trigger] old(world)@.resolves(
                        DespawnPolicy::RecursiveDespawn,
                        Operation::Despawn(self.entity),
                        ops,
                        memo,
                        fuel,
                    )
                    &&& final(world)@ == old(world)@.apply_all(memo, fuel, ops).despawn(self.entity)
                },
            old(world)@.despawned(self.entity, final(world)@),
    {
        let ghost g = world@;
        DespawnPolicy::RecursiveDespawn.apply(world, Operation::Despawn(self.entity));
        proof {
            let (ops, memo, fuel) = choose|ops: Seq<Operation>, memo: Memo, fuel: nat|
                {
                    &&& #[trigger] g.resolves(
                        DespawnPolicy::RecursiveDespawn,
                        Operation::Despawn(self.entity),
                        ops,
                        memo,
                        fuel,
                    )
                    &&& world@ == g.apply_all(memo, fuel, ops)
                };
            lemma_despawned(g, self.entity, memo, fuel, ops);
        }
        world.despawn(self.entity);
    }
}

} // verus!

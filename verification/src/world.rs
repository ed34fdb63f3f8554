//! The entity store that the relation graph lives in, with the edge index of
//! every entity: the targets it points at, in one bucket per cascade policy,
//! and the fosters that point at it.

use crate::collections::{
    foster_entries, foster_set_insert, foster_set_items, foster_set_new, foster_set_remove,
    storage_get, storage_len, storage_new, storage_push, storage_set, storage_values,
    target_entries, target_map_get, target_map_insert, target_map_items, target_map_new,
    target_map_remove, Entity, FosterSet, RelationId, Storage, TargetMap,
};
use crate::graph::{
    lemma_despawn_wf, lemma_link_wf, lemma_push_payload_wf, lemma_register_wf,
    lemma_set_payload_wf, lemma_spawn_wf, lemma_unlink_wf, DespawnPolicy, Graph, RelationInfo,
};
use vstd::prelude::*;

verus! {

/// The edge index of one entity.
pub struct Edges {
    /// The targets of this entity, one map per cascade policy:
    /// `(relation, target)` to the slot of the payload.
    pub(crate) targets: [TargetMap; 4],
    /// The `(relation, foster)` pairs that point at this entity.
    pub(crate) fosters: FosterSet,
}

/// What the store holds for one entity identifier.
pub(crate) struct Record {
    pub(crate) alive: bool,
    pub(crate) edges: Edges,
    /// The payload storages of this entity, indexed by relation identifier;
    /// grown on demand.
    pub(crate) storages: Vec<Storage>,
}

/// The entity store together with the registry of relation types.
pub struct World {
    pub(crate) records: Vec<Record>,
    pub(crate) kinds: Vec<RelationInfo>,
}

impl View for World {
    type V = Graph;

    closed spec fn view(&self) -> Graph {
        Graph {
            size: self.records.len() as nat,
            live: Set::new(|e: Entity| self.alive(e)),
            registered: self.kinds.len() as nat,
            kinds: Map::new(|r: RelationId| r < self.kinds.len(), |r: RelationId| self.kinds[r as int]),
            edges: Map::new(
                |k: (Entity, RelationId, Entity)| self.stored(k.0, k.1, k.2),
                |k: (Entity, RelationId, Entity)|
                    self.bucket(k.0, self.kinds[k.1 as int].policy)[(k.1, k.2)],
            ),
            storage: Map::new(
                |k: (Entity, RelationId)| true,
                |k: (Entity, RelationId)| self.values(k.0, k.1),
            ),
        }
    }
}

impl World {
    /// Whether the store holds a live entity under `e`.
    pub closed spec fn alive(&self, e: Entity) -> bool {
        e < self.records.len() && self.records[e as int].alive
    }

    /// The forward index of `e` in the bucket of `policy`.
    pub closed spec fn bucket(&self, e: Entity, policy: DespawnPolicy) -> Map<
        (RelationId, Entity),
        usize,
    > {
        if e < self.records.len() {
            target_entries(self.records[e as int].edges.targets[policy.rank()])
        } else {
            Map::empty()
        }
    }

    /// The reverse index of `e`.
    pub closed spec fn fosters(&self, e: Entity) -> Set<(RelationId, Entity)> {
        if e < self.records.len() {
            foster_entries(self.records[e as int].edges.fosters)
        } else {
            Set::empty()
        }
    }

    /// The payloads that `e` holds for `relation`.
    pub closed spec fn values(&self, e: Entity, relation: RelationId) -> Seq<u64> {
        if e < self.records.len() && relation < self.records[e as int].storages.len() {
            storage_values(self.records[e as int].storages[relation as int])
        } else {
            Seq::empty()
        }
    }

    /// Whether the forward index of `foster` lists `target` under `relation`,
    /// in the bucket that the relation's policy names.
    pub closed spec fn stored(&self, foster: Entity, relation: RelationId, target: Entity) -> bool {
        relation < self.kinds.len() && self.bucket(
            foster,
            self.kinds[relation as int].policy,
        ).contains_key((relation, target))
    }

    /// Bidirectionality: an entity lists a foster exactly if that foster
    /// lists the entity as a target.
    pub open spec fn bidirectional(&self) -> bool {
        forall|f: Entity, r: RelationId, t: Entity|
            #![trigger self.fosters(t).contains((r, f))]
            #![trigger self@.edge(f, r, t)]
            self.fosters(t).contains((r, f)) <==> self@.edge(f, r, t)
    }

    /// Bucket uniqueness: whatever a bucket lists is an edge of a relation
    /// type whose policy is that of the bucket, under the slot of that edge.
    pub open spec fn buckets_match(&self) -> bool {
        forall|e: Entity, p: DespawnPolicy, r: RelationId, t: Entity| #[trigger]
            self.bucket(e, p).contains_key((r, t)) ==> {
                &&& self@.kinds.contains_key(r)
                &&& self@.policy(r) == p
                &&& self@.edge(e, r, t)
                &&& self@.edges[(e, r, t)] == self.bucket(e, p)[(r, t)]
            }
    }

    /// Validity of the store: its graph is valid (slots exist, exclusive
    /// relation types have one target, nothing dangles), and the two indexes
    /// agree with it.
    pub open spec fn wf(&self) -> bool {
        &&& self@.wf()
        &&& self.bidirectional()
        &&& self.buckets_match()
    }

    /// A store without entities and without relation types.
    pub fn new() -> (world: World)
        ensures
            world.wf(),
            world@ == Graph::empty(),
    {
        let world = World { records: Vec::new(), kinds: Vec::new() };
        proof {
            assert(world@.live =~= Set::<Entity>::empty());
            assert(world@.kinds =~= Map::<RelationId, RelationInfo>::empty());
            assert(world@.edges =~= Map::<(Entity, RelationId, Entity), usize>::empty());
            assert(world@.storage =~= Graph::empty().storage);
        }
        world
    }

    /// Whether `entity` lives in the store.
    pub fn contains(&self, entity: Entity) -> (found: bool)
        ensures
            found == self@.live.contains(entity),
    {
        if entity < self.records.len() as u64 {
            self.records[entity as usize].alive
        } else {
            false
        }
    }

    /// The properties that `relation` was registered with, if it was
    /// registered.
    pub fn relation_info(&self, relation: RelationId) -> (info: Option<RelationInfo>)
        ensures
            info == (if self@.kinds.contains_key(relation) {
                Some(self@.kinds[relation])
            } else {
                None
            }),
    {
        if relation < self.kinds.len() as u64 {
            Some(self.kinds[relation as usize])
        } else {
            None
        }
    }

    /// Adds an entity without edges and returns its identifier.
    pub fn spawn(&mut self) -> (entity: Entity)
        requires
            old(self).wf(),
        ensures
            final(self).wf(),
            final(self)@ == old(self)@.spawn(),
            entity == old(self)@.size,
            !old(self)@.live.contains(entity),
    {
        let entity = self.records.len() as u64;
        let record = Record {
            alive: true,
            edges: Edges {
                targets: [target_map_new(), target_map_new(), target_map_new(), target_map_new()],
                fosters: foster_set_new(),
            },
            storages: Vec::new(),
        };
        self.records.push(record);
        proof {
            let g = old(self)@;
            let h = self@;
            lemma_spawn_wf(g);
            assert forall|e: Entity, p: DespawnPolicy| e != entity implies #[trigger] self.bucket(
                e,
                p,
            ) == old(self).bucket(e, p) by {}
            assert forall|p: DespawnPolicy| #[trigger] self.bucket(entity, p) =~= Map::empty() by {}
            assert(h.live =~= g.spawn().live);
            assert(h.kinds =~= g.kinds);
            assert(h.edges =~= g.edges) by {
                assert forall|k: (Entity, RelationId, Entity)| h.edges.contains_key(k)
                    == g.edges.contains_key(k) by {
                    if k.0 != entity {
                        assert(self.bucket(k.0, self.kinds[k.1 as int].policy) == old(self).bucket(
                            k.0,
                            self.kinds[k.1 as int].policy,
                        ));
                    }
                }
            }
            assert(h.storage =~= g.storage);
            assert(h == g.spawn());
            lemma_indexes_kept(*old(self), *self);
        }
        entity
    }

    /// Registers a relation type and returns its identifier.
    pub fn register(&mut self, policy: DespawnPolicy, exclusive: bool) -> (relation: RelationId)
        requires
            old(self).wf(),
        ensures
            final(self).wf(),
            relation == old(self)@.registered,
            final(self)@ == old(self)@.register((RelationInfo { policy, exclusive })),
    {
        let relation = self.kinds.len() as u64;
        self.kinds.push(RelationInfo { policy, exclusive });
        proof {
            let g = old(self)@;
            let h = self@;
            let info = RelationInfo { policy, exclusive };
            lemma_register_wf(g, info);
            assert forall|e: Entity, p: DespawnPolicy| #[trigger] self.bucket(e, p) == old(
                self,
            ).bucket(e, p) by {}
            assert forall|e: Entity| #[trigger] self.fosters(e) == old(self).fosters(e) by {}
            assert(h.live =~= g.live);
            assert(h.kinds =~= g.kinds.insert(relation, info));
            assert(h.storage =~= g.storage);
            assert forall|k: (Entity, RelationId, Entity)| h.edges.contains_key(k)
                == g.edges.contains_key(k) by {
                if k.1 == relation && self.stored(k.0, k.1, k.2) {
                    assert(old(self).bucket(k.0, policy).contains_key((k.1, k.2)));
                    assert(g.kinds.contains_key(k.1));
                }
            }
            assert(h.edges =~= g.edges);
            assert(h == g.register(info));
            lemma_indexes_kept(*old(self), *self);
        }
        relation
    }

    /// The slot of the edge `foster -> target` of type `relation`, if there
    /// is such an edge.
    pub fn slot_of(&self, foster: Entity, relation: RelationId, target: Entity) -> (slot: Option<
        usize,
    >)
        requires
            self.wf(),
        ensures
            slot == (if self@.edge(foster, relation, target) {
                Some(self@.edges[(foster, relation, target)])
            } else {
                None
            }),
    {
        if relation < self.kinds.len() as u64 && foster < self.records.len() as u64 {
            let policy = self.kinds[relation as usize].policy;
            target_map_get(
                &self.records[foster as usize].edges.targets[policy.index()],
                (relation, target),
            )
        } else {
            None
        }
    }

    /// The targets of `entity` in the bucket of `policy`, each with its
    /// relation type and slot, in no particular order.
    pub fn targets_in(&self, entity: Entity, policy: DespawnPolicy) -> (items: Vec<
        ((RelationId, Entity), usize),
    >)
        requires
            self.wf(),
        ensures
            forall|i: int|
                0 <= i < items.len() ==> {
                    &&& self@.edge(entity, (#[trigger] items[i]).0.0, items[i].0.1)
                    &&& self@.policy(items[i].0.0) == policy
                    &&& self@.edges[(entity, items[i].0.0, items[i].0.1)] == items[i].1
                },
            forall|r: RelationId, t: Entity|
                #[trigger] self@.edge(entity, r, t) && self@.policy(r) == policy ==> exists|i: int|
                    0 <= i < items.len() && (#[trigger] items[i]).0 == (r, t),
            forall|i: int, j: int|
                0 <= i < j < items.len() ==> (#[trigger] items[i]).0 != (#[trigger] items[j]).0,
    {
        if entity < self.records.len() as u64 {
            let items = target_map_items(&self.records[entity as usize].edges.targets[policy.index()]);
            proof {
                assert forall|i: int| 0 <= i < items.len() implies {
                    &&& self@.edge(entity, (#[trigger] items[i]).0.0, items[i].0.1)
                    &&& self@.policy(items[i].0.0) == policy
                    &&& self@.edges[(entity, items[i].0.0, items[i].0.1)] == items[i].1
                } by {
                    assert(self.bucket(entity, policy).contains_key(items[i].0));
                }
            }
            items
        } else {
            Vec::new()
        }
    }

    /// The fosters of `entity`, each with the relation type of its edge, in
    /// no particular order.
    pub fn fosters_of(&self, entity: Entity) -> (items: Vec<(RelationId, Entity)>)
        requires
            self.wf(),
        ensures
            forall|i: int|
                0 <= i < items.len() ==> self@.edge((#[trigger] items[i]).1, items[i].0, entity),
            forall|r: RelationId, f: Entity| #[trigger]
                self@.edge(f, r, entity) ==> exists|i: int|
                    0 <= i < items.len() && #[trigger] items[i] == (r, f),
            forall|i: int, j: int|
                0 <= i < j < items.len() ==> #[trigger] items[i] != #[trigger] items[j],
    {
        if entity < self.records.len() as u64 {
            let items = foster_set_items(&self.records[entity as usize].edges.fosters);
            proof {
                assert forall|i: int| 0 <= i < items.len() implies self@.edge(
                    (#[trigger] items[i]).1,
                    items[i].0,
                    entity,
                ) by {
                    assert(self.fosters(entity).contains((items[i].0, items[i].1)));
                }
                assert forall|r: RelationId, f: Entity| #[trigger]
                    self@.edge(f, r, entity) implies exists|i: int|
                    0 <= i < items.len() && #[trigger] items[i] == (r, f) by {
                    assert(self.fosters(entity).contains((r, f)));
                }
            }
            items
        } else {
            proof {
                assert forall|r: RelationId, f: Entity| #[trigger]
                    self@.edge(f, r, entity) implies false by {
                    assert(self@.edge_ok(f, r, entity));
                }
            }
            Vec::new()
        }
    }

    /// The number of payload slots that `foster` holds for `relation`.
    pub fn storage_len(&self, foster: Entity, relation: RelationId) -> (len: usize)
        ensures
            len == self@.storage[(foster, relation)].len(),
    {
        if foster < self.records.len() as u64 && relation < self.records[foster as usize].storages.len() as u64 {
            storage_len(&self.records[foster as usize].storages[relation as usize])
        } else {
            0
        }
    }

    /// The payload in `slot` of the storage that `foster` holds for
    /// `relation`.
    pub fn payload_at(&self, foster: Entity, relation: RelationId, slot: usize) -> (value: u64)
        requires
            slot < self@.storage[(foster, relation)].len(),
        ensures
            value == self@.storage[(foster, relation)][slot as int],
    {
        storage_get(&self.records[foster as usize].storages[relation as usize], slot)
    }

    /// The payload of the edge `foster -> target` of type `relation`, if
    /// there is such an edge.
    pub fn payload(&self, foster: Entity, relation: RelationId, target: Entity) -> (value: Option<
        u64,
    >)
        requires
            self.wf(),
        ensures
            value == (if self@.edge(foster, relation, target) {
                Some(self@.payload(foster, relation, target))
            } else {
                None
            }),
    {
        match self.slot_of(foster, relation, target) {
            Some(slot) => {
                proof {
                    assert(self@.edge_ok(foster, relation, target));
                }
                Some(storage_get(&self.records[foster as usize].storages[relation as usize], slot))
            },
            None => None,
        }
    }

    /// Adds the edge `foster -> target` of type `relation` under `slot`, on
    /// both sides of the index.
    pub(crate) fn link(&mut self, foster: Entity, relation: RelationId, target: Entity, slot: usize)
        requires
            old(self).wf(),
            old(self)@.can_link(foster, relation, target, slot),
        ensures
            final(self).wf(),
            final(self)@ == old(self)@.link(foster, relation, target, slot),
    {
        let policy = self.kinds[relation as usize].policy;
        let b = policy.index();
        target_map_insert(
            &mut self.records[foster as usize].edges.targets[b],
            (relation, target),
            slot,
        );
        foster_set_insert(&mut self.records[target as usize].edges.fosters, (relation, foster));
        proof {
            let g = old(self)@;
            let h = self@;
            lemma_link_wf(g, foster, relation, target, slot);
            assert forall|e: Entity, p: DespawnPolicy| #[trigger] self.bucket(e, p) == (if e
                == foster && p == policy {
                old(self).bucket(e, p).insert((relation, target), slot)
            } else {
                old(self).bucket(e, p)
            }) by {}
            assert forall|e: Entity| #[trigger] self.fosters(e) == (if e == target {
                old(self).fosters(e).insert((relation, foster))
            } else {
                old(self).fosters(e)
            }) by {}
            assert forall|e: Entity, r: RelationId| #[trigger] self.values(e, r) == old(self).values(
                e,
                r,
            ) by {}
            assert(h.live =~= g.live);
            assert(h.kinds =~= g.kinds);
            assert(h.storage =~= g.storage);
            assert forall|k: (Entity, RelationId, Entity)| h.edges.contains_key(k) == g.link(
                foster,
                relation,
                target,
                slot,
            ).edges.contains_key(k) by {
                if old(self).stored(k.0, k.1, k.2) {
                    assert(g.edge(k.0, k.1, k.2));
                }
            }
            assert forall|k: (Entity, RelationId, Entity)| h.edges.contains_key(k) implies h.edges[k]
                == g.link(foster, relation, target, slot).edges[k] by {}
            assert(h.edges =~= g.link(foster, relation, target, slot).edges);
            assert(h == g.link(foster, relation, target, slot));
            lemma_indexes_follow(*old(self), *self, foster, relation, target);
        }
    }

    /// Removes the edge `foster -> target` of type `relation` from both
    /// sides of the index. Without such an edge nothing changes.
    pub(crate) fn unlink(&mut self, foster: Entity, relation: RelationId, target: Entity)
        requires
            old(self).wf(),
        ensures
            final(self).wf(),
            final(self)@ == old(self)@.unlink(foster, relation, target),
    {
        let ghost g = self@;
        proof {
            lemma_unlink_wf(g, foster, relation, target);
            if g.edge(foster, relation, target) {
                assert(g.edge_ok(foster, relation, target));
            }
        }
        if relation < self.kinds.len() as u64 && foster < self.records.len() as u64 && target
            < self.records.len() as u64 {
            let policy = self.kinds[relation as usize].policy;
            let b = policy.index();
            target_map_remove(&mut self.records[foster as usize].edges.targets[b], (relation, target));
            foster_set_remove(&mut self.records[target as usize].edges.fosters, (relation, foster));
            proof {
                let h = self@;
                assert forall|e: Entity, p: DespawnPolicy| #[trigger] self.bucket(e, p) == (if e
                    == foster && p == policy {
                    old(self).bucket(e, p).remove((relation, target))
                } else {
                    old(self).bucket(e, p)
                }) by {}
                assert forall|e: Entity| #[trigger] self.fosters(e) == (if e == target {
                    old(self).fosters(e).remove((relation, foster))
                } else {
                    old(self).fosters(e)
                }) by {}
                assert forall|e: Entity, r: RelationId| #[trigger] self.values(e, r) == old(
                    self,
                ).values(e, r) by {}
                assert(h.live =~= g.live);
                assert(h.kinds =~= g.kinds);
                assert(h.storage =~= g.storage);
                assert forall|k: (Entity, RelationId, Entity)| h.edges.contains_key(k) == g.unlink(
                    foster,
                    relation,
                    target,
                ).edges.contains_key(k) by {
                    if old(self).stored(k.0, k.1, k.2) {
                        assert(g.edge(k.0, k.1, k.2));
                    }
                }
                assert(h.edges =~= g.unlink(foster, relation, target).edges);
                assert(h == g.unlink(foster, relation, target));
                lemma_indexes_follow(*old(self), *self, foster, relation, target);
            }
        } else {
            proof {
                assert(g.unlink(foster, relation, target).edges =~= g.edges);
            }
        }
    }

    /// Appends `value` to the payloads that `foster` holds for `relation` and
    /// returns its slot.
    pub(crate) fn push_payload(&mut self, foster: Entity, relation: RelationId, value: u64) -> (slot:
        usize)
        requires
            old(self).wf(),
            old(self)@.live.contains(foster),
            old(self)@.kinds.contains_key(relation),
            old(self)@.storage_has_room(foster, relation),
        ensures
            final(self).wf(),
            final(self)@ == old(self)@.push_payload(foster, relation, value),
            slot == old(self)@.storage[(foster, relation)].len(),
    {
        let ghost g = self@;
        let f = foster as usize;
        let r = relation as usize;
        while self.records[f].storages.len() <= r
            invariant
                f == foster,
                r == relation,
                r < self.kinds.len(),
                f < self.records.len(),
                self.wf(),
                self@ == g,
            decreases r + 1 - self.records[f as int].storages.len(),
        {
            let ghost before = *self;
            self.records[f].storages.push(storage_new());
            proof {
                let h = self@;
                assert forall|e: Entity, p: DespawnPolicy| #[trigger] self.bucket(e, p)
                    == before.bucket(e, p) by {}
                assert forall|e: Entity| #[trigger] self.fosters(e) == before.fosters(e) by {}
                assert forall|e: Entity, q: RelationId| #[trigger] self.values(e, q)
                    =~= before.values(e, q) by {}
                assert(h.live =~= g.live);
                assert(h.kinds =~= g.kinds);
                assert(h.storage =~= g.storage);
                assert(h.edges =~= g.edges);
                assert(h == g);
                lemma_indexes_kept(before, *self);
            }
        }
        let ghost before = *self;
        let slot = storage_len(&self.records[f].storages[r]);
        storage_push(&mut self.records[f].storages[r], value);
        proof {
            let h = self@;
            lemma_push_payload_wf(g, foster, relation, value);
            assert forall|e: Entity, p: DespawnPolicy| #[trigger] self.bucket(e, p) == before.bucket(
                e,
                p,
            ) by {}
            assert forall|e: Entity| #[trigger] self.fosters(e) == before.fosters(e) by {}
            assert forall|e: Entity, q: RelationId| #[trigger] self.values(e, q) == (if e == foster
                && q == relation {
                before.values(e, q).push(value)
            } else {
                before.values(e, q)
            }) by {}
            assert(h.live =~= g.live);
            assert(h.kinds =~= g.kinds);
            assert(h.storage =~= g.push_payload(foster, relation, value).storage);
            assert(h.edges =~= g.edges);
            assert(h == g.push_payload(foster, relation, value));
            lemma_indexes_kept(before, *self);
        }
        slot
    }

    /// Replaces the payload in `slot` of the storage that `foster` holds for
    /// `relation`.
    pub(crate) fn set_payload(&mut self, foster: Entity, relation: RelationId, slot: usize, value: u64)
        requires
            old(self).wf(),
            slot < old(self)@.storage[(foster, relation)].len(),
        ensures
            final(self).wf(),
            final(self)@ == old(self)@.set_payload(foster, relation, slot, value),
    {
        let ghost g = self@;
        storage_set(&mut self.records[foster as usize].storages[relation as usize], slot, value);
        proof {
            let h = self@;
            lemma_set_payload_wf(g, foster, relation, slot, value);
            assert forall|e: Entity, p: DespawnPolicy| #[trigger] self.bucket(e, p) == old(
                self,
            ).bucket(e, p) by {}
            assert forall|e: Entity| #[trigger] self.fosters(e) == old(self).fosters(e) by {}
            assert forall|e: Entity, q: RelationId| #[trigger] self.values(e, q) == (if e == foster
                && q == relation {
                old(self).values(e, q).update(slot as int, value)
            } else {
                old(self).values(e, q)
            }) by {}
            assert(h.live =~= g.live);
            assert(h.kinds =~= g.kinds);
            assert(h.storage =~= g.set_payload(foster, relation, slot, value).storage);
            assert(h.edges =~= g.edges);
            assert(h == g.set_payload(foster, relation, slot, value));
            lemma_indexes_kept(*old(self), *self);
        }
    }

    /// Removes `entity` from the store, together with every edge that starts
    /// or ends at it. Nothing changes where `entity` does not live.
    pub(crate) fn despawn(&mut self, entity: Entity)
        requires
            old(self).wf(),
        ensures
            final(self).wf(),
            final(self)@ == old(self)@.despawn(entity),
    {
        if !self.contains(entity) {
            return ;
        }
        let ghost g = self@;
        let policies = DespawnPolicy::iterator();
        let mut b: usize = 0;
        while b < 4
            invariant
                b <= 4,
                self.wf(),
                detaching(g, self@, entity),
                policies@ == DespawnPolicy::all(),
                forall|r: RelationId, t: Entity| #[trigger]
                    self@.edge(entity, r, t) ==> self@.policy(r).rank() >= b,
            decreases 4 - b,
        {
            let policy = policies[b];
            let items = self.targets_in(entity, policy);
            let mut i: usize = 0;
            while i < items.len()
                invariant
                    i <= items.len(),
                    self.wf(),
                    detaching(g, self@, entity),
                    policy.rank() == b,
                    forall|r: RelationId, t: Entity| #[trigger]
                        self@.edge(entity, r, t) ==> self@.policy(r).rank() >= b,
                    forall|r: RelationId, t: Entity|
                        #[trigger] self@.edge(entity, r, t) && self@.policy(r) == policy
                            ==> exists|j: int|
                            i <= j < items.len() && (#[trigger] items[j]).0 == (r, t),
                decreases items.len() - i,
            {
                let ghost before = self@;
                let ((r, t), _slot) = items[i];
                self.unlink(entity, r, t);
                proof {
                    assert forall|r2: RelationId, t2: Entity|
                        #[trigger] self@.edge(entity, r2, t2) && self@.policy(r2)
                            == policy implies exists|j: int|
                        i + 1 <= j < items.len() && (#[trigger] items[j]).0 == (r2, t2) by {
                        assert(before.edge(entity, r2, t2));
                        let j = choose|j: int|
                            i <= j < items.len() && (#[trigger] items[j]).0 == (r2, t2);
                        assert(j != i);
                    }
                    assert forall|r2: RelationId, t2: Entity| #[trigger]
                        self@.edge(entity, r2, t2) implies self@.policy(r2).rank() >= b by {
                        assert(before.edge(entity, r2, t2));
                    }
                }
                i += 1;
            }
            b += 1;
        }
        let incoming = self.fosters_of(entity);
        let mut i: usize = 0;
        while i < incoming.len()
            invariant
                i <= incoming.len(),
                self.wf(),
                detaching(g, self@, entity),
                forall|r: RelationId, t: Entity| !#[trigger] self@.edge(entity, r, t),
                forall|r: RelationId, f: Entity| #[trigger]
                    self@.edge(f, r, entity) ==> exists|j: int|
                        i <= j < incoming.len() && #[trigger] incoming[j] == (r, f),
            decreases incoming.len() - i,
        {
            let ghost before = self@;
            let (r, f) = incoming[i];
            self.unlink(f, r, entity);
            proof {
                assert forall|r2: RelationId, f2: Entity| #[trigger]
                    self@.edge(f2, r2, entity) implies exists|j: int|
                    i + 1 <= j < incoming.len() && #[trigger] incoming[j] == (r2, f2) by {
                    assert(before.edge(f2, r2, entity));
                    let j = choose|j: int|
                        i <= j < incoming.len() && #[trigger] incoming[j] == (r2, f2);
                    assert(j != i);
                }
                assert forall|r2: RelationId, t2: Entity| !#[trigger] self@.edge(
                    entity,
                    r2,
                    t2,
                ) by {
                    assert(!before.edge(entity, r2, t2));
                }
            }
            i += 1;
        }
        let ghost before = *self;
        self.records[entity as usize].alive = false;
        self.records[entity as usize].storages = Vec::new();
        proof {
            let h0 = before@;
            let h = self@;
            let d = g.despawn(entity);
            lemma_despawn_wf(g, entity);
            assert forall|e: Entity, p: DespawnPolicy| #[trigger] self.bucket(e, p) == before.bucket(
                e,
                p,
            ) by {}
            assert forall|e: Entity| #[trigger] self.fosters(e) == before.fosters(e) by {}
            assert forall|e: Entity, q: RelationId| #[trigger] self.values(e, q) == (if e == entity {
                Seq::empty()
            } else {
                before.values(e, q)
            }) by {}
            assert(h.live =~= d.live);
            assert(h.kinds =~= d.kinds);
            assert(h.storage =~= d.storage);
            assert(h.edges =~= h0.edges);
            assert forall|k: (Entity, RelationId, Entity)| h0.edges.contains_key(k)
                == d.edges.contains_key(k) by {
                if h0.edges.contains_key(k) {
                    assert(h0.edge(k.0, k.1, k.2));
                }
            }
            assert(h0.edges =~= d.edges);
            assert(h == d);
            lemma_indexes_kept(before, *self);
        }
    }
}

/// Two stores whose registries, graphs and indexes differ at most in one
/// edge, which the second has in its graph and in both indexes or in none:
/// where the indexes of the first agree with its graph, so do those of the
/// second.
pub(crate) proof fn lemma_indexes_follow(
    before: World,
    after: World,
    foster: Entity,
    relation: RelationId,
    target: Entity,
)
    requires
        before.bidirectional(),
        before.buckets_match(),
        forall|r: RelationId| #[trigger]
            before@.kinds.contains_key(r) ==> after@.kinds.contains_key(r) && after@.kinds[r]
                == before@.kinds[r],
        forall|f: Entity, r: RelationId, t: Entity|
            (f, r, t) != (foster, relation, target) ==> #[trigger] after@.edge(f, r, t)
                == before@.edge(f, r, t) && (after@.edge(f, r, t) ==> after@.edges[(f, r, t)]
                == before@.edges[(f, r, t)]),
        forall|f: Entity, r: RelationId, t: Entity|
            (f, r, t) != (foster, relation, target) ==> #[trigger] after.fosters(t).contains((r, f))
                == before.fosters(t).contains((r, f)),
        forall|e: Entity, p: DespawnPolicy, r: RelationId, t: Entity|
            (e, r, t) != (foster, relation, target) ==> #[trigger] after.bucket(e, p).contains_key(
                (r, t),
            ) == before.bucket(e, p).contains_key((r, t)) && after.bucket(e, p)[(r, t)]
                == before.bucket(e, p)[(r, t)],
        after.fosters(target).contains((relation, foster)) == after@.edge(foster, relation, target),
        forall|p: DespawnPolicy| #[trigger]
            after.bucket(foster, p).contains_key((relation, target)) ==> {
                &&& after@.kinds.contains_key(relation)
                &&& after@.policy(relation) == p
                &&& after@.edge(foster, relation, target)
                &&& after@.edges[(foster, relation, target)] == after.bucket(foster, p)[(
                    relation,
                    target,
                )]
            },
    ensures
        after.bidirectional(),
        after.buckets_match(),
{
    assert forall|f: Entity, r: RelationId, t: Entity|
        #![trigger after.fosters(t).contains((r, f))]
        #![trigger after@.edge(f, r, t)]
        after.fosters(t).contains((r, f)) <==> after@.edge(f, r, t) by {
        if (f, r, t) != (foster, relation, target) {
            assert(before.fosters(t).contains((r, f)) <==> before@.edge(f, r, t));
        }
    }
    assert forall|e: Entity, p: DespawnPolicy, r: RelationId, t: Entity| #[trigger]
        after.bucket(e, p).contains_key((r, t)) implies {
        &&& after@.kinds.contains_key(r)
        &&& after@.policy(r) == p
        &&& after@.edge(e, r, t)
        &&& after@.edges[(e, r, t)] == after.bucket(e, p)[(r, t)]
    } by {
        if (e, r, t) != (foster, relation, target) {
            assert(before.bucket(e, p).contains_key((r, t)));
            assert(after@.edge(e, r, t) == before@.edge(e, r, t));
        }
    }
}

/// Two stores with the same graph and the same indexes, the registry of the
/// second holding what that of the first holds: where the indexes of the
/// first agree with its graph, so do those of the second.
pub(crate) proof fn lemma_indexes_kept(before: World, after: World)
    requires
        before.bidirectional(),
        before.buckets_match(),
        forall|r: RelationId| #[trigger]
            before@.kinds.contains_key(r) ==> after@.kinds.contains_key(r) && after@.kinds[r]
                == before@.kinds[r],
        after@.edges == before@.edges,
        forall|e: Entity, p: DespawnPolicy| #[trigger] after.bucket(e, p) == before.bucket(e, p),
        forall|e: Entity| #[trigger] after.fosters(e) == before.fosters(e),
    ensures
        after.bidirectional(),
        after.buckets_match(),
{
    assert(before.fosters(0).contains((0, 0)) <==> before@.edge(0, 0, 0));
    assert forall|p: DespawnPolicy| #[trigger] after.bucket(0, p).contains_key((0, 0)) implies {
        &&& after@.kinds.contains_key(0)
        &&& after@.policy(0) == p
        &&& after@.edge(0, 0, 0)
        &&& after@.edges[(0, 0, 0)] == after.bucket(0, p)[(0, 0)]
    } by {
        assert(before.bucket(0, p).contains_key((0, 0)));
    }
    lemma_indexes_follow(before, after, 0, 0, 0);
}

/// Whether `h` is `g` with nothing changed but some edges at `entity` removed.
pub(crate) open spec fn detaching(g: Graph, h: Graph, entity: Entity) -> bool {
    &&& h.size == g.size
    &&& h.live == g.live
    &&& h.registered == g.registered
    &&& h.kinds == g.kinds
    &&& h.storage == g.storage
    &&& forall|k: (Entity, RelationId, Entity)| #[trigger]
        h.edges.contains_key(k) ==> g.edges.contains_key(k) && h.edges[k] == g.edges[k]
    &&& forall|k: (Entity, RelationId, Entity)|
        g.edges.contains_key(k) && k.0 != entity && k.2 != entity ==> #[trigger] h.edges.contains_key(
            k,
        )
}

} // verus!

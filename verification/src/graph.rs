//! The mathematical model of the relation graph: which entities live, which
//! relation types are registered, which edges exist and where their payloads
//! are stored. The executable world is specified against this model.

use crate::collections::{Entity, RelationId, MAX_SLOTS};
use vstd::prelude::*;

verus! {

/// What happens to a target when its foster edge disappears. The order of the
/// variants is the order of precedence: where an entity is subject to several
/// of them at once, the earlier one wins.
#[derive(Clone, Copy, PartialEq, Eq, Structural, Debug)]
pub enum DespawnPolicy {
    /// Despawning the foster despawns the target, recursively.
    RecursiveDespawn,
    /// Losing the foster removes the target's own edges of this type,
    /// recursively, without despawning anything.
    RecursiveDelink,
    /// A target whose only foster of this type is despawned is linked to the
    /// nearest surviving ancestor of that foster.
    Reparent,
    /// The edge is removed and nothing else happens.
    Orphan,
}

impl DespawnPolicy {
    /// The precedence of a policy, which is also the number of its bucket:
    /// 0 for `RecursiveDespawn` up to 3 for `Orphan`.
    pub open spec fn rank(self) -> int {
        match self {
            DespawnPolicy::RecursiveDespawn => 0,
            DespawnPolicy::RecursiveDelink => 1,
            DespawnPolicy::Reparent => 2,
            DespawnPolicy::Orphan => 3,
        }
    }

    /// The four policies in order of precedence.
    pub open spec fn all() -> Seq<DespawnPolicy> {
        seq![
            DespawnPolicy::RecursiveDespawn,
            DespawnPolicy::RecursiveDelink,
            DespawnPolicy::Reparent,
            DespawnPolicy::Orphan,
        ]
    }

    /// The number of the bucket that holds the edges of this policy.
    pub fn index(self) -> (i: usize)
        ensures
            i == self.rank(),
            i < 4,
    {
        match self {
            DespawnPolicy::RecursiveDespawn => 0,
            DespawnPolicy::RecursiveDelink => 1,
            DespawnPolicy::Reparent => 2,
            DespawnPolicy::Orphan => 3,
        }
    }

    /// The four policies, highest precedence first.
    pub fn iterator() -> (policies: [DespawnPolicy; 4])
        ensures
            policies@ == DespawnPolicy::all(),
            forall|p: DespawnPolicy| policies@[#[trigger] p.rank()] == p,
    {
        let policies = [
            DespawnPolicy::RecursiveDespawn,
            DespawnPolicy::RecursiveDelink,
            DespawnPolicy::Reparent,
            DespawnPolicy::Orphan,
        ];
        assert(policies@ =~= DespawnPolicy::all());
        policies
    }
}

impl Default for DespawnPolicy {
    /// A relation type that names no policy leaves its targets orphaned.
    fn default() -> (policy: DespawnPolicy)
        ensures
            policy == DespawnPolicy::Orphan,
    {
        DespawnPolicy::Orphan
    }
}

/// The two properties that a relation type is registered with.
#[derive(Clone, Copy, PartialEq, Eq, Structural, Debug)]
pub struct RelationInfo {
    /// What happens to the targets of an edge of this type that disappears.
    pub policy: DespawnPolicy,
    /// Whether a foster may have at most one target of this type.
    pub exclusive: bool,
}

/// The relation graph as a mathematical value.
pub ghost struct Graph {
    /// The number of entity identifiers handed out so far.
    pub size: nat,
    /// The entities that exist.
    pub live: Set<Entity>,
    /// The number of relation types registered so far.
    pub registered: nat,
    /// The registered relation types, by identifier.
    pub kinds: Map<RelationId, RelationInfo>,
    /// The edges: `(foster, relation, target)` to the slot of the payload in
    /// the foster's storage for that relation.
    pub edges: Map<(Entity, RelationId, Entity), usize>,
    /// The payloads of every `(foster, relation)`, by slot. Total: a pair
    /// that never held a payload has the empty sequence.
    pub storage: Map<(Entity, RelationId), Seq<u64>>,
}

impl Graph {
    /// Whether `foster` has an edge of type `relation` to `target`.
    pub open spec fn edge(self, foster: Entity, relation: RelationId, target: Entity) -> bool {
        self.edges.contains_key((foster, relation, target))
    }

    /// The cascade policy of a relation type.
    pub open spec fn policy(self, relation: RelationId) -> DespawnPolicy {
        self.kinds[relation].policy
    }

    /// Whether a relation type allows one target per foster only.
    pub open spec fn exclusive(self, relation: RelationId) -> bool {
        self.kinds[relation].exclusive
    }

    /// The payload that `foster` holds for its edge of type `relation` to
    /// `target`.
    pub open spec fn payload(self, foster: Entity, relation: RelationId, target: Entity) -> u64 {
        self.storage[(foster, relation)][self.edges[(foster, relation, target)] as int]
    }

    /// What holds of a single edge in a valid graph: both ends live, the
    /// relation type is registered, and the slot exists in the foster's
    /// storage.
    pub open spec fn edge_ok(self, foster: Entity, relation: RelationId, target: Entity) -> bool {
        &&& self.live.contains(foster)
        &&& self.live.contains(target)
        &&& self.kinds.contains_key(relation)
        &&& self.edges[(foster, relation, target)] < self.storage[(foster, relation)].len()
    }

    /// Validity of the graph: every live entity carries an identifier that
    /// was handed out, the relation types carry the identifiers below the
    /// number registered, every edge is sound, and a foster has at most one
    /// target of an exclusive relation type.
    pub open spec fn wf(self) -> bool {
        &&& forall|e: Entity| #[trigger] self.live.contains(e) ==> e < self.size
        &&& forall|r: RelationId| #[trigger] self.kinds.contains_key(r) <==> r < self.registered
        &&& forall|f: Entity, r: RelationId, t: Entity| #[trigger]
            self.edge(f, r, t) ==> self.edge_ok(f, r, t)
        &&& forall|f: Entity, r: RelationId, t1: Entity, t2: Entity|
            #![trigger self.edge(f, r, t1), self.edge(f, r, t2)]
            self.edge(f, r, t1) && self.edge(f, r, t2) && self.exclusive(r) ==> t1 == t2
    }

    /// The graph without entities, edges or relation types.
    pub open spec fn empty() -> Graph {
        Graph {
            size: 0,
            live: Set::empty(),
            registered: 0,
            kinds: Map::empty(),
            edges: Map::empty(),
            storage: Map::new(|k: (Entity, RelationId)| true, |k: (Entity, RelationId)| Seq::empty()),
        }
    }

    /// The graph with one more entity, which takes the next identifier.
    pub open spec fn spawn(self) -> Graph {
        Graph { size: self.size + 1, live: self.live.insert(self.size as Entity), ..self }
    }

    /// The graph with one more relation type, which takes the next
    /// identifier.
    pub open spec fn register(self, info: RelationInfo) -> Graph {
        Graph {
            registered: self.registered + 1,
            kinds: self.kinds.insert(self.registered as RelationId, info),
            ..self
        }
    }

    /// The graph with `value` appended to the payloads of `(foster, relation)`.
    pub open spec fn push_payload(self, foster: Entity, relation: RelationId, value: u64) -> Graph {
        Graph {
            storage: self.storage.insert(
                (foster, relation),
                self.storage[(foster, relation)].push(value),
            ),
            ..self
        }
    }

    /// The graph with the payload in `slot` of `(foster, relation)` replaced
    /// by `value`.
    pub open spec fn set_payload(
        self,
        foster: Entity,
        relation: RelationId,
        slot: usize,
        value: u64,
    ) -> Graph {
        Graph {
            storage: self.storage.insert(
                (foster, relation),
                self.storage[(foster, relation)].update(slot as int, value),
            ),
            ..self
        }
    }

    /// The graph with the edge `foster -> target` of type `relation` stored
    /// under `slot`.
    pub open spec fn link(
        self,
        foster: Entity,
        relation: RelationId,
        target: Entity,
        slot: usize,
    ) -> Graph {
        Graph { edges: self.edges.insert((foster, relation, target), slot), ..self }
    }

    /// The graph without the edge `foster -> target` of type `relation`.
    pub open spec fn unlink(self, foster: Entity, relation: RelationId, target: Entity) -> Graph {
        Graph { edges: self.edges.remove((foster, relation, target)), ..self }
    }

    /// The graph without the edges that start or end at `entity`.
    pub open spec fn detach(self, entity: Entity) -> Graph {
        Graph {
            edges: Map::new(
                |k: (Entity, RelationId, Entity)|
                    self.edges.contains_key(k) && k.0 != entity && k.2 != entity,
                |k: (Entity, RelationId, Entity)| self.edges[k],
            ),
            ..self
        }
    }

    /// The graph without `entity`: it no longer lives, no edge starts or ends
    /// at it, and its payloads are gone. Despawning what does not live
    /// changes nothing.
    pub open spec fn despawn(self, entity: Entity) -> Graph {
        if self.live.contains(entity) {
            Graph {
                live: self.live.remove(entity),
                storage: Map::new(
                    |k: (Entity, RelationId)| true,
                    |k: (Entity, RelationId)|
                        if k.0 == entity {
                            Seq::empty()
                        } else {
                            self.storage[k]
                        },
                ),
                ..self.detach(entity)
            }
        } else {
            self
        }
    }

    /// Whether `foster` has any target of type `relation`.
    pub open spec fn has_target(self, foster: Entity, relation: RelationId) -> bool {
        exists|t: Entity| self.edge(foster, relation, t)
    }

    /// Whether a new edge `foster -> target` of type `relation` under `slot`
    /// keeps the graph valid.
    pub open spec fn can_link(
        self,
        foster: Entity,
        relation: RelationId,
        target: Entity,
        slot: usize,
    ) -> bool {
        &&& self.live.contains(foster)
        &&& self.live.contains(target)
        &&& self.kinds.contains_key(relation)
        &&& slot < self.storage[(foster, relation)].len()
        &&& self.exclusive(relation) ==> forall|t: Entity| #[trigger]
            self.edge(foster, relation, t) ==> t == target
    }

    /// Whether the storage of `(foster, relation)` can still grow by one
    /// payload.
    pub open spec fn storage_has_room(self, foster: Entity, relation: RelationId) -> bool {
        self.storage[(foster, relation)].len() < MAX_SLOTS
    }
}

/// A graph is valid whose edges are edges of a valid graph and sound in
/// it, and whose registry holds what the registry of that graph holds.
pub proof fn lemma_edges_within_wf(g: Graph, h: Graph)
    requires
        g.wf(),
        forall|e: Entity| #[trigger] h.live.contains(e) ==> e < h.size,
        forall|r: RelationId| #[trigger] h.kinds.contains_key(r) <==> r < h.registered,
        forall|r: RelationId| #[trigger]
            g.kinds.contains_key(r) ==> h.kinds.contains_key(r) && h.kinds[r] == g.kinds[r],
        forall|f: Entity, r: RelationId, t: Entity| #[trigger]
            h.edge(f, r, t) ==> g.edge(f, r, t) && h.edge_ok(f, r, t),
    ensures
        h.wf(),
{
    assert forall|f: Entity, r: RelationId, t1: Entity, t2: Entity|
        #![trigger h.edge(f, r, t1), h.edge(f, r, t2)]
        h.edge(f, r, t1) && h.edge(f, r, t2) && h.exclusive(r) implies t1 == t2 by {
        assert(g.edge(f, r, t1) && g.edge(f, r, t2));
        assert(g.edge_ok(f, r, t1));
    }
}

/// Spawning keeps a graph valid.
pub proof fn lemma_spawn_wf(g: Graph)
    requires
        g.wf(),
    ensures
        g.spawn().wf(),
{
    lemma_edges_within_wf(g, g.spawn());
}

/// Registering a relation type keeps a graph valid, as long as identifiers
/// are left.
pub proof fn lemma_register_wf(g: Graph, info: RelationInfo)
    requires
        g.wf(),
        g.registered < u64::MAX,
    ensures
        g.register(info).wf(),
{
    lemma_edges_within_wf(g, g.register(info));
}

/// Appending a payload keeps a graph valid.
pub proof fn lemma_push_payload_wf(g: Graph, foster: Entity, relation: RelationId, value: u64)
    requires
        g.wf(),
    ensures
        g.push_payload(foster, relation, value).wf(),
{
    lemma_edges_within_wf(g, g.push_payload(foster, relation, value));
}

/// Replacing a payload in an existing slot keeps a graph valid.
pub proof fn lemma_set_payload_wf(
    g: Graph,
    foster: Entity,
    relation: RelationId,
    slot: usize,
    value: u64,
)
    requires
        g.wf(),
        slot < g.storage[(foster, relation)].len(),
    ensures
        g.set_payload(foster, relation, slot, value).wf(),
{
    lemma_edges_within_wf(g, g.set_payload(foster, relation, slot, value));
}

/// Adding an edge that `can_link` admits keeps a graph valid.
pub proof fn lemma_link_wf(g: Graph, foster: Entity, relation: RelationId, target: Entity, slot: usize)
    requires
        g.wf(),
        g.can_link(foster, relation, target, slot),
    ensures
        g.link(foster, relation, target, slot).wf(),
{
    let h = g.link(foster, relation, target, slot);
    assert forall|f: Entity, r: RelationId, t: Entity| #[trigger] h.edge(f, r, t) implies h.edge_ok(
        f,
        r,
        t,
    ) by {
        if (f, r, t) != (foster, relation, target) {
            assert(g.edge(f, r, t));
        }
    }
    assert forall|f: Entity, r: RelationId, t1: Entity, t2: Entity|
        #![trigger h.edge(f, r, t1), h.edge(f, r, t2)]
        h.edge(f, r, t1) && h.edge(f, r, t2) && h.exclusive(r) implies t1 == t2 by {
        if (f, r, t1) != (foster, relation, target) {
            assert(g.edge(f, r, t1));
        }
        if (f, r, t2) != (foster, relation, target) {
            assert(g.edge(f, r, t2));
        }
    }
}

/// Removing an edge keeps a graph valid.
pub proof fn lemma_unlink_wf(g: Graph, foster: Entity, relation: RelationId, target: Entity)
    requires
        g.wf(),
    ensures
        g.unlink(foster, relation, target).wf(),
{
    lemma_edges_within_wf(g, g.unlink(foster, relation, target));
}

/// Despawning an entity keeps a graph valid: no edge is left that could
/// dangle.
pub proof fn lemma_despawn_wf(g: Graph, entity: Entity)
    requires
        g.wf(),
    ensures
        g.despawn(entity).wf(),
{
    lemma_edges_within_wf(g, g.despawn(entity));
}

} // verus!

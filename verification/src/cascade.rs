//! What a cascade does to the graph, as mathematics: the three kinds of
//! operation, the memo of ancestors that reparenting climbs through, and the
//! reachability that decides which entities a removal touches.

use crate::collections::{Entity, RelationId};
use crate::graph::{DespawnPolicy, Graph};
use vstd::prelude::*;

verus! {

/// One step of a cascade.
#[derive(Clone, Copy, PartialEq, Eq, Structural, Debug)]
pub enum Operation {
    /// Remove the entity from the store.
    Despawn(Entity),
    /// Remove the edge from the first entity (the parent) to the last (the
    /// child) of the given relation type.
    Delink(Entity, RelationId, Entity),
    /// Move the entity (the child) from its disappearing foster of the given
    /// relation type to that foster's nearest surviving ancestor.
    Reparent(Entity, RelationId),
}

impl Operation {
    /// The entity that an operation works from: the one to despawn, the
    /// parent of the edge to remove, the child to reparent.
    pub open spec fn origin(self) -> Entity {
        match self {
            Operation::Despawn(e) => e,
            Operation::Delink(p, _, _) => p,
            Operation::Reparent(c, _) => c,
        }
    }

    /// The entity that an operation works on: the one to despawn, the child
    /// of the edge to remove, the child to reparent.
    pub open spec fn aim(self) -> Entity {
        match self {
            Operation::Despawn(e) => e,
            Operation::Delink(_, _, c) => c,
            Operation::Reparent(c, _) => c,
        }
    }
}

/// Whether `entities` come in the order of `order`: none comes before
/// another whose place in `order` is earlier.
pub open spec fn follows(order: Seq<Entity>, entities: Seq<Entity>) -> bool {
    forall|i: int, j: int, a: int, b: int|
        #![trigger entities[i], entities[j], order[a], order[b]]
        0 <= i < j < entities.len() && 0 <= a < order.len() && 0 <= b < order.len() && order[a]
            == entities[i] && order[b] == entities[j] ==> a <= b
}

/// One despawn for each entity of `staged` but the first, in their order.
pub open spec fn despawns_after_first(staged: Seq<Entity>) -> Seq<Operation> {
    Seq::new(
        if staged.len() > 0 {
            (staged.len() - 1) as nat
        } else {
            0
        },
        |i: int| Operation::Despawn(staged[i + 1]),
    )
}

/// The lists of `blocks`, one after the other.
pub open spec fn flat(blocks: Seq<Seq<Operation>>) -> Seq<Operation>
    decreases blocks.len(),
{
    if blocks.len() == 0 {
        Seq::empty()
    } else {
        flat(blocks.drop_last()) + blocks.last()
    }
}

/// The memo of an ancestor search as a mathematical value: `(entity,
/// relation)` to the foster found for it together with the slot of the edge
/// that leads from that foster down, or to `None` where there is no foster
/// to climb to.
pub type Memo = Map<(Entity, RelationId), Option<(Entity, usize)>>;

/// The nearest ancestor of `entity` along `relation` that the memo does not
/// list, found by following the memo for at most `fuel` steps. `closest` is
/// the last ancestor passed so far. An entity without an entry ends the
/// climb at `closest`; an entry of `None` means that the chain ends without
/// a survivor; so does running out of fuel, which ends a climb that goes
/// in a circle.
pub open spec fn valid_parent(
    memo: Memo,
    entity: Entity,
    relation: RelationId,
    closest: Option<(Entity, usize)>,
    fuel: nat,
) -> Option<(Entity, usize)>
    decreases fuel,
{
    if fuel == 0 {
        None
    } else if !memo.contains_key((entity, relation)) {
        closest
    } else {
        match memo[(entity, relation)] {
            None => None,
            Some(up) => valid_parent(memo, up.0, relation, Some(up), (fuel - 1) as nat),
        }
    }
}

impl Graph {
    /// Whether `foster` is the one and only foster of `child` for
    /// `relation`.
    pub open spec fn is_sole_foster(self, child: Entity, relation: RelationId, foster: Entity) -> bool {
        &&& self.edge(foster, relation, child)
        &&& forall|f: Entity| #[trigger] self.edge(f, relation, child) ==> f == foster
    }

    /// The foster of `child` for `relation`, where it has exactly one.
    pub open spec fn sole_foster(self, child: Entity, relation: RelationId) -> Option<Entity> {
        if exists|p: Entity| self.is_sole_foster(child, relation, p) {
            Some(choose|p: Entity| self.is_sole_foster(child, relation, p))
        } else {
            None
        }
    }

    /// Whether `entity` has a target of type `relation` in the bucket of
    /// `policy`.
    pub open spec fn has_target_under(
        self,
        entity: Entity,
        relation: RelationId,
        policy: DespawnPolicy,
    ) -> bool {
        self.policy(relation) == policy && exists|t: Entity| self.edge(entity, relation, t)
    }

    /// What the memo records for `entity` and `relation`: the entry of the
    /// entity's only foster where the memo has one already, that foster
    /// itself with the slot of its edge to `entity` where it has not, and
    /// `None` where `entity` has no foster or several.
    pub open spec fn ascent(self, memo: Memo, entity: Entity, relation: RelationId) -> Option<
        (Entity, usize),
    > {
        match self.sole_foster(entity, relation) {
            Some(p) => if memo.contains_key((p, relation)) {
                memo[(p, relation)]
            } else {
                Some((p, self.edges[(p, relation, entity)]))
            },
            None => None,
        }
    }

    /// The memo after recording `entity`: one entry for each relation type
    /// under which `entity` has a target to be reparented, written over the
    /// entry that `entity` had for that relation type, if it had one. The
    /// entries of other entities stay as they are.
    pub open spec fn ascend(self, memo: Memo, entity: Entity) -> Memo {
        Map::new(
            |k: (Entity, RelationId)|
                memo.contains_key(k) || (k.0 == entity && self.has_target_under(
                    entity,
                    k.1,
                    DespawnPolicy::Reparent,
                )),
            |k: (Entity, RelationId)|
                if k.0 == entity && self.has_target_under(entity, k.1, DespawnPolicy::Reparent) {
                    self.ascent(memo, entity, k.1)
                } else {
                    memo[k]
                },
        )
    }

    /// The graph after reparenting `child` along `relation`. Nothing happens
    /// unless `relation` is registered with the policy `Reparent` and `child`
    /// has exactly one foster of that type. Then the edge from that foster
    /// goes, on both sides. An edge from the foster's nearest surviving
    /// ancestor takes its place where the memo leads to such an ancestor and
    /// the graph stays valid with the new edge; else `child` is left without
    /// a foster of that type.
    pub open spec fn reparent(self, memo: Memo, fuel: nat, child: Entity, relation: RelationId) -> Graph {
        if self.kinds.contains_key(relation) && self.policy(relation) == DespawnPolicy::Reparent {
            match self.sole_foster(child, relation) {
                Some(p) => {
                    let cut = self.unlink(p, relation, child);
                    match valid_parent(memo, p, relation, None, fuel) {
                        Some(up) => if cut.can_link(up.0, relation, child, up.1) {
                            cut.link(up.0, relation, child, up.1)
                        } else {
                            cut
                        },
                        None => cut,
                    }
                },
                None => self,
            }
        } else {
            self
        }
    }

    /// The graph after `child` is detached from the one foster that it has
    /// of type `relation`, a relation type registered with the policy
    /// `Reparent`. Nothing happens where `child` has no foster of that type
    /// or several.
    pub open spec fn orphaned(self, relation: RelationId, child: Entity) -> Graph {
        if self.kinds.contains_key(relation) && self.policy(relation) == DespawnPolicy::Reparent {
            match self.sole_foster(child, relation) {
                Some(p) => self.unlink(p, relation, child),
                None => self,
            }
        } else {
            self
        }
    }

    /// The graph after one operation.
    pub open spec fn apply(self, memo: Memo, fuel: nat, op: Operation) -> Graph {
        match op {
            Operation::Despawn(entity) => self.despawn(entity),
            Operation::Delink(parent, relation, child) => self.unlink(parent, relation, child),
            Operation::Reparent(child, relation) => self.reparent(memo, fuel, child, relation),
        }
    }

    /// The graph after a list of operations, applied first to last.
    pub open spec fn apply_all(self, memo: Memo, fuel: nat, ops: Seq<Operation>) -> Graph
        decreases ops.len(),
    {
        if ops.len() == 0 {
            self
        } else {
            self.apply_all(memo, fuel, ops.drop_last()).apply(memo, fuel, ops.last())
        }
    }

    /// Whether a walk may step from `from` to `to`: over an edge whose
    /// relation type has the policy `policy` and, where `only` names a
    /// relation type, is that type.
    pub open spec fn step(
        self,
        policy: DespawnPolicy,
        only: Option<RelationId>,
        from: Entity,
        to: Entity,
    ) -> bool {
        exists|r: RelationId| self.step_over(policy, only, from, r, to)
    }

    /// Whether the edge `from -> to` of type `r` is one that a walk may take.
    pub open spec fn step_over(
        self,
        policy: DespawnPolicy,
        only: Option<RelationId>,
        from: Entity,
        r: RelationId,
        to: Entity,
    ) -> bool {
        &&& self.edge(from, r, to)
        &&& self.policy(r) == policy
        &&& (only is None || only == Some(r))
    }

    /// Whether `path` is a walk from `root`: it starts there, every entity on
    /// it lives and is outside `blocked`, and each step is one that `step`
    /// admits.
    pub open spec fn is_walk(
        self,
        policy: DespawnPolicy,
        only: Option<RelationId>,
        blocked: Set<Entity>,
        root: Entity,
        path: Seq<Entity>,
    ) -> bool {
        &&& path.len() > 0
        &&& path[0] == root
        &&& forall|i: int|
            0 <= i < path.len() ==> self.live.contains(#[trigger] path[i]) && !blocked.contains(
                path[i],
            )
        &&& forall|i: int|
            0 <= i < path.len() - 1 ==> self.step(policy, only, #[trigger] path[i], path[i + 1])
    }

    /// Whether a walk from `root` reaches `entity`.
    pub open spec fn reaches(
        self,
        policy: DespawnPolicy,
        only: Option<RelationId>,
        blocked: Set<Entity>,
        root: Entity,
        entity: Entity,
    ) -> bool {
        exists|path: Seq<Entity>| #[trigger]
            self.is_walk(policy, only, blocked, root, path) && path.last() == entity
    }

    /// Whether a walk from `root` of at most `steps` steps reaches `entity`.
    pub open spec fn reaches_within(
        self,
        policy: DespawnPolicy,
        only: Option<RelationId>,
        blocked: Set<Entity>,
        root: Entity,
        entity: Entity,
        steps: nat,
    ) -> bool {
        exists|path: Seq<Entity>| #[trigger]
            self.is_walk(policy, only, blocked, root, path) && path.last() == entity && path.len()
                <= steps + 1
    }

    /// Whether `walk` is a breadth-first order of the entities that a walk
    /// from `root` reaches: it lists them once each, `root` first, and none
    /// before another that is reached within fewer steps.
    pub open spec fn is_breadth_first(
        self,
        policy: DespawnPolicy,
        only: Option<RelationId>,
        blocked: Set<Entity>,
        root: Entity,
        walk: Seq<Entity>,
    ) -> bool {
        &&& walk.no_duplicates()
        &&& forall|e: Entity| walk.contains(e) <==> self.reaches(policy, only, blocked, root, e)
        &&& walk.len() > 0 ==> walk[0] == root
        &&& forall|i: int, j: int, steps: nat|
            #![trigger walk[i], self.reaches_within(policy, only, blocked, root, walk[j], steps)]
            0 <= i < j < walk.len() && self.reaches_within(policy, only, blocked, root, walk[j], steps)
                ==> self.reaches_within(policy, only, blocked, root, walk[i], steps)
    }

    /// Whether despawning `root` despawns `entity` too: `entity` is `root`
    /// or is reached from it over edges whose policy is `RecursiveDespawn`.
    pub open spec fn doomed(self, root: Entity, entity: Entity) -> bool {
        self.reaches(DespawnPolicy::RecursiveDespawn, None, Set::empty(), root, entity)
    }

    /// The entities that despawning `root` despawns.
    pub open spec fn doomed_set(self, root: Entity) -> Set<Entity> {
        Set::new(|e: Entity| self.doomed(root, e))
    }

    /// Whether a walk from `root` over edges of type `relation`, whose policy
    /// is `RecursiveDelink`, reaches `entity` without entering `blocked`.
    pub open spec fn delink_reaches(
        self,
        blocked: Set<Entity>,
        root: Entity,
        relation: RelationId,
        entity: Entity,
    ) -> bool {
        self.reaches(DespawnPolicy::RecursiveDelink, Some(relation), blocked, root, entity)
    }

    /// Whether `op` removes an edge of type `relation` that leaves `root` or
    /// an entity which a walk from `root` over such edges reaches.
    pub open spec fn is_delink_below(
        self,
        blocked: Set<Entity>,
        root: Entity,
        relation: RelationId,
        op: Operation,
    ) -> bool {
        match op {
            Operation::Delink(e, r, c) => r == relation && self.delink_reaches(
                blocked,
                root,
                relation,
                e,
            ) && self.step_over(DespawnPolicy::RecursiveDelink, Some(relation), e, r, c),
            _ => false,
        }
    }

    /// Whether `found` is the list of delinks below `root` along `relation`
    /// that goes with the breadth-first order `walk`: one delink for each
    /// edge of that type that leaves an entity of the walk, the delinks of
    /// an entity that the walk enters earlier coming first.
    pub open spec fn delinks_in_order(
        self,
        blocked: Set<Entity>,
        root: Entity,
        relation: RelationId,
        walk: Seq<Entity>,
        found: Seq<Operation>,
    ) -> bool {
        &&& self.is_breadth_first(DespawnPolicy::RecursiveDelink, Some(relation), blocked, root, walk)
        &&& found.no_duplicates()
        &&& forall|op: Operation| #[trigger]
            found.contains(op) <==> self.is_delink_below(blocked, root, relation, op)
        &&& follows(walk, Seq::new(found.len(), |i: int| found[i].origin()))
    }

    /// Whether `found` is the list of delinks below `root` along `relation`:
    /// one delink for each edge of that type that leaves `root` or an
    /// entity reached from it over such edges, in breadth-first order, so
    /// that the delinks of an entity come before those of the entities
    /// below it.
    pub open spec fn delink_list(
        self,
        blocked: Set<Entity>,
        root: Entity,
        relation: RelationId,
        found: Seq<Operation>,
    ) -> bool {
        exists|walk: Seq<Entity>| #[trigger]
            self.delinks_in_order(blocked, root, relation, walk, found)
    }

    /// Whether `op` tells a surviving foster that its edge to a doomed
    /// entity is gone.
    pub open spec fn is_foster_cut(self, doomed: Set<Entity>, op: Operation) -> bool {
        match op {
            Operation::Delink(f, r, s) => doomed.contains(s) && !doomed.contains(f) && self.edge(
                f,
                r,
                s,
            ),
            _ => false,
        }
    }

    /// Whether the surviving entity `child` is the target of a doomed entity
    /// under `relation`, a relation type of the policy `policy`.
    pub open spec fn is_site(
        self,
        doomed: Set<Entity>,
        policy: DespawnPolicy,
        relation: RelationId,
        child: Entity,
    ) -> bool {
        !doomed.contains(child) && exists|s: Entity|
            doomed.contains(s) && #[trigger] self.step_over(policy, None, s, relation, child)
    }

    /// Whether `op` removes an edge below a surviving target of a doomed
    /// entity, along a relation type of the policy `RecursiveDelink`.
    pub open spec fn is_downstream_cut(self, doomed: Set<Entity>, op: Operation) -> bool {
        match op {
            Operation::Delink(e, r, c) => exists|site: Entity|
                #[trigger] self.is_site(doomed, DespawnPolicy::RecursiveDelink, r, site)
                    && self.is_delink_below(doomed, site, r, op),
            _ => false,
        }
    }

    /// Whether `op` reparents a surviving target of a doomed entity.
    pub open spec fn is_move(self, doomed: Set<Entity>, op: Operation) -> bool {
        match op {
            Operation::Reparent(c, r) => self.is_site(doomed, DespawnPolicy::Reparent, r, c),
            _ => false,
        }
    }

    /// Whether `op` despawns a doomed entity other than `root`.
    pub open spec fn is_removal(self, doomed: Set<Entity>, root: Entity, op: Operation) -> bool {
        match op {
            Operation::Despawn(s) => doomed.contains(s) && s != root,
            _ => false,
        }
    }

    /// The memo after recording the entities of `staged`, first to last.
    pub open spec fn ascend_all(self, memo: Memo, staged: Seq<Entity>) -> Memo
        decreases staged.len(),
    {
        if staged.len() == 0 {
            memo
        } else {
            self.ascend(self.ascend_all(memo, staged.drop_last()), staged.last())
        }
    }

    /// Whether `ops`, made of the four parts `cuts`, `downstream`, `moves`
    /// and `removals` in this order, is what despawning `root` entails, and
    /// `after` the memo that recording the doomed entities in the order
    /// `staged` makes of `before`:
    /// - `staged` lists the doomed entities once each in breadth-first
    ///   order, `root` first;
    /// - `cuts` delinks every doomed entity from its surviving fosters;
    /// - `downstream` delinks below every surviving target that a doomed
    ///   entity has along a relation type of the policy `RecursiveDelink`;
    /// - `moves` reparents every surviving target that a doomed entity has
    ///   along a relation type of the policy `Reparent`;
    /// - `removals` despawns every doomed entity but `root`.
    pub open spec fn plan_parts(
        self,
        root: Entity,
        before: Memo,
        after: Memo,
        ops: Seq<Operation>,
        staged: Seq<Entity>,
        cuts: Seq<Operation>,
        downstream: Seq<Operation>,
        moves: Seq<Operation>,
        removals: Seq<Operation>,
    ) -> bool {
        let doomed = self.doomed_set(root);
        &&& ops == cuts + downstream + moves + removals
        &&& self.is_breadth_first(DespawnPolicy::RecursiveDespawn, None, Set::empty(), root, staged)
        &&& after == self.ascend_all(before, staged)
        &&& forall|op: Operation| #[trigger] cuts.contains(op) <==> self.is_foster_cut(doomed, op)
        &&& forall|op: Operation| #[trigger]
            downstream.contains(op) <==> self.is_downstream_cut(doomed, op)
        &&& forall|op: Operation| #[trigger] moves.contains(op) <==> self.is_move(doomed, op)
        &&& forall|op: Operation| #[trigger]
            removals.contains(op) <==> self.is_removal(doomed, root, op)
    }

    /// Whether the four parts of a plan list each operation as often as it
    /// is due, in the order of `staged`:
    /// - `cuts` holds one delink for each edge from a surviving foster to a
    ///   doomed entity, those to an entity staged earlier first;
    /// - `downstream` is made of one list of delinks for each edge of `sites`,
    ///   the edges from a doomed entity to a surviving target along a
    ///   relation type of the policy `RecursiveDelink`, those from an entity
    ///   staged earlier first; `blocks` holds these lists, each the delinks
    ///   below the target of its edge;
    /// - `moves` holds one reparenting for each edge from a doomed entity to
    ///   a surviving target along a relation type of the policy `Reparent`,
    ///   those from an entity staged earlier first; `fosters` holds the
    ///   doomed entity of each;
    /// - `removals` holds one despawn for each staged entity but the first,
    ///   in the order of `staged`.
    ///
    /// The despawns come last. A despawn takes the edges of its entity with
    /// it, and a reparenting finds the foster to climb from by the edge that
    /// still leads from it to the child.
    pub open spec fn plan_order(
        self,
        root: Entity,
        staged: Seq<Entity>,
        cuts: Seq<Operation>,
        downstream: Seq<Operation>,
        moves: Seq<Operation>,
        removals: Seq<Operation>,
        sites: Seq<(Entity, RelationId, Entity)>,
        blocks: Seq<Seq<Operation>>,
        fosters: Seq<Entity>,
    ) -> bool {
        let doomed = self.doomed_set(root);
        &&& cuts.no_duplicates()
        &&& follows(staged, Seq::new(cuts.len(), |i: int| cuts[i].aim()))
        &&& sites.no_duplicates()
        &&& forall|site: (Entity, RelationId, Entity)| #[trigger]
            sites.contains(site) <==> doomed.contains(site.0) && !doomed.contains(site.2)
                && self.step_over(DespawnPolicy::RecursiveDelink, None, site.0, site.1, site.2)
        &&& follows(staged, Seq::new(sites.len(), |i: int| sites[i].0))
        &&& blocks.len() == sites.len()
        &&& forall|i: int|
            0 <= i < sites.len() ==> self.delink_list(
                doomed,
                sites[i].2,
                sites[i].1,
                #[trigger] blocks[i],
            )
        &&& downstream == flat(blocks)
        &&& fosters.len() == moves.len()
        &&& forall|i: int|
            0 <= i < moves.len() ==> doomed.contains(#[trigger] fosters[i]) && !doomed.contains(
                moves[i].aim(),
            ) && (exists|r: RelationId|
                moves[i] == Operation::Reparent(moves[i].aim(), r) && self.step_over(
                    DespawnPolicy::Reparent,
                    None,
                    fosters[i],
                    r,
                    moves[i].aim(),
                ))
        &&& forall|i: int, j: int|
            0 <= i < j < moves.len() ==> !(#[trigger] fosters[i] == #[trigger] fosters[j]
                && moves[i] == moves[j])
        &&& follows(staged, fosters)
        &&& removals == despawns_after_first(staged)
    }

    /// Whether `ops` is what despawning `root` entails, with `after` the
    /// memo made of `before` on the way.
    pub open spec fn despawn_plan(
        self,
        root: Entity,
        before: Memo,
        after: Memo,
        ops: Seq<Operation>,
    ) -> bool {
        exists|
            staged: Seq<Entity>,
            cuts: Seq<Operation>,
            downstream: Seq<Operation>,
            moves: Seq<Operation>,
            removals: Seq<Operation>,
            sites: Seq<(Entity, RelationId, Entity)>,
            blocks: Seq<Seq<Operation>>,
            fosters: Seq<Entity>,
        |
            #![trigger self.plan_parts(root, before, after, ops, staged, cuts, downstream, moves, removals), self.plan_order(root, staged, cuts, downstream, moves, removals, sites, blocks, fosters)]
            self.plan_parts(root, before, after, ops, staged, cuts, downstream, moves, removals)
                && self.plan_order(
                root,
                staged,
                cuts,
                downstream,
                moves,
                removals,
                sites,
                blocks,
                fosters,
            )
    }

    /// Whether `ops`, with the memo `memo` and `fuel` steps to climb it, is
    /// what the resolver collects for `trigger` under `policy`:
    /// - for the despawn of an entity, what that despawn entails but the
    ///   despawn of the entity itself;
    /// - for the removal of an edge, by the policy of its relation type:
    ///   what despawning the child entails and then the despawn of the
    ///   child, or the delinks below the child, or the reparenting of the
    ///   child, or nothing;
    /// - for a reparenting, the removal of the child's edge from its only
    ///   foster.
    pub open spec fn resolves(
        self,
        policy: DespawnPolicy,
        trigger: Operation,
        ops: Seq<Operation>,
        memo: Memo,
        fuel: nat,
    ) -> bool {
        &&& climbable(memo, fuel)
        &&& match trigger {
            Operation::Despawn(root) => self.despawn_plan(root, Map::empty(), memo, ops),
            Operation::Delink(_parent, relation, child) => match policy {
                DespawnPolicy::RecursiveDespawn => ops.len() > 0 && ops.last() == Operation::Despawn(
                    child,
                ) && self.despawn_plan(child, Map::empty(), memo, ops.drop_last()),
                DespawnPolicy::RecursiveDelink => memo == Map::<
                    (Entity, RelationId),
                    Option<(Entity, usize)>,
                >::empty() && self.delink_list(Set::empty(), child, relation, ops),
                DespawnPolicy::Reparent => memo == Map::<
                    (Entity, RelationId),
                    Option<(Entity, usize)>,
                >::empty() && ops == seq![Operation::Reparent(child, relation)],
                DespawnPolicy::Orphan => memo == Map::<
                    (Entity, RelationId),
                    Option<(Entity, usize)>,
                >::empty() && ops == Seq::<Operation>::empty(),
            },
            Operation::Reparent(child, relation) => memo == Map::<
                (Entity, RelationId),
                Option<(Entity, usize)>,
            >::empty() && ops == (match self.sole_foster(child, relation) {
                Some(p) => seq![Operation::Delink(p, relation, child)],
                None => Seq::<Operation>::empty(),
            }),
        }
    }

    /// Whether `after` is this graph once `root` is despawned with all that
    /// this entails:
    /// - the registry and the identifiers handed out are as before;
    /// - exactly the entities live that lived before and are not doomed;
    /// - the survivors keep their payloads, the doomed have none;
    /// - an edge between survivors stays in place, in its slot, unless it
    ///   is delinked below a doomed entity or its target is reparented;
    /// - no edge is new but to a survivor that is reparented;
    /// - below a surviving target that a doomed entity has along a relation
    ///   type of the policy `RecursiveDelink`, no edge of that type is left;
    /// - a survivor whose one foster along a relation type of the policy
    ///   `Reparent` is doomed has that foster's one foster as its one
    ///   foster, where that one survives, in the slot of the edge to the
    ///   doomed foster, and no foster of that type where the doomed foster
    ///   had none or several.
    pub open spec fn despawned(self, root: Entity, after: Graph) -> bool {
        let doomed = self.doomed_set(root);
        &&& after.size == self.size
        &&& after.registered == self.registered
        &&& after.kinds == self.kinds
        &&& forall|e: Entity| #[trigger]
            after.live.contains(e) <==> self.live.contains(e) && !self.doomed(root, e)
        &&& forall|e: Entity, r: RelationId| #[trigger]
            after.storage[(e, r)] == (if self.doomed(root, e) {
                Seq::empty()
            } else {
                self.storage[(e, r)]
            })
        &&& forall|f: Entity, r: RelationId, t: Entity| #[trigger]
            self.edge(f, r, t) && !self.doomed(root, f) && !self.doomed(root, t)
                && !self.is_downstream_cut(doomed, Operation::Delink(f, r, t)) && !self.is_site(
                doomed,
                DespawnPolicy::Reparent,
                r,
                t,
            ) ==> after.edge(f, r, t) && after.edges[(f, r, t)] == self.edges[(f, r, t)]
        &&& forall|f: Entity, r: RelationId, t: Entity| #[trigger]
            after.edge(f, r, t) && !self.edge(f, r, t) ==> self.is_site(
                doomed,
                DespawnPolicy::Reparent,
                r,
                t,
            )
        &&& forall|site: Entity, r: RelationId, e: Entity, c: Entity|
            #![trigger self.delink_reaches(doomed, site, r, e), after.edge(e, r, c)]
            self.is_site(doomed, DespawnPolicy::RecursiveDelink, r, site) && self.delink_reaches(
                doomed,
                site,
                r,
                e,
            ) ==> !after.edge(e, r, c)
        &&& forall|child: Entity, r: RelationId, parent: Entity| #[trigger]
            self.is_sole_foster(child, r, parent) && self.policy(r) == DespawnPolicy::Reparent
                && self.doomed(root, parent) && !self.doomed(root, child) ==> (
            match self.sole_foster(parent, r) {
                Some(grand) => !self.doomed(root, grand) ==> after.is_sole_foster(child, r, grand)
                    && after.edges[(grand, r, child)] == self.edges[(grand, r, parent)],
                None => forall|f: Entity| !after.edge(f, r, child),
            })
    }

    /// Whether `after` is this graph once every edge of type `relation` is
    /// gone that leaves `child` or an entity reached from it over such
    /// edges, `relation` having the policy `RecursiveDelink`.
    pub open spec fn delinked(self, child: Entity, relation: RelationId, after: Graph) -> bool {
        &&& after.size == self.size
        &&& after.live == self.live
        &&& after.registered == self.registered
        &&& after.kinds == self.kinds
        &&& after.storage == self.storage
        &&& forall|x: Entity, q: RelationId, y: Entity| #[trigger]
            after.edge(x, q, y) <==> self.edge(x, q, y) && !self.is_delink_below(
                Set::empty(),
                child,
                relation,
                Operation::Delink(x, q, y),
            )
        &&& forall|x: Entity, q: RelationId, y: Entity| #[trigger]
            after.edge(x, q, y) ==> after.edges[(x, q, y)] == self.edges[(x, q, y)]
    }

    /// Whether `after` is this graph once the cascade has run that the
    /// removal of an edge of type `relation` to `child` sets off under
    /// `policy`: `child` despawned with all that this entails, or the edges
    /// below `child` delinked, or `child` detached from the one foster that
    /// it has left, or nothing changed.
    pub open spec fn resolved(
        self,
        policy: DespawnPolicy,
        relation: RelationId,
        child: Entity,
        after: Graph,
    ) -> bool {
        match policy {
            DespawnPolicy::RecursiveDespawn => self.despawned(child, after),
            DespawnPolicy::RecursiveDelink => self.delinked(child, relation, after),
            DespawnPolicy::Reparent => after == self.orphaned(relation, child),
            DespawnPolicy::Orphan => after == self,
        }
    }
}

/// Whether `fuel` is the number of steps that a climb through `memo` is
/// given: one more than the memo has entries, as far as a `usize` counts.
pub open spec fn climbable(memo: Memo, fuel: nat) -> bool {
    memo.dom().finite() && (fuel == memo.dom().len() + 1 || fuel == usize::MAX)
}

/// Entities that stand in `order` at places that never fall come in the
/// order of `order`.
pub proof fn lemma_follows(order: Seq<Entity>, entities: Seq<Entity>, at: Seq<int>)
    requires
        order.no_duplicates(),
        at.len() == entities.len(),
        forall|n: int|
            0 <= n < at.len() ==> 0 <= #[trigger] at[n] < order.len() && order[at[n]] == entities[n],
        forall|n: int, m: int| 0 <= n < m < at.len() ==> at[n] <= at[m],
    ensures
        follows(order, entities),
{
    assert forall|i: int, j: int, a: int, b: int|
        #![trigger entities[i], entities[j], order[a], order[b]]
        0 <= i < j < entities.len() && 0 <= a < order.len() && 0 <= b < order.len() && order[a]
            == entities[i] && order[b] == entities[j] implies a <= b by {
        assert(order[at[i]] == order[a]);
        assert(order[at[j]] == order[b]);
        assert(at[i] <= at[j]);
    }
}

/// Appending an item to a sequence adds that item to what it contains and
/// nothing else.
pub proof fn lemma_contains_push<A>(s: Seq<A>, y: A)
    ensures
        forall|x: A| #[trigger] s.push(y).contains(x) <==> s.contains(x) || x == y,
{
    assert forall|x: A| #[trigger] s.push(y).contains(x) <==> s.contains(x) || x == y by {
        if s.contains(x) {
            let i = choose|i: int| 0 <= i < s.len() && s[i] == x;
            assert(s.push(y)[i] == x);
        }
        if x == y {
            assert(s.push(y)[s.len() as int] == y);
        }
        if s.push(y).contains(x) {
            let i = choose|i: int| 0 <= i < s.push(y).len() && s.push(y)[i] == x;
            if i < s.len() {
                assert(s[i] == x);
            }
        }
    }
}

/// A concatenation contains what either part contains.
pub proof fn lemma_contains_add<A>(a: Seq<A>, b: Seq<A>)
    ensures
        forall|x: A| #[trigger] (a + b).contains(x) <==> a.contains(x) || b.contains(x),
{
    assert forall|x: A| #[trigger] (a + b).contains(x) <==> a.contains(x) || b.contains(x) by {
        if a.contains(x) {
            let i = choose|i: int| 0 <= i < a.len() && a[i] == x;
            assert((a + b)[i] == x);
        }
        if b.contains(x) {
            let i = choose|i: int| 0 <= i < b.len() && b[i] == x;
            assert((a + b)[a.len() + i] == x);
        }
        if (a + b).contains(x) {
            let i = choose|i: int| 0 <= i < (a + b).len() && (a + b)[i] == x;
            if i < a.len() {
                assert(a[i] == x);
            } else {
                assert(b[i - a.len()] == x);
            }
        }
    }
}

} // verus!

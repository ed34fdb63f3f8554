//! The query algebra: a base query over the entities of a store, joins
//! attached to it by relation type, an optional breadth-first walk in place
//! of the plain iteration, and the iteration itself.

use crate::collections::{entity_set_members, entity_set_new, Entity, RelationId};
use crate::graph::{DespawnPolicy, Graph};
use crate::joins::{ControlFlow, Join, Joinable, Joined};
use crate::rows::{
    deep, lemma_taken_add, lemma_taken_bound, product, rows_with, stopped, taken, visit_product,
    RowView, Visitor,
};
use crate::walk::breadth_first_walk;
use crate::world::World;
use vstd::prelude::*;

verus! {

/// A base query: the entities of a store that match some pattern, in the
/// order in which the store hands them out.
pub struct Query<'w> {
    pub world: &'w World,
    pub matched: Vec<Entity>,
}

/// The walk that takes the place of the plain iteration of a base query:
/// breadth-first from `start` along the edges of type `relation`.
#[derive(Clone, Copy, PartialEq, Eq, Structural, Debug)]
pub struct BreadthFirst {
    pub start: Entity,
    pub relation: RelationId,
}

/// A query under construction: a base query, the joins attached to it and,
/// where one was asked for, a traversal.
pub struct Ops<'q, 'w, 'a, J> {
    pub query: &'q Query<'w>,
    pub joins: Vec<Join<'a, J>>,
    pub traversal: Option<BreadthFirst>,
}

/// The joins `joins` with `join` attached: in place of the first join on
/// the same relation type where there is one, else behind the others.
pub open spec fn attached<'a, J>(joins: Seq<Join<'a, J>>, join: Join<'a, J>) -> Seq<Join<'a, J>>
    decreases joins.len(),
{
    if joins.len() == 0 {
        seq![join]
    } else if joins[0].relation == join.relation {
        seq![join] + joins.drop_first()
    } else {
        seq![joins[0]] + attached(joins.drop_first(), join)
    }
}

/// Attaching a join where no join up to `at` is on its relation type
/// replaces the join at `at` if that one is, and appends where `at` is the
/// end.
pub proof fn lemma_attached<'a, J>(joins: Seq<Join<'a, J>>, join: Join<'a, J>, at: int)
    requires
        0 <= at <= joins.len(),
        forall|k: int| 0 <= k < at ==> (#[trigger] joins[k]).relation != join.relation,
        at < joins.len() ==> joins[at].relation == join.relation,
    ensures
        attached(joins, join) == (if at < joins.len() {
            joins.update(at, join)
        } else {
            joins.push(join)
        }),
    decreases joins.len(),
{
    if joins.len() == 0 {
        assert(joins.push(join) =~= seq![join]);
    } else if at == 0 {
        assert(seq![join] + joins.drop_first() =~= joins.update(0, join));
    } else {
        let rest = joins.drop_first();
        assert(joins[0].relation != join.relation);
        assert forall|k: int| 0 <= k < at - 1 implies (#[trigger] rest[k]).relation
            != join.relation by {
            assert(rest[k] == joins[k + 1]);
        }
        lemma_attached(rest, join, at - 1);
        if at < joins.len() {
            assert(seq![joins[0]] + rest.update(at - 1, join) =~= joins.update(at, join));
        } else {
            assert(seq![joins[0]] + rest.push(join) =~= joins.push(join));
        }
    }
}

/// The entities of `walk` that are among `allowed`, in the order of `walk`.
pub open spec fn keep(walk: Seq<Entity>, allowed: Seq<Entity>) -> Seq<Entity>
    decreases walk.len(),
{
    if walk.len() == 0 {
        Seq::empty()
    } else if allowed.contains(walk.last()) {
        keep(walk.drop_last(), allowed).push(walk.last())
    } else {
        keep(walk.drop_last(), allowed)
    }
}

/// The rows for the base entities `bases`, one after the other, where
/// `lists[k]` holds for the base entity `k` what each join keeps.
pub open spec fn gather<T>(bases: Seq<Entity>, lists: Seq<Seq<Seq<Joined<T>>>>) -> Seq<RowView<T>>
    decreases bases.len(),
{
    if bases.len() == 0 || lists.len() == 0 {
        Seq::empty()
    } else {
        gather(bases.drop_last(), lists.drop_last()) + rows_with(
            bases.last(),
            Seq::empty(),
            product(lists.last()),
        )
    }
}

/// Whether `entity` is among `items`.
pub fn is_among(items: &Vec<Entity>, entity: Entity) -> (found: bool)
    ensures
        found == items@.contains(entity),
{
    let mut i: usize = 0;
    while i < items.len()
        invariant
            i <= items.len(),
            forall|k: int| 0 <= k < i ==> items@[k] != entity,
        decreases items.len() - i,
    {
        if items[i] == entity {
            return true;
        }
        i += 1;
    }
    false
}

impl<'w> Query<'w> {
    /// The base query over `world` that matches the entities `matched`.
    pub fn new(world: &'w World, matched: Vec<Entity>) -> (query: Query<'w>)
        ensures
            query.world == world,
            query.matched == matched,
    {
        Query { world, matched }
    }

    /// Starts a query on this base query, without joins or traversal.
    pub fn ops<'q, 'a, J: Joinable>(&'q self) -> (ops: Ops<'q, 'w, 'a, J>)
        ensures
            ops.query == self,
            ops.joins@ == Seq::<Join<'a, J>>::empty(),
            ops.traversal is None,
    {
        Ops { query: self, joins: Vec::new(), traversal: None }
    }

    /// Starts a query on this base query, which nothing else can use in the
    /// meantime, without joins or traversal.
    pub fn ops_mut<'q, 'a, J: Joinable>(&'q mut self) -> (ops: Ops<'q, 'w, 'a, J>)
        ensures
            *ops.query == *old(self),
            ops.joins@ == Seq::<Join<'a, J>>::empty(),
            ops.traversal is None,
    {
        Ops { query: self, joins: Vec::new(), traversal: None }
    }
}

impl<'q, 'w, 'a, J: Joinable> Ops<'q, 'w, 'a, J> {
    /// Attaches `join`.
    fn attach(self, join: Join<'a, J>) -> (ops: Ops<'q, 'w, 'a, J>)
        ensures
            ops.query == self.query,
            ops.traversal == self.traversal,
            ops.joins@ == attached(self.joins@, join),
    {
        let ghost before = self.joins@;
        let mut ops = self;
        let mut i: usize = 0;
        while i < ops.joins.len()
            invariant
                i <= ops.joins.len(),
                ops.joins@ == before,
                before == self.joins@,
                ops.query == self.query,
                ops.traversal == self.traversal,
                forall|k: int| 0 <= k < i ==> (#[trigger] before[k]).relation != join.relation,
            decreases ops.joins.len() - i,
        {
            if ops.joins[i].relation == join.relation {
                proof {
                    lemma_attached(before, join, i as int);
                }
                ops.joins[i] = join;
                proof {
                    assert(ops.joins@ =~= before.update(i as int, join));
                }
                return ops;
            }
            i += 1;
        }
        proof {
            lemma_attached(before, join, before.len() as int);
        }
        ops.joins.push(join);
        ops
    }

    /// Joins the relation type `relation` against `source`: an edge of that
    /// type is followed only where `source` holds its target, and yields
    /// what `source` holds for the target. The payload of the edge is
    /// discarded. A join on the same relation type that was attached before
    /// is replaced.
    pub fn join(self, relation: RelationId, source: &'a J) -> (ops: Ops<'q, 'w, 'a, J>)
        ensures
            ops.query == self.query,
            ops.traversal == self.traversal,
            ops.joins@ == attached(self.joins@, (Join { relation, total: false, source })),
    {
        self.attach(Join { relation, total: false, source })
    }

    /// Joins the relation type `relation` against `source` as `join` does,
    /// but retains the payload of the edge beside what `source` holds.
    pub fn total_join(self, relation: RelationId, source: &'a J) -> (ops: Ops<'q, 'w, 'a, J>)
        ensures
            ops.query == self.query,
            ops.traversal == self.traversal,
            ops.joins@ == attached(self.joins@, (Join { relation, total: true, source })),
    {
        self.attach(Join { relation, total: true, source })
    }

    /// The policy under which a traversal follows `relation`: that of the
    /// relation type, or `Orphan` for one that is not registered, which has
    /// no edges.
    pub open spec fn bucket_of(g: Graph, relation: RelationId) -> DespawnPolicy {
        if g.kinds.contains_key(relation) {
            g.policy(relation)
        } else {
            DespawnPolicy::Orphan
        }
    }

    /// Whether `walk` is a breadth-first order of the entities that a walk
    /// from `start` along edges of type `relation` reaches: it lists them
    /// once each, `start` first, and none before another that is reached
    /// within fewer steps.
    pub open spec fn is_traversal(g: Graph, start: Entity, relation: RelationId, walk: Seq<Entity>) -> bool {
        g.is_breadth_first(Self::bucket_of(g, relation), Some(relation), Set::empty(), start, walk)
    }

    /// Whether `bases` is a sequence of base entities that the query may go
    /// through: those of the base query in their order or, with a
    /// traversal, those of the walk that the base query matches, in the
    /// order of the walk.
    pub open spec fn walks(&self, bases: Seq<Entity>) -> bool {
        match self.traversal {
            None => bases == self.query.matched@,
            Some(bf) => exists|walk: Seq<Entity>| #[trigger]
                Self::is_traversal(self.query.world@, bf.start, bf.relation, walk) && bases == keep(
                    walk,
                    self.query.matched@,
                ),
        }
    }

    /// Whether `lists` holds, join by join, what the joins keep for
    /// `entity`.
    pub open spec fn keeps_all(&self, entity: Entity, lists: Seq<Seq<Joined<J::Out>>>) -> bool {
        &&& lists.len() == self.joins@.len()
        &&& forall|d: int|
            0 <= d < self.joins@.len() ==> self.joins@[d].keeps(
                self.query.world@,
                entity,
                #[trigger] lists[d],
            )
    }

    /// Whether `order` holds the rows of the first `lists.len()` of the
    /// base entities `bases`, which the query may go through, with `lists`
    /// holding what the joins keep for each of them.
    pub open spec fn yields(
        &self,
        bases: Seq<Entity>,
        lists: Seq<Seq<Seq<Joined<J::Out>>>>,
        order: Seq<RowView<J::Out>>,
    ) -> bool {
        &&& self.walks(bases)
        &&& lists.len() <= bases.len()
        &&& forall|k: int| 0 <= k < lists.len() ==> self.keeps_all(bases[k], #[trigger] lists[k])
        &&& order == gather(bases.take(lists.len() as int), lists)
    }

    /// Replaces the plain iteration of the base query by a breadth-first
    /// walk from `start` along the edges of type `relation`. The walk goes
    /// through every entity that it reaches; the base query decides which of
    /// them yield rows.
    pub fn breadth_first(self, start: Entity, relation: RelationId) -> (ops: Ops<'q, 'w, 'a, J>)
        ensures
            ops.query == self.query,
            ops.joins == self.joins,
            ops.traversal == Some(BreadthFirst { start, relation }),
    {
        Ops { query: self.query, joins: self.joins, traversal: Some(BreadthFirst { start, relation }) }
    }

    /// The base entities that the query goes through, in order.
    pub fn bases(&self) -> (bases: Vec<Entity>)
        requires
            self.query.world.wf(),
        ensures
            self.walks(bases@),
    {
        let mut bases: Vec<Entity> = Vec::new();
        match &self.traversal {
            None => {
                let mut i: usize = 0;
                while i < self.query.matched.len()
                    invariant
                        i <= self.query.matched.len(),
                        bases@ == self.query.matched@.take(i as int),
                    decreases self.query.matched.len() - i,
                {
                    bases.push(self.query.matched[i]);
                    proof {
                        assert(bases@ =~= self.query.matched@.take(i + 1));
                    }
                    i += 1;
                }
                proof {
                    assert(self.query.matched@.take(self.query.matched.len() as int)
                        =~= self.query.matched@);
                }
            },
            Some(bf) => {
                let policy = match self.query.world.relation_info(bf.relation) {
                    Some(info) => info.policy,
                    None => DespawnPolicy::Orphan,
                };
                let nothing = entity_set_new();
                let walk = breadth_first_walk(
                    self.query.world,
                    bf.start,
                    policy,
                    Some(bf.relation),
                    &nothing,
                );
                proof {
                    assert(entity_set_members(nothing) =~= Set::<Entity>::empty());
                    assert(Self::is_traversal(self.query.world@, bf.start, bf.relation, walk@));
                }
                let mut i: usize = 0;
                while i < walk.len()
                    invariant
                        i <= walk.len(),
                        bases@ == keep(walk@.take(i as int), self.query.matched@),
                    decreases walk.len() - i,
                {
                    proof {
                        let next = walk@.take(i + 1);
                        assert(next.drop_last() =~= walk@.take(i as int));
                        assert(next.last() == walk@[i as int]);
                    }
                    if is_among(&self.query.matched, walk[i]) {
                        bases.push(walk[i]);
                    }
                    i += 1;
                }
                proof {
                    assert(walk@.take(walk.len() as int) =~= walk@);
                }
            },
        }
        bases
    }

    /// What each join keeps for `entity`, join by join.
    pub fn matches(&self, entity: Entity) -> (lists: Vec<Vec<Joined<J::Out>>>)
        requires
            self.query.world.wf(),
        ensures
            self.keeps_all(entity, deep(lists@)),
    {
        let mut lists: Vec<Vec<Joined<J::Out>>> = Vec::new();
        let mut d: usize = 0;
        while d < self.joins.len()
            invariant
                d <= self.joins.len(),
                lists.len() == d,
                self.query.world.wf(),
                forall|k: int|
                    0 <= k < d ==> self.joins@[k].keeps(
                        self.query.world@,
                        entity,
                        (#[trigger] lists@[k])@,
                    ),
            decreases self.joins.len() - d,
        {
            let list = self.joins[d].matches(self.query.world, entity);
            lists.push(list);
            d += 1;
        }
        proof {
            assert forall|k: int| 0 <= k < self.joins@.len() implies self.joins@[k].keeps(
                self.query.world@,
                entity,
                #[trigger] deep(lists@)[k],
            ) by {
                assert(deep(lists@)[k] == lists@[k]@);
            }
        }
        lists
    }
}

/// What can hand its rows to a visitor.
pub trait ForEachPermutations<T> {
    /// Whether the rows can be handed out.
    spec fn ready(&self) -> bool;

    /// Whether `order` is a sequence of rows that may be handed out, from
    /// the first row on; `whole` says whether it goes up to the last.
    spec fn admits(&self, order: Seq<RowView<T>>, whole: bool) -> bool;

    /// Hands the visitor the rows, one at a time and in order, until it
    /// asks to stop or the rows are at their end.
    fn for_each<V: Visitor<T>>(self, visitor: &mut V)
        requires
            self.ready(),
        ensures
            exists|order: Seq<RowView<T>>, whole: bool|
                {
                    &&& #[trigger] self.admits(order, whole)
                    &&& whole || stopped::<T, V>(old(visitor).seen(), order)
                    &&& final(visitor).seen() == old(visitor).seen() + order.take(
                        taken::<T, V>(old(visitor).seen(), order) as int,
                    )
                },
    ;
}

impl<'q, 'w, 'a, J: Joinable> ForEachPermutations<J::Out> for Ops<'q, 'w, 'a, J> {
    open spec fn ready(&self) -> bool {
        self.query.world.wf()
    }

    open spec fn admits(&self, order: Seq<RowView<J::Out>>, whole: bool) -> bool {
        exists|bases: Seq<Entity>, lists: Seq<Seq<Seq<Joined<J::Out>>>>|
            #[trigger] self.yields(bases, lists, order) && (whole ==> lists.len() == bases.len())
    }

    fn for_each<V: Visitor<J::Out>>(self, visitor: &mut V) {
        let ghost seen = visitor.seen();
        let bases = self.bases();
        let ghost mut lists: Seq<Seq<Seq<Joined<J::Out>>>> = Seq::empty();
        let mut k: usize = 0;
        proof {
            assert(bases@.take(0) =~= Seq::<Entity>::empty());
            assert(seen + Seq::<RowView<J::Out>>::empty() =~= seen);
        }
        while k < bases.len()
            invariant
                k <= bases.len(),
                self.query.world.wf(),
                self.walks(bases@),
                seen == old(visitor).seen(),
                lists.len() == k,
                forall|i: int| 0 <= i < k ==> self.keeps_all(bases@[i], #[trigger] lists[i]),
                visitor.seen() == seen + gather(bases@.take(k as int), lists),
                !stopped::<J::Out, V>(seen, gather(bases@.take(k as int), lists)),
            decreases bases.len() - k,
        {
            let entity = bases[k];
            let found = self.matches(entity);
            let mut chosen: Vec<Joined<J::Out>> = Vec::new();
            let ghost done = gather(bases@.take(k as int), lists);
            let ghost block = rows_with(entity, Seq::empty(), product(deep(found@)));
            let ghost grown = lists.push(deep(found@));
            let flow = visit_product(entity, &found, 0, &mut chosen, visitor);
            proof {
                assert(deep(found@).skip(0) =~= deep(found@));
                let upto = bases@.take(k + 1);
                assert(upto.drop_last() =~= bases@.take(k as int));
                assert(upto.last() == entity);
                assert(grown.drop_last() =~= lists);
                assert(grown.last() == deep(found@));
                assert(gather(upto, grown) == done + block);
                lemma_taken_add::<J::Out, V>(seen, done, block);
                lemma_taken_bound::<J::Out, V>(seen, done);
                lemma_taken_bound::<J::Out, V>(seen + done, block);
                let n = taken::<J::Out, V>(seen + done, block);
                assert((done + block).take(done.len() + n as int) =~= done + block.take(n as int));
                assert(visitor.seen() =~= seen + (done + block).take(
                    taken::<J::Out, V>(seen, done + block) as int,
                ));
                assert forall|i: int| 0 <= i < k + 1 implies self.keeps_all(
                    bases@[i],
                    #[trigger] grown[i],
                ) by {
                    if i < k {
                        assert(grown[i] == lists[i]);
                    }
                }
                lists = grown;
            }
            if flow == ControlFlow::Exit {
                proof {
                    let order = gather(bases@.take(k + 1), lists);
                    assert(self.yields(bases@, lists, order));
                    assert(self.admits(order, false));
                }
                return ;
            }
            proof {
                lemma_taken_bound::<J::Out, V>(seen, done + block);
                assert((done + block).take((done + block).len() as int) =~= done + block);
            }
            k += 1;
        }
        proof {
            let order = gather(bases@.take(k as int), lists);
            lemma_taken_bound::<J::Out, V>(seen, order);
            assert(order.take(order.len() as int) =~= order);
            assert(self.yields(bases@, lists, order));
            assert(self.admits(order, true));
        }
    }
}

} // verus!

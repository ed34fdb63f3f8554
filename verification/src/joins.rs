//! Joins over the edges of a base query: for every base entity, the
//! cartesian product of its edges of the joined relation types, each edge
//! kept only where the joined source holds its target.

use crate::collections::{Entity, RelationId};
use crate::graph::Graph;
use crate::sealed::Sealed;
use crate::world::World;
use vstd::prelude::*;

verus! {

/// What a visitor answers to a row: go on, or end the whole iteration.
#[derive(Clone, Copy, PartialEq, Eq, Structural, Debug)]
pub enum ControlFlow {
    Continue,
    Exit,
}

impl From<()> for ControlFlow {
    /// A visitor that answers nothing goes on.
    fn from(_unit: ()) -> (flow: ControlFlow) {
        ControlFlow::Continue
    }
}

impl vstd::std_specs::convert::FromSpecImpl<()> for ControlFlow {
    open spec fn obeys_from_spec() -> bool {
        true
    }

    open spec fn from_spec(_unit: ()) -> ControlFlow {
        ControlFlow::Continue
    }
}

/// A source that a relation can be joined against: a view keyed by entity.
pub trait Joinable {
    /// What the source holds for an entity.
    type Out: Copy;

    /// Whether the source holds `entity`.
    spec fn holds(&self, entity: Entity) -> bool;

    /// What the source holds for `entity`.
    spec fn item(&self, entity: Entity) -> Self::Out;

    /// Whether the source holds `entity`.
    fn contains(&self, entity: Entity) -> (found: bool)
        ensures
            found == self.holds(entity),
    ;

    /// What the source holds for `entity`.
    fn get(&self, entity: Entity) -> (out: Self::Out)
        requires
            self.holds(entity),
        ensures
            out == self.item(entity),
    ;
}

/// A source kept in the library itself: items by entity, the item written
/// last under an entity being the one that counts.
pub struct Table<T> {
    rows: Vec<(Entity, T)>,
}

/// The items that a list of writes leaves, by entity.
pub open spec fn written<T>(rows: Seq<(Entity, T)>) -> Map<Entity, T>
    decreases rows.len(),
{
    if rows.len() == 0 {
        Map::empty()
    } else {
        written(rows.drop_last()).insert(rows.last().0, rows.last().1)
    }
}

impl<T: Copy> Table<T> {
    /// The items of the table, by entity.
    pub closed spec fn entries(&self) -> Map<Entity, T> {
        written(self.rows@)
    }

    /// A table without items.
    pub fn new() -> (table: Table<T>)
        ensures
            table.entries() == Map::<Entity, T>::empty(),
    {
        Table { rows: Vec::new() }
    }

    /// Puts `item` under `entity`, in place of what was there.
    pub fn insert(&mut self, entity: Entity, item: T)
        ensures
            final(self).entries() == old(self).entries().insert(entity, item),
    {
        self.rows.push((entity, item));
        proof {
            assert(self.rows@.drop_last() =~= old(self).rows@);
        }
    }

    /// The item under `entity`, if there is one.
    pub fn lookup(&self, entity: Entity) -> (found: Option<T>)
        ensures
            found == (if self.entries().contains_key(entity) {
                Some(self.entries()[entity])
            } else {
                None
            }),
    {
        let mut i: usize = self.rows.len();
        proof {
            assert(self.rows@.take(i as int) =~= self.rows@);
        }
        while i > 0
            invariant
                i <= self.rows.len(),
                written(self.rows@).contains_key(entity) == written(
                    self.rows@.take(i as int),
                ).contains_key(entity),
                written(self.rows@).contains_key(entity) ==> written(self.rows@)[entity] == written(
                    self.rows@.take(i as int),
                )[entity],
            decreases i,
        {
            proof {
                let upto = self.rows@.take(i as int);
                assert(upto.drop_last() =~= self.rows@.take(i - 1));
                assert(upto.last() == self.rows@[i - 1]);
            }
            i -= 1;
            if self.rows[i].0 == entity {
                return Some(self.rows[i].1);
            }
        }
        None
    }
}

impl<T: Copy> Joinable for Table<T> {
    type Out = T;

    open spec fn holds(&self, entity: Entity) -> bool {
        self.entries().contains_key(entity)
    }

    open spec fn item(&self, entity: Entity) -> T {
        self.entries()[entity]
    }

    fn contains(&self, entity: Entity) -> (found: bool) {
        self.lookup(entity).is_some()
    }

    fn get(&self, entity: Entity) -> (out: T) {
        self.lookup(entity).unwrap()
    }
}

/// One edge that a join kept: its target, the payload of the edge where the
/// join retains payloads, and what the joined source holds for the target.
pub struct Joined<T> {
    pub target: Entity,
    pub payload: Option<u64>,
    pub item: T,
}

impl<T: Copy> Clone for Joined<T> {
    fn clone(&self) -> (copy: Joined<T>)
        ensures
            copy == *self,
    {
        *self
    }
}

impl<T: Copy> Copy for Joined<T> {

}

/// The way to treat the payloads of a relation type that is not joined:
/// nothing is kept of them.
pub struct Drop;

/// The way to treat the payloads of a joined relation type whose payloads
/// are discarded.
pub struct Wipe;

/// The way to treat the payloads of a joined relation type whose payloads
/// are retained.
pub struct Waive;

/// What is left of payloads that were wiped.
pub struct Wiped;

impl Sealed for Drop {

}

impl Sealed for Wipe {

}

impl Sealed for Waive {

}

/// A way to treat what a relation type stores.
pub trait Comb<Item>: Sealed {
    /// What is left of the item.
    type Out;

    /// What is left of `item`.
    spec fn combed(item: Item) -> Self::Out;

    /// Treats `item`.
    fn comb(item: Item) -> (out: Self::Out)
        ensures
            out == Self::combed(item),
    ;
}

impl<Item> Comb<Item> for Drop {
    type Out = ();

    open spec fn combed(item: Item) -> () {
        ()
    }

    fn comb(_item: Item) -> (out: ()) {
    }
}

impl<Item> Comb<Item> for Wipe {
    type Out = Wiped;

    open spec fn combed(item: Item) -> Wiped {
        Wiped
    }

    fn comb(_item: Item) -> (out: Wiped) {
        Wiped
    }
}

impl<Item> Comb<Item> for Waive {
    type Out = Item;

    open spec fn combed(item: Item) -> Item {
        item
    }

    fn comb(item: Item) -> (out: Item) {
        item
    }
}

/// The payloads that one entity holds for one relation type.
pub struct Payloads<'w> {
    pub world: &'w World,
    pub foster: Entity,
    pub relation: RelationId,
}

/// What turns an edge and the item joined to its target into a joined edge.
pub trait Attach<Item> {
    /// Whether `slot` can be attached.
    spec fn ready(&self, slot: usize) -> bool;

    /// The joined edge for `slot`, `target` and `item`.
    spec fn attached(&self, slot: usize, target: Entity, item: Item) -> Joined<Item>;

    /// The joined edge for `slot`, `target` and `item`.
    fn attach(&self, slot: usize, target: Entity, item: Item) -> (joined: Joined<Item>)
        requires
            self.ready(slot),
        ensures
            joined == self.attached(slot, target, item),
    ;
}

impl<Item> Attach<Item> for Wiped {
    open spec fn ready(&self, slot: usize) -> bool {
        true
    }

    open spec fn attached(&self, slot: usize, target: Entity, item: Item) -> Joined<Item> {
        Joined { target, payload: None, item }
    }

    fn attach(&self, _slot: usize, target: Entity, item: Item) -> (joined: Joined<Item>) {
        Joined { target, payload: None, item }
    }
}

impl<'w, Item> Attach<Item> for Payloads<'w> {
    open spec fn ready(&self, slot: usize) -> bool {
        slot < self.world@.storage[(self.foster, self.relation)].len()
    }

    open spec fn attached(&self, slot: usize, target: Entity, item: Item) -> Joined<Item> {
        Joined {
            target,
            payload: Some(self.world@.storage[(self.foster, self.relation)][slot as int]),
            item,
        }
    }

    fn attach(&self, slot: usize, target: Entity, item: Item) -> (joined: Joined<Item>) {
        Joined {
            target,
            payload: Some(self.world.payload_at(self.foster, self.relation, slot)),
            item,
        }
    }
}

/// One joined relation type of a query.
pub struct Join<'a, J> {
    /// The relation type whose edges are followed.
    pub relation: RelationId,
    /// Whether the payload of an edge is retained.
    pub total: bool,
    /// What the targets are looked up in.
    pub source: &'a J,
}

impl<'a, J: Joinable> Join<'a, J> {
    /// Whether `list` lists what the join keeps for `entity`: one joined
    /// edge for each edge of the relation type from `entity` whose target
    /// the source holds, with the payload of the edge where the join is
    /// total.
    pub open spec fn keeps(&self, g: Graph, entity: Entity, list: Seq<Joined<J::Out>>) -> bool {
        &&& forall|i: int|
            0 <= i < list.len() ==> {
                let joined = #[trigger] list[i];
                &&& g.edge(entity, self.relation, joined.target)
                &&& self.source.holds(joined.target)
                &&& joined.item == self.source.item(joined.target)
                &&& joined.payload == (if self.total {
                    Some(g.payload(entity, self.relation, joined.target))
                } else {
                    None
                })
            }
        &&& forall|t: Entity|
            #[trigger] g.edge(entity, self.relation, t) && self.source.holds(t) ==> exists|i: int|
                0 <= i < list.len() && (#[trigger] list[i]).target == t
        &&& forall|i: int, j: int|
            0 <= i < j < list.len() ==> (#[trigger] list[i]).target != (#[trigger] list[j]).target
    }

    /// What the join keeps for `entity`, in the order in which the index
    /// hands out the edges.
    pub fn matches(&self, world: &World, entity: Entity) -> (list: Vec<Joined<J::Out>>)
        requires
            world.wf(),
        ensures
            self.keeps(world@, entity, list@),
    {
        let ghost g = world@;
        let mut list: Vec<Joined<J::Out>> = Vec::new();
        let info = match world.relation_info(self.relation) {
            Some(info) => info,
            None => {
                proof {
                    assert forall|t: Entity| !g.edge(entity, self.relation, t) by {
                        if g.edge(entity, self.relation, t) {
                            assert(g.edge_ok(entity, self.relation, t));
                        }
                    }
                }
                return list;
            },
        };
        let items = world.targets_in(entity, info.policy);
        let mut i: usize = 0;
        while i < items.len()
            invariant
                i <= items.len(),
                world.wf(),
                g == world@,
                forall|k: int|
                    0 <= k < items.len() ==> {
                        &&& g.edge(entity, (#[trigger] items[k]).0.0, items[k].0.1)
                        &&& g.edges[(entity, items[k].0.0, items[k].0.1)] == items[k].1
                    },
                forall|k: int, m: int|
                    0 <= k < m < items.len() ==> (#[trigger] items[k]).0 != (#[trigger] items[m]).0,
                forall|n: int|
                    0 <= n < list.len() ==> {
                        let joined = #[trigger] list[n];
                        &&& g.edge(entity, self.relation, joined.target)
                        &&& self.source.holds(joined.target)
                        &&& joined.item == self.source.item(joined.target)
                        &&& joined.payload == (if self.total {
                            Some(g.payload(entity, self.relation, joined.target))
                        } else {
                            None
                        })
                        &&& exists|k: int|
                            0 <= k < i && #[trigger] items[k].0 == (self.relation, joined.target)
                    },
                forall|k: int|
                    0 <= k < i && (#[trigger] items[k]).0.0 == self.relation && self.source.holds(
                        items[k].0.1,
                    ) ==> exists|n: int| 0 <= n < list.len() && (#[trigger] list[n]).target == items[k].0.1,
                forall|n: int, m: int|
                    0 <= n < m < list.len() ==> (#[trigger] list[n]).target != (#[trigger] list[m]).target,
            decreases items.len() - i,
        {
            let ((r, t), slot) = items[i];
            let ghost before = list@;
            if r == self.relation && self.source.contains(t) {
                let item = self.source.get(t);
                let payloads = Payloads { world, foster: entity, relation: self.relation };
                proof {
                    assert(g.edge(entity, items[i as int].0.0, items[i as int].0.1));
                    assert(g.edge_ok(entity, self.relation, t));
                }
                let joined = if self.total {
                    <Waive as Comb<Payloads<'_>>>::comb(payloads).attach(slot, t, item)
                } else {
                    <Wipe as Comb<Payloads<'_>>>::comb(payloads).attach(slot, t, item)
                };
                list.push(joined);
                proof {
                    assert(list@[before.len() as int] == joined);
                    assert forall|n: int, m: int| 0 <= n < m < list.len() implies (#[trigger] list[n]).target
                        != (#[trigger] list[m]).target by {
                        if m == before.len() {
                            assert(list[n] == before[n]);
                            let k = choose|k: int|
                                0 <= k < i && #[trigger] items[k].0 == (
                                    self.relation,
                                    before[n].target,
                                );
                            assert(items[k].0 != items[i as int].0);
                        } else {
                            assert(list[n] == before[n] && list[m] == before[m]);
                        }
                    }
                    assert forall|n: int| 0 <= n < list.len() implies {
                        let joined = #[trigger] list[n];
                        &&& g.edge(entity, self.relation, joined.target)
                        &&& self.source.holds(joined.target)
                        &&& joined.item == self.source.item(joined.target)
                        &&& joined.payload == (if self.total {
                            Some(g.payload(entity, self.relation, joined.target))
                        } else {
                            None
                        })
                        &&& exists|k: int|
                            0 <= k < i + 1 && #[trigger] items[k].0 == (self.relation, joined.target)
                    } by {
                        if n < before.len() {
                            assert(list[n] == before[n]);
                            let k = choose|k: int|
                                0 <= k < i && #[trigger] items[k].0 == (
                                    self.relation,
                                    before[n].target,
                                );
                            assert(items[k].0 == (self.relation, list[n].target));
                        } else {
                            assert(items[i as int].0 == (self.relation, list[n].target));
                        }
                    }
                    assert forall|k: int|
                        0 <= k < i + 1 && (#[trigger] items[k]).0.0 == self.relation
                            && self.source.holds(items[k].0.1) implies exists|n: int|
                        0 <= n < list.len() && (#[trigger] list[n]).target == items[k].0.1 by {
                        if k < i {
                            let n = choose|n: int|
                                0 <= n < before.len() && (#[trigger] before[n]).target
                                    == items[k].0.1;
                            assert(list[n] == before[n]);
                        } else {
                            assert(list[before.len() as int].target == items[k].0.1);
                        }
                    }
                }
            } else {
                proof {
                    assert forall|n: int| 0 <= n < list.len() implies {
                        let joined = #[trigger] list[n];
                        exists|k: int|
                            0 <= k < i + 1 && #[trigger] items[k].0 == (self.relation, joined.target)
                    } by {
                        let k = choose|k: int|
                            0 <= k < i && #[trigger] items[k].0 == (self.relation, list[n].target);
                        assert(items[k].0 == (self.relation, list[n].target));
                    }
                }
            }
            i += 1;
        }
        proof {
            assert forall|t: Entity|
                #[trigger] g.edge(entity, self.relation, t) && self.source.holds(
                    t,
                ) implies exists|n: int| 0 <= n < list.len() && (#[trigger] list[n]).target == t by {
                let k = choose|k: int|
                    0 <= k < items.len() && (#[trigger] items[k]).0 == (self.relation, t);
                assert(items[k].0.0 == self.relation && items[k].0.1 == t);
            }
        }
        list
    }
}

} // verus!

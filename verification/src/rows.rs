//! The rows that a query yields and the visitor that takes them: the
//! cartesian product of the joined edges of an entity, handed out one row
//! at a time until the visitor asks to stop.

use crate::collections::Entity;
use crate::joins::{ControlFlow, Joined};
use vstd::prelude::*;

verus! {

/// One row of a query: a base entity and one joined edge for each joined
/// relation type.
pub struct Row<T> {
    pub entity: Entity,
    pub joined: Vec<Joined<T>>,
}

/// A row as a mathematical value.
pub ghost struct RowView<T> {
    pub entity: Entity,
    pub joined: Seq<Joined<T>>,
}

impl<T> View for Row<T> {
    type V = RowView<T>;

    open spec fn view(&self) -> RowView<T> {
        RowView { entity: self.entity, joined: self.joined@ }
    }
}

/// What takes the rows of a query.
pub trait Visitor<T> {
    /// The rows that the visitor was handed so far, first to last.
    spec fn seen(&self) -> Seq<RowView<T>>;

    /// Whether a visitor that was handed `seen` asks to stop when it is
    /// handed `row`.
    spec fn stops(seen: Seq<RowView<T>>, row: RowView<T>) -> bool;

    /// Takes one row and says whether the iteration goes on.
    fn visit(&mut self, row: Row<T>) -> (flow: ControlFlow)
        ensures
            final(self).seen() == old(self).seen().push(row@),
            (flow == ControlFlow::Exit) <==> Self::stops(old(self).seen(), row@),
    ;
}

/// The visitor that keeps every row and never asks to stop.
pub struct Collect<T> {
    pub rows: Vec<Row<T>>,
}

impl<T> Collect<T> {
    /// A visitor that was handed nothing yet.
    pub fn new() -> (visitor: Collect<T>)
        ensures
            visitor.seen() == Seq::<RowView<T>>::empty(),
    {
        let visitor = Collect { rows: Vec::new() };
        proof {
            assert(visitor.seen() =~= Seq::<RowView<T>>::empty());
        }
        visitor
    }
}

impl<T> Visitor<T> for Collect<T> {
    open spec fn seen(&self) -> Seq<RowView<T>> {
        Seq::new(self.rows@.len(), |i: int| self.rows@[i]@)
    }

    open spec fn stops(seen: Seq<RowView<T>>, row: RowView<T>) -> bool {
        false
    }

    fn visit(&mut self, row: Row<T>) -> (flow: ControlFlow) {
        proof {
            assert(Seq::new(self.rows@.push(row).len(), |i: int| self.rows@.push(row)[i]@)
                =~= self.seen().push(row@));
        }
        self.rows.push(row);
        ControlFlow::Continue
    }
}

/// The visitor that keeps the row it is handed and asks to stop at once.
pub struct First<T> {
    pub rows: Vec<Row<T>>,
}

impl<T> First<T> {
    /// A visitor that was handed nothing yet.
    pub fn new() -> (visitor: First<T>)
        ensures
            visitor.seen() == Seq::<RowView<T>>::empty(),
    {
        let visitor = First { rows: Vec::new() };
        proof {
            assert(visitor.seen() =~= Seq::<RowView<T>>::empty());
        }
        visitor
    }
}

impl<T> Visitor<T> for First<T> {
    open spec fn seen(&self) -> Seq<RowView<T>> {
        Seq::new(self.rows@.len(), |i: int| self.rows@[i]@)
    }

    open spec fn stops(seen: Seq<RowView<T>>, row: RowView<T>) -> bool {
        true
    }

    fn visit(&mut self, row: Row<T>) -> (flow: ControlFlow) {
        proof {
            assert(Seq::new(self.rows@.push(row).len(), |i: int| self.rows@.push(row)[i]@)
                =~= self.seen().push(row@));
        }
        self.rows.push(row);
        ControlFlow::Exit
    }
}

/// How many rows of `order` a visitor takes that was handed `seen` before:
/// all of them, or those up to the first at which it asks to stop.
pub open spec fn taken<T, V: Visitor<T>>(seen: Seq<RowView<T>>, order: Seq<RowView<T>>) -> nat
    decreases order.len(),
{
    if order.len() == 0 {
        0
    } else if V::stops(seen, order[0]) {
        1
    } else {
        1 + taken::<T, V>(seen.push(order[0]), order.drop_first())
    }
}

/// Whether a visitor that was handed `seen` before asks to stop at some row
/// of `order`.
pub open spec fn stopped<T, V: Visitor<T>>(seen: Seq<RowView<T>>, order: Seq<RowView<T>>) -> bool
    decreases order.len(),
{
    if order.len() == 0 {
        false
    } else if V::stops(seen, order[0]) {
        true
    } else {
        stopped::<T, V>(seen.push(order[0]), order.drop_first())
    }
}

/// A visitor takes no more rows than there are, and all of them unless it
/// asks to stop.
pub proof fn lemma_taken_bound<T, V: Visitor<T>>(seen: Seq<RowView<T>>, order: Seq<RowView<T>>)
    ensures
        taken::<T, V>(seen, order) <= order.len(),
        !stopped::<T, V>(seen, order) ==> taken::<T, V>(seen, order) == order.len(),
    decreases order.len(),
{
    if order.len() > 0 && !V::stops(seen, order[0]) {
        lemma_taken_bound::<T, V>(seen.push(order[0]), order.drop_first());
    }
}

/// What a visitor takes of two lists of rows in a row: of the second only
/// where it did not ask to stop in the first.
pub proof fn lemma_taken_add<T, V: Visitor<T>>(
    seen: Seq<RowView<T>>,
    a: Seq<RowView<T>>,
    b: Seq<RowView<T>>,
)
    ensures
        stopped::<T, V>(seen, a + b) == (stopped::<T, V>(seen, a) || stopped::<T, V>(seen + a, b)),
        taken::<T, V>(seen, a + b) == (if stopped::<T, V>(seen, a) {
            taken::<T, V>(seen, a)
        } else {
            a.len() + taken::<T, V>(seen + a, b)
        }),
    decreases a.len(),
{
    if a.len() == 0 {
        assert(a + b =~= b);
        assert(seen + a =~= seen);
    } else {
        assert((a + b)[0] == a[0]);
        assert((a + b).drop_first() =~= a.drop_first() + b);
        if !V::stops(seen, a[0]) {
            lemma_taken_add::<T, V>(seen.push(a[0]), a.drop_first(), b);
            assert(seen.push(a[0]) + a.drop_first() =~= seen + a);
        }
    }
}

/// The rows that come of putting each of `heads` in front of each of
/// `tails`: all rows with the first head, then all with the second, and so
/// on.
pub open spec fn expand<T>(heads: Seq<Joined<T>>, tails: Seq<Seq<Joined<T>>>) -> Seq<
    Seq<Joined<T>>,
>
    decreases heads.len(),
{
    if heads.len() == 0 {
        Seq::empty()
    } else {
        expand(heads.drop_last(), tails) + Seq::new(
            tails.len(),
            |i: int| seq![heads.last()] + tails[i],
        )
    }
}

/// The cartesian product of `lists`, the first list varying slowest. The
/// product of no lists is the one empty row.
pub open spec fn product<T>(lists: Seq<Seq<Joined<T>>>) -> Seq<Seq<Joined<T>>>
    decreases lists.len(),
{
    if lists.len() == 0 {
        seq![Seq::empty()]
    } else {
        expand(lists[0], product(lists.drop_first()))
    }
}

/// The rows for `entity` whose joined edges are `chosen` followed by one of
/// `tails`.
pub open spec fn rows_with<T>(entity: Entity, chosen: Seq<Joined<T>>, tails: Seq<Seq<Joined<T>>>) -> Seq<
    RowView<T>,
> {
    Seq::new(tails.len(), |i: int| RowView { entity, joined: chosen + tails[i] })
}

/// Expanding the heads up to `k` and then those from `k` on is expanding
/// all heads.
pub proof fn lemma_expand_split<T>(heads: Seq<Joined<T>>, k: int, tails: Seq<Seq<Joined<T>>>)
    requires
        0 <= k <= heads.len(),
    ensures
        expand(heads, tails) == expand(heads.take(k), tails) + expand(heads.skip(k), tails),
    decreases heads.len() - k,
{
    if k == heads.len() {
        assert(heads.take(k) =~= heads);
        assert(heads.skip(k) =~= Seq::<Joined<T>>::empty());
        assert(expand(heads, tails) + Seq::<Seq<Joined<T>>>::empty() =~= expand(heads, tails));
    } else {
        let rest = heads.skip(k);
        assert(rest.drop_last() =~= heads.drop_last().skip(k));
        assert(rest.last() == heads.last());
        assert(heads.drop_last().take(k) =~= heads.take(k));
        lemma_expand_split(heads.drop_last(), k, tails);
        let block = Seq::new(tails.len(), |i: int| seq![heads.last()] + tails[i]);
        assert(expand(heads, tails) == expand(heads.drop_last(), tails) + block);
        assert(expand(rest, tails) == expand(rest.drop_last(), tails) + block);
        assert(expand(heads.take(k), tails) + (expand(rest.drop_last(), tails) + block) =~= (expand(
            heads.take(k),
            tails,
        ) + expand(rest.drop_last(), tails)) + block);
    }
}

/// A copy of `items`.
pub fn copy_of<T: Copy>(items: &Vec<Joined<T>>) -> (copy: Vec<Joined<T>>)
    ensures
        copy@ == items@,
{
    let mut copy: Vec<Joined<T>> = Vec::new();
    let mut i: usize = 0;
    while i < items.len()
        invariant
            i <= items.len(),
            copy@ == items@.take(i as int),
        decreases items.len() - i,
    {
        copy.push(items[i]);
        proof {
            assert(copy@ =~= items@.take(i + 1));
        }
        i += 1;
    }
    proof {
        assert(items@.take(items.len() as int) =~= items@);
    }
    copy
}

/// The lists of `lists` as mathematical values.
pub open spec fn deep<T>(lists: Seq<Vec<Joined<T>>>) -> Seq<Seq<Joined<T>>> {
    Seq::new(lists.len(), |i: int| lists[i]@)
}

/// Hands the visitor the rows for `entity` that start with `chosen` and go
/// on through the product of the lists from `depth` on, until it asks to
/// stop; says whether it did.
pub fn visit_product<T: Copy, V: Visitor<T>>(
    entity: Entity,
    lists: &Vec<Vec<Joined<T>>>,
    depth: usize,
    chosen: &mut Vec<Joined<T>>,
    visitor: &mut V,
) -> (flow: ControlFlow)
    requires
        depth <= lists.len(),
    ensures
        final(chosen)@ == old(chosen)@,
        final(visitor).seen() == old(visitor).seen() + rows_with(
            entity,
            old(chosen)@,
            product(deep(lists@).skip(depth as int)),
        ).take(
            taken::<T, V>(
                old(visitor).seen(),
                rows_with(entity, old(chosen)@, product(deep(lists@).skip(depth as int))),
            ) as int,
        ),
        (flow == ControlFlow::Exit) <==> stopped::<T, V>(
            old(visitor).seen(),
            rows_with(entity, old(chosen)@, product(deep(lists@).skip(depth as int))),
        ),
    decreases lists.len() - depth,
{
    let ghost seen = visitor.seen();
    let ghost base = chosen@;
    let ghost all = deep(lists@);
    if depth == lists.len() {
        let row = Row { entity, joined: copy_of(chosen) };
        let flow = visitor.visit(row);
        proof {
            let order = rows_with(entity, base, product(all.skip(depth as int)));
            assert(all.skip(depth as int) =~= Seq::<Seq<Joined<T>>>::empty());
            assert(base + Seq::<Joined<T>>::empty() =~= base);
            assert(product(all.skip(depth as int)) =~= seq![Seq::<Joined<T>>::empty()]);
            assert(order.len() == 1);
            assert(order[0] == row@);
            assert(order.drop_first().len() == 0);
            assert(taken::<T, V>(seen.push(order[0]), order.drop_first()) == 0);
            assert(!stopped::<T, V>(seen.push(order[0]), order.drop_first()));
            assert(taken::<T, V>(seen, order) == 1);
            assert(stopped::<T, V>(seen, order) == V::stops(seen, row@));
            assert(order.take(1) =~= order);
            assert(seen + order =~= seen.push(row@));
        }
        return flow;
    }
    let ghost heads = all[depth as int];
    let ghost tails = product(all.skip(depth + 1));
    proof {
        assert(all.skip(depth as int)[0] == heads);
        assert(all.skip(depth as int).drop_first() =~= all.skip(depth + 1));
        assert(product(all.skip(depth as int)) == expand(heads, tails));
        assert(heads.take(0) =~= Seq::<Joined<T>>::empty());
        assert(rows_with(entity, base, expand(heads.take(0), tails)) =~= Seq::<RowView<T>>::empty());
        assert(seen + Seq::<RowView<T>>::empty() =~= seen);
    }
    let mut i: usize = 0;
    while i < lists[depth].len()
        invariant
            i <= lists[depth as int].len(),
            depth < lists.len(),
            all == deep(lists@),
            heads == all[depth as int],
            heads == lists[depth as int]@,
            tails == product(all.skip(depth + 1)),
            product(all.skip(depth as int)) == expand(heads, tails),
            base == old(chosen)@,
            seen == old(visitor).seen(),
            chosen@ == base,
            visitor.seen() == seen + rows_with(entity, base, expand(heads.take(i as int), tails)),
            !stopped::<T, V>(seen, rows_with(entity, base, expand(heads.take(i as int), tails))),
        decreases lists[depth as int].len() - i,
    {
        let head = lists[depth][i];
        let ghost done = rows_with(entity, base, expand(heads.take(i as int), tails));
        let ghost block = rows_with(entity, base.push(head), tails);
        chosen.push(head);
        let flow = visit_product(entity, lists, depth + 1, chosen, visitor);
        chosen.pop();
        proof {
            let upto = heads.take(i + 1);
            assert(upto.drop_last() =~= heads.take(i as int));
            assert(upto.last() == head);
            let grown = Seq::new(tails.len(), |k: int| seq![head] + tails[k]);
            assert(expand(upto, tails) == expand(heads.take(i as int), tails) + grown);
            assert(rows_with(entity, base, grown) =~= block) by {
                assert forall|k: int| 0 <= k < tails.len() implies rows_with(
                    entity,
                    base,
                    grown,
                )[k] == block[k] by {
                    assert(base + (seq![head] + tails[k]) =~= base.push(head) + tails[k]);
                }
            }
            assert(rows_with(entity, base, expand(upto, tails)) =~= done + block);
            lemma_taken_add::<T, V>(seen, done, block);
            lemma_taken_bound::<T, V>(seen, done);
            lemma_taken_bound::<T, V>(seen + done, block);
            let n = taken::<T, V>(seen + done, block);
            assert((done + block).take(done.len() + n as int) =~= done + block.take(n as int));
            assert(chosen@ =~= base);
            assert(visitor.seen() =~= seen + (done + block).take(
                taken::<T, V>(seen, done + block) as int,
            ));
        }
        if flow == ControlFlow::Exit {
            proof {
                let upto = rows_with(entity, base, expand(heads.take(i + 1), tails));
                let rest = rows_with(entity, base, expand(heads.skip(i + 1), tails));
                let order = rows_with(entity, base, expand(heads, tails));
                lemma_expand_split(heads, i + 1, tails);
                assert(order =~= upto + rest);
                lemma_taken_add::<T, V>(seen, upto, rest);
                lemma_taken_bound::<T, V>(seen, upto);
                assert(order.take(taken::<T, V>(seen, upto) as int) =~= upto.take(
                    taken::<T, V>(seen, upto) as int,
                ));
            }
            return ControlFlow::Exit;
        }
        proof {
            lemma_taken_bound::<T, V>(seen, done + block);
            assert((done + block).take((done + block).len() as int) =~= done + block);
        }
        i += 1;
    }
    proof {
        assert(heads.take(i as int) =~= heads);
        let order = rows_with(entity, base, expand(heads, tails));
        lemma_taken_bound::<T, V>(seen, order);
        assert(order.take(order.len() as int) =~= order);
    }
    ControlFlow::Continue
}

} // verus!

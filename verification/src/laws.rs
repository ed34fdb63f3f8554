//! What holds of every cascade, proved over the mathematical model.

use crate::cascade::{climbable, lemma_contains_add, valid_parent, Memo, Operation};
use crate::collections::{Entity, RelationId};
use crate::commands::SetRelation;
use crate::graph::{lemma_set_payload_wf};
use crate::graph::{lemma_despawn_wf, lemma_link_wf, lemma_unlink_wf, DespawnPolicy, Graph};
use vstd::prelude::*;

verus! {

/// One operation leaves the registry and the identifiers alone, and takes
/// from the live entities the one that it despawns, if it despawns one.
pub proof fn lemma_apply_live(g: Graph, memo: Memo, fuel: nat, op: Operation)
    ensures
        g.apply(memo, fuel, op).kinds == g.kinds,
        g.apply(memo, fuel, op).registered == g.registered,
        g.apply(memo, fuel, op).size == g.size,
        forall|e: Entity| #[trigger]
            g.apply(memo, fuel, op).live.contains(e) <==> g.live.contains(e) && op
                != Operation::Despawn(e),
{
}

/// A list of operations leaves the registry and the identifiers alone, and
/// takes from the live entities exactly those that it despawns.
pub proof fn lemma_apply_all_live(g: Graph, memo: Memo, fuel: nat, ops: Seq<Operation>)
    ensures
        g.apply_all(memo, fuel, ops).kinds == g.kinds,
        g.apply_all(memo, fuel, ops).registered == g.registered,
        g.apply_all(memo, fuel, ops).size == g.size,
        forall|e: Entity| #[trigger]
            g.apply_all(memo, fuel, ops).live.contains(e) <==> g.live.contains(e) && !ops.contains(
                Operation::Despawn(e),
            ),
    decreases ops.len(),
{
    if ops.len() > 0 {
        let front = ops.drop_last();
        let mid = g.apply_all(memo, fuel, front);
        lemma_apply_all_live(g, memo, fuel, front);
        lemma_apply_live(mid, memo, fuel, ops.last());
        assert(g.apply_all(memo, fuel, ops) == mid.apply(memo, fuel, ops.last()));
        assert forall|e: Entity| #[trigger]
            g.apply_all(memo, fuel, ops).live.contains(e) <==> g.live.contains(e) && !ops.contains(
                Operation::Despawn(e),
            ) by {
            assert(mid.apply(memo, fuel, ops.last()).live.contains(e) <==> mid.live.contains(e)
                && ops.last() != Operation::Despawn(e));
            assert(mid.live.contains(e) <==> g.live.contains(e) && !front.contains(
                Operation::Despawn(e),
            ));
            if ops.contains(Operation::Despawn(e)) {
                let i = choose|i: int| 0 <= i < ops.len() && ops[i] == Operation::Despawn(e);
                if i < front.len() {
                    assert(front[i] == Operation::Despawn(e));
                }
            }
            if front.contains(Operation::Despawn(e)) {
                let i = choose|i: int| 0 <= i < front.len() && front[i] == Operation::Despawn(e);
                assert(ops[i] == Operation::Despawn(e));
            }
            if ops.last() == Operation::Despawn(e) {
                assert(ops[ops.len() - 1] == Operation::Despawn(e));
            }
        }
    }
}

/// An entity dooms itself exactly if it lives.
pub proof fn lemma_root_doomed(g: Graph, root: Entity)
    ensures
        g.doomed(root, root) <==> g.live.contains(root),
        !g.live.contains(root) ==> forall|e: Entity| !g.doomed(root, e),
{
    let none = Set::<Entity>::empty();
    if g.live.contains(root) {
        assert(g.is_walk(DespawnPolicy::RecursiveDespawn, None, none, root, seq![root]));
        assert(seq![root].last() == root);
    } else {
        assert forall|e: Entity| !g.doomed(root, e) by {
            if g.doomed(root, e) {
                let path = choose|path: Seq<Entity>| #[trigger]
                    g.is_walk(DespawnPolicy::RecursiveDespawn, None, none, root, path)
                        && path.last() == e;
                assert(g.live.contains(path[0]));
            }
        }
    }
}

/// What a despawn plan despawns: the doomed entities other than the root.
pub proof fn lemma_despawn_plan_removals(
    g: Graph,
    root: Entity,
    before: Memo,
    after: Memo,
    ops: Seq<Operation>,
)
    requires
        g.despawn_plan(root, before, after, ops),
    ensures
        forall|e: Entity| ops.contains(Operation::Despawn(e)) <==> g.doomed(root, e) && e != root,
{
    let (staged, cuts, downstream, moves, removals) = choose|
        staged: Seq<Entity>,
        cuts: Seq<Operation>,
        downstream: Seq<Operation>,
        moves: Seq<Operation>,
        removals: Seq<Operation>,
    | #[trigger] g.plan_parts(root, before, after, ops, staged, cuts, downstream, moves, removals);
    lemma_contains_add(cuts, downstream);
    lemma_contains_add(cuts + downstream, moves);
    lemma_contains_add(cuts + downstream + moves, removals);
    let doomed = g.doomed_set(root);
    assert forall|e: Entity| ops.contains(Operation::Despawn(e)) <==> g.doomed(root, e) && e
        != root by {
        let op = Operation::Despawn(e);
        assert(cuts.contains(op) <==> g.is_foster_cut(doomed, op));
        assert(downstream.contains(op) <==> g.is_downstream_cut(doomed, op));
        assert(moves.contains(op) <==> g.is_move(doomed, op));
        assert(removals.contains(op) <==> g.is_removal(doomed, root, op));
    }
}

/// Despawning recursively: after the plan for the despawn of `root` and
/// the despawn of `root` itself, exactly those entities live that lived
/// before and that the despawn of `root` does not doom.
pub proof fn lemma_despawn_plan_live(
    g: Graph,
    root: Entity,
    before: Memo,
    after: Memo,
    fuel: nat,
    ops: Seq<Operation>,
)
    requires
        g.despawn_plan(root, before, after, ops),
    ensures
        forall|e: Entity| #[trigger]
            g.apply_all(after, fuel, ops).despawn(root).live.contains(e) <==> g.live.contains(e)
                && !g.doomed(root, e),
{
    lemma_despawn_plan_removals(g, root, before, after, ops);
    lemma_apply_all_live(g, after, fuel, ops);
    lemma_root_doomed(g, root);
}

/// Whether `op` may add or remove the edge `x -> y` of type `r`: it delinks
/// that edge, despawns one of its ends, or reparents `y` along `r`.
pub open spec fn touches(op: Operation, x: Entity, r: RelationId, y: Entity) -> bool {
    op == Operation::Delink(x, r, y) || op == Operation::Despawn(x) || op == Operation::Despawn(y)
        || op == Operation::Reparent(y, r)
}

/// One operation keeps a graph valid.
pub proof fn lemma_apply_wf(g: Graph, memo: Memo, fuel: nat, op: Operation)
    requires
        g.wf(),
    ensures
        g.apply(memo, fuel, op).wf(),
{
    match op {
        Operation::Despawn(e) => {
            lemma_despawn_wf(g, e);
        },
        Operation::Delink(p, r, c) => {
            lemma_unlink_wf(g, p, r, c);
        },
        Operation::Reparent(c, r) => {
            if g.kinds.contains_key(r) && g.policy(r) == DespawnPolicy::Reparent {
                match g.sole_foster(c, r) {
                    Some(p) => {
                        let cut = g.unlink(p, r, c);
                        lemma_unlink_wf(g, p, r, c);
                        match crate::cascade::valid_parent(memo, p, r, None, fuel) {
                            Some(up) => {
                                if cut.can_link(up.0, r, c, up.1) {
                                    lemma_link_wf(cut, up.0, r, c, up.1);
                                }
                            },
                            None => {},
                        }
                    },
                    None => {},
                }
            }
        },
    }
}

/// A list of operations keeps a graph valid.
pub proof fn lemma_apply_all_wf(g: Graph, memo: Memo, fuel: nat, ops: Seq<Operation>)
    requires
        g.wf(),
    ensures
        g.apply_all(memo, fuel, ops).wf(),
    decreases ops.len(),
{
    if ops.len() > 0 {
        lemma_apply_all_wf(g, memo, fuel, ops.drop_last());
        lemma_apply_wf(g.apply_all(memo, fuel, ops.drop_last()), memo, fuel, ops.last());
    }
}

/// An operation that does not touch an edge leaves it in place, in its
/// slot.
pub proof fn lemma_edge_kept(
    g: Graph,
    memo: Memo,
    fuel: nat,
    op: Operation,
    x: Entity,
    r: RelationId,
    y: Entity,
)
    requires
        g.edge(x, r, y),
        !touches(op, x, r, y),
    ensures
        g.apply(memo, fuel, op).edge(x, r, y),
        g.apply(memo, fuel, op).edges[(x, r, y)] == g.edges[(x, r, y)],
{
    match op {
        Operation::Reparent(c, q) => {
            if g.kinds.contains_key(q) && g.policy(q) == DespawnPolicy::Reparent {
                match g.sole_foster(c, q) {
                    Some(p) => {
                        assert(g.is_sole_foster(c, q, p));
                        let cut = g.unlink(p, q, c);
                        assert(cut.edge(x, r, y));
                    },
                    None => {},
                }
            }
        },
        _ => {},
    }
}

/// Only reparenting adds an edge, and only where it reparents the target of
/// that edge along its relation type, which then has the policy `Reparent`.
pub proof fn lemma_no_new_edge(
    g: Graph,
    memo: Memo,
    fuel: nat,
    op: Operation,
    x: Entity,
    r: RelationId,
    y: Entity,
)
    requires
        g.apply(memo, fuel, op).edge(x, r, y),
        !g.edge(x, r, y),
    ensures
        op == Operation::Reparent(y, r),
        g.kinds.contains_key(r),
        g.policy(r) == DespawnPolicy::Reparent,
{
}

/// A list of operations none of which touches an edge leaves that edge in
/// place, in its slot.
pub proof fn lemma_edge_kept_all(
    g: Graph,
    memo: Memo,
    fuel: nat,
    ops: Seq<Operation>,
    x: Entity,
    r: RelationId,
    y: Entity,
)
    requires
        g.edge(x, r, y),
        forall|i: int| 0 <= i < ops.len() ==> !touches(#[trigger] ops[i], x, r, y),
    ensures
        g.apply_all(memo, fuel, ops).edge(x, r, y),
        g.apply_all(memo, fuel, ops).edges[(x, r, y)] == g.edges[(x, r, y)],
    decreases ops.len(),
{
    if ops.len() > 0 {
        let front = ops.drop_last();
        assert forall|i: int| 0 <= i < front.len() implies !touches(#[trigger] front[i], x, r, y) by {
            assert(front[i] == ops[i]);
        }
        lemma_edge_kept_all(g, memo, fuel, front, x, r, y);
        assert(!touches(ops[ops.len() - 1], x, r, y));
        lemma_edge_kept(g.apply_all(memo, fuel, front), memo, fuel, ops.last(), x, r, y);
    }
}

/// An edge of a relation type whose policy is not `Reparent` that is absent
/// or that a list of operations delinks is absent after the list.
pub proof fn lemma_delinked_stays(
    g: Graph,
    memo: Memo,
    fuel: nat,
    ops: Seq<Operation>,
    x: Entity,
    r: RelationId,
    y: Entity,
)
    requires
        g.policy(r) != DespawnPolicy::Reparent,
        !g.edge(x, r, y) || ops.contains(Operation::Delink(x, r, y)),
    ensures
        !g.apply_all(memo, fuel, ops).edge(x, r, y),
    decreases ops.len(),
{
    if ops.len() > 0 {
        let front = ops.drop_last();
        let mid = g.apply_all(memo, fuel, front);
        lemma_apply_all_live(g, memo, fuel, front);
        if ops.last() != Operation::Delink(x, r, y) {
            if ops.contains(Operation::Delink(x, r, y)) {
                let i = choose|i: int| 0 <= i < ops.len() && ops[i] == Operation::Delink(x, r, y);
                assert(front[i] == Operation::Delink(x, r, y));
            }
            lemma_delinked_stays(g, memo, fuel, front, x, r, y);
            if mid.apply(memo, fuel, ops.last()).edge(x, r, y) {
                lemma_no_new_edge(mid, memo, fuel, ops.last(), x, r, y);
            }
        }
    }
}

/// Applying a concatenation is applying its parts in turn.
pub proof fn lemma_apply_all_add(g: Graph, memo: Memo, fuel: nat, a: Seq<Operation>, b: Seq<Operation>)
    ensures
        g.apply_all(memo, fuel, a + b) == g.apply_all(memo, fuel, a).apply_all(memo, fuel, b),
    decreases b.len(),
{
    if b.len() == 0 {
        assert(a + b =~= a);
    } else {
        assert((a + b).drop_last() =~= a + b.drop_last());
        assert((a + b).last() == b.last());
        lemma_apply_all_add(g, memo, fuel, a, b.drop_last());
    }
}

/// Every operation of a despawn plan is of one of its four kinds.
pub proof fn lemma_plan_members(g: Graph, root: Entity, before: Memo, after: Memo, ops: Seq<Operation>)
    requires
        g.despawn_plan(root, before, after, ops),
    ensures
        forall|op: Operation| #[trigger]
            ops.contains(op) <==> {
                ||| g.is_foster_cut(g.doomed_set(root), op)
                ||| g.is_downstream_cut(g.doomed_set(root), op)
                ||| g.is_move(g.doomed_set(root), op)
                ||| g.is_removal(g.doomed_set(root), root, op)
            },
{
    let (staged, cuts, downstream, moves, removals) = choose|
        staged: Seq<Entity>,
        cuts: Seq<Operation>,
        downstream: Seq<Operation>,
        moves: Seq<Operation>,
        removals: Seq<Operation>,
    | #[trigger] g.plan_parts(root, before, after, ops, staged, cuts, downstream, moves, removals);
    lemma_contains_add(cuts, downstream);
    lemma_contains_add(cuts + downstream, moves);
    lemma_contains_add(cuts + downstream + moves, removals);
    let doomed = g.doomed_set(root);
    assert forall|op: Operation| #[trigger]
        ops.contains(op) <==> {
            ||| g.is_foster_cut(doomed, op)
            ||| g.is_downstream_cut(doomed, op)
            ||| g.is_move(doomed, op)
            ||| g.is_removal(doomed, root, op)
        } by {
        assert(cuts.contains(op) <==> g.is_foster_cut(doomed, op));
        assert(downstream.contains(op) <==> g.is_downstream_cut(doomed, op));
        assert(moves.contains(op) <==> g.is_move(doomed, op));
        assert(removals.contains(op) <==> g.is_removal(doomed, root, op));
    }
}

/// Delinking recursively: where a doomed entity has a surviving target
/// `site` along a relation type `r` of the policy `RecursiveDelink`, no edge
/// of that type leaves `site`, or any entity that a walk from `site` over
/// such edges reaches, once `root` is despawned with all that this entails.
pub proof fn lemma_despawn_delinks_downstream(
    g: Graph,
    root: Entity,
    before: Memo,
    after: Memo,
    fuel: nat,
    ops: Seq<Operation>,
    site: Entity,
    r: RelationId,
    e: Entity,
    c: Entity,
)
    requires
        g.despawn_plan(root, before, after, ops),
        g.is_site(g.doomed_set(root), DespawnPolicy::RecursiveDelink, r, site),
        g.delink_reaches(g.doomed_set(root), site, r, e),
    ensures
        !g.apply_all(after, fuel, ops).despawn(root).edge(e, r, c),
{
    let doomed = g.doomed_set(root);
    let s = choose|s: Entity|
        doomed.contains(s) && #[trigger] g.step_over(DespawnPolicy::RecursiveDelink, None, s, r, site);
    assert(g.policy(r) == DespawnPolicy::RecursiveDelink);
    if g.edge(e, r, c) {
        let op = Operation::Delink(e, r, c);
        assert(g.step_over(DespawnPolicy::RecursiveDelink, Some(r), e, r, c));
        assert(g.is_delink_below(doomed, site, r, op));
        assert(g.is_downstream_cut(doomed, op));
        lemma_plan_members(g, root, before, after, ops);
        assert(ops.contains(op));
    }
    lemma_delinked_stays(g, after, fuel, ops, e, r, c);
}

/// Setting an exclusive relation anew: where `cmd` displaces the target
/// `gone`, and the cascade for `gone` neither despawns an end of the new
/// edge nor delinks the foster, the foster has afterwards exactly one edge
/// of that type, which points at the new target; so `gone` no longer has
/// the foster as a foster.
pub proof fn lemma_exclusive_overwrite(
    g: Graph,
    cmd: SetRelation,
    gone: Entity,
    ops: Seq<Operation>,
    memo: Memo,
    fuel: nat,
)
    requires
        g.wf(),
        cmd.displaced(g) == Some(gone),
        cmd.stored(g).resolves(
            g.policy(cmd.relation),
            Operation::Delink(cmd.foster, cmd.relation, gone),
            ops,
            memo,
            fuel,
        ),
        g.policy(cmd.relation) == DespawnPolicy::RecursiveDespawn ==> !cmd.stored(g).doomed(
            gone,
            cmd.foster,
        ) && !cmd.stored(g).doomed(gone, cmd.target),
        g.policy(cmd.relation) == DespawnPolicy::RecursiveDelink ==> !cmd.stored(g).delink_reaches(
            Set::empty(),
            gone,
            cmd.relation,
            cmd.foster,
        ),
    ensures
        cmd.stored(g).apply_all(memo, fuel, ops).edge(cmd.foster, cmd.relation, cmd.target),
        forall|t: Entity| #[trigger]
            cmd.stored(g).apply_all(memo, fuel, ops).edge(cmd.foster, cmd.relation, t) ==> t
                == cmd.target,
        !cmd.stored(g).apply_all(memo, fuel, ops).edge(cmd.foster, cmd.relation, gone),
{
    let (f, r, t) = (cmd.foster, cmd.relation, cmd.target);
    let stored = cmd.stored(g);
    let after = stored.apply_all(memo, fuel, ops);
    let slot = g.edges[(f, r, gone)];
    assert(g.edge(f, r, gone));
    assert(g.edge_ok(f, r, gone));
    let cut = g.unlink(f, r, gone);
    lemma_unlink_wf(g, f, r, gone);
    assert forall|t2: Entity| #[trigger] cut.edge(f, r, t2) implies t2 == t by {
        assert(g.edge(f, r, t2));
    }
    lemma_link_wf(cut, f, r, t, slot);
    lemma_set_payload_wf(cut.link(f, r, t, slot), f, r, slot, cmd.value);
    assert(stored.wf());
    assert(stored.edge(f, r, t));
    assert(stored.kinds == g.kinds);
    assert(stored.live.contains(gone));
    lemma_root_doomed(stored, gone);
    assert forall|i: int| 0 <= i < ops.len() implies !touches(#[trigger] ops[i], f, r, t) by {
        let op = ops[i];
        match g.policy(r) {
            DespawnPolicy::RecursiveDespawn => {
                let plan = ops.drop_last();
                let doomed = stored.doomed_set(gone);
                lemma_plan_members(stored, gone, Map::empty(), memo, plan);
                if i < plan.len() {
                    assert(plan[i] == op);
                    assert(plan.contains(op));
                    if stored.is_downstream_cut(doomed, op) {
                        match op {
                            Operation::Delink(e, q, c) => {
                                let site = choose|site: Entity|
                                    #[trigger] stored.is_site(
                                        doomed,
                                        DespawnPolicy::RecursiveDelink,
                                        q,
                                        site,
                                    ) && stored.is_delink_below(doomed, site, q, op);
                            },
                            _ => {},
                        }
                    }
                    if stored.is_move(doomed, op) {
                        match op {
                            Operation::Reparent(c, q) => {
                                let s = choose|s: Entity|
                                    doomed.contains(s) && #[trigger] stored.step_over(
                                        DespawnPolicy::Reparent,
                                        None,
                                        s,
                                        q,
                                        c,
                                    );
                            },
                            _ => {},
                        }
                    }
                } else {
                    assert(op == ops.last());
                }
            },
            DespawnPolicy::RecursiveDelink => {
                assert(ops.contains(op));
                assert(stored.is_delink_below(Set::empty(), gone, r, op));
            },
            DespawnPolicy::Reparent => {},
            DespawnPolicy::Orphan => {},
        }
    }
    lemma_edge_kept_all(stored, memo, fuel, ops, f, r, t);
    lemma_apply_all_wf(stored, memo, fuel, ops);
    lemma_apply_all_live(stored, memo, fuel, ops);
    assert forall|t2: Entity| #[trigger] after.edge(f, r, t2) implies t2 == t by {
        assert(after.exclusive(r));
    }
}

/// A list of operations that never reparents `y` along `r` adds no edge of
/// type `r` to `y`.
pub proof fn lemma_no_new_edge_all(
    g: Graph,
    memo: Memo,
    fuel: nat,
    ops: Seq<Operation>,
    x: Entity,
    r: RelationId,
    y: Entity,
)
    requires
        forall|i: int| 0 <= i < ops.len() ==> #[trigger] ops[i] != Operation::Reparent(y, r),
        !g.edge(x, r, y),
    ensures
        !g.apply_all(memo, fuel, ops).edge(x, r, y),
    decreases ops.len(),
{
    if ops.len() > 0 {
        let front = ops.drop_last();
        assert forall|i: int| 0 <= i < front.len() implies #[trigger] front[i] != Operation::Reparent(
            y,
            r,
        ) by {
            assert(front[i] == ops[i]);
        }
        lemma_no_new_edge_all(g, memo, fuel, front, x, r, y);
        let mid = g.apply_all(memo, fuel, front);
        if mid.apply(memo, fuel, ops.last()).edge(x, r, y) {
            lemma_no_new_edge(mid, memo, fuel, ops.last(), x, r, y);
            assert(ops[ops.len() - 1] == Operation::Reparent(y, r));
        }
    }
}

/// What the memo holds once the entities of `staged` are recorded in an
/// empty memo, all of them within `doomed`: an entry for exactly the staged
/// entities that have a target to be reparented; `None` for one without a
/// single foster; and for one whose single foster is outside `doomed`, that
/// foster with the slot of its edge.
pub proof fn lemma_ascend_all(g: Graph, staged: Seq<Entity>, doomed: Set<Entity>)
    requires
        forall|i: int| 0 <= i < staged.len() ==> doomed.contains(#[trigger] staged[i]),
    ensures
        forall|y: Entity, q: RelationId|
            #[trigger] g.ascend_all(Map::empty(), staged).contains_key((y, q)) <==> staged.contains(
                y,
            ) && g.has_target_under(y, q, DespawnPolicy::Reparent),
        forall|y: Entity, q: RelationId|
            #[trigger] g.ascend_all(Map::empty(), staged).contains_key((y, q)) ==> {
                let entry = g.ascend_all(Map::empty(), staged)[(y, q)];
                match g.sole_foster(y, q) {
                    Some(f) => !doomed.contains(f) ==> entry == Some((f, g.edges[(f, q, y)])),
                    None => entry is None,
                }
            },
    decreases staged.len(),
{
    let memo = g.ascend_all(Map::empty(), staged);
    if staged.len() > 0 {
        let front = staged.drop_last();
        let last = staged.last();
        let mid = g.ascend_all(Map::empty(), front);
        assert forall|i: int| 0 <= i < front.len() implies doomed.contains(#[trigger] front[i]) by {
            assert(front[i] == staged[i]);
        }
        lemma_ascend_all(g, front, doomed);
        assert(memo == g.ascend(mid, last));
        assert forall|y: Entity, q: RelationId|
            #[trigger] memo.contains_key((y, q)) <==> staged.contains(y) && g.has_target_under(
                y,
                q,
                DespawnPolicy::Reparent,
            ) by {
            if front.contains(y) {
                let i = choose|i: int| 0 <= i < front.len() && front[i] == y;
                assert(staged[i] == y);
            }
            if staged.contains(y) {
                let i = choose|i: int| 0 <= i < staged.len() && staged[i] == y;
                if i < front.len() {
                    assert(front[i] == y);
                }
            }
            assert(staged[staged.len() - 1] == last);
            assert(mid.contains_key((y, q)) <==> front.contains(y) && g.has_target_under(
                y,
                q,
                DespawnPolicy::Reparent,
            ));
        }
        assert forall|y: Entity, q: RelationId| #[trigger] memo.contains_key((y, q)) implies {
            let entry = memo[(y, q)];
            match g.sole_foster(y, q) {
                Some(f) => !doomed.contains(f) ==> entry == Some((f, g.edges[(f, q, y)])),
                None => entry is None,
            }
        } by {
            if mid.contains_key((y, q)) {
            } else {
                match g.sole_foster(y, q) {
                    Some(f) => {
                        if !doomed.contains(f) {
                            if mid.contains_key((f, q)) {
                                assert(front.contains(f));
                                let i = choose|i: int| 0 <= i < front.len() && front[i] == f;
                                assert(doomed.contains(front[i]));
                            }
                        }
                    },
                    None => {},
                }
            }
        }
    } else {
        assert forall|y: Entity, q: RelationId| !(#[trigger] memo.contains_key((y, q))) by {}
    }
}

/// A climb through the memo ends at an entity that the memo does not list.
pub proof fn lemma_valid_parent_outside(
    memo: Memo,
    x: Entity,
    r: RelationId,
    closest: Option<(Entity, usize)>,
    fuel: nat,
)
    requires
        closest matches Some(cl) ==> cl.0 == x,
    ensures
        valid_parent(memo, x, r, closest, fuel) matches Some(v) ==> !memo.contains_key((v.0, r)),
    decreases fuel,
{
    if fuel > 0 && memo.contains_key((x, r)) {
        match memo[(x, r)] {
            Some(up) => {
                lemma_valid_parent_outside(memo, up.0, r, Some(up), (fuel - 1) as nat);
            },
            None => {},
        }
    }
}

/// Whether the memo sends to `grand` no entity but `parent`, and no entity
/// to `parent`, along `relation`.
pub open spec fn climbs_aside(memo: Memo, relation: RelationId, grand: Entity, parent: Entity) -> bool {
    forall|y: Entity| #[trigger]
        memo.contains_key((y, relation)) ==> match memo[(y, relation)] {
            Some(v) => (v.0 == grand ==> y == parent) && v.0 != parent,
            None => true,
        }
}

/// Through a memo that sends no entity but `parent` to `grand`, a climb
/// that starts elsewhere does not end at `grand`.
pub proof fn lemma_valid_parent_aside(
    memo: Memo,
    x: Entity,
    r: RelationId,
    closest: Option<(Entity, usize)>,
    fuel: nat,
    grand: Entity,
    parent: Entity,
)
    requires
        climbs_aside(memo, r, grand, parent),
        x != parent,
        closest matches Some(cl) ==> cl.0 != grand,
    ensures
        valid_parent(memo, x, r, closest, fuel) matches Some(v) ==> v.0 != grand,
    decreases fuel,
{
    if fuel > 0 && memo.contains_key((x, r)) {
        match memo[(x, r)] {
            Some(up) => {
                lemma_valid_parent_aside(memo, up.0, r, Some(up), (fuel - 1) as nat, grand, parent);
            },
            None => {},
        }
    }
}

/// Where `relation` is exclusive, `grand` has the target `parent` and
/// `parent` the target `child`, which is not doomed: the memo of the doomed
/// entities sends no entity but `parent` to `grand`, and none to `parent`.
pub proof fn lemma_ascend_all_aside(
    g: Graph,
    staged: Seq<Entity>,
    doomed: Set<Entity>,
    relation: RelationId,
    grand: Entity,
    parent: Entity,
    child: Entity,
)
    requires
        g.wf(),
        g.exclusive(relation),
        g.edge(grand, relation, parent),
        g.edge(parent, relation, child),
        !doomed.contains(child),
        forall|i: int| 0 <= i < staged.len() ==> doomed.contains(#[trigger] staged[i]),
    ensures
        climbs_aside(g.ascend_all(Map::empty(), staged), relation, grand, parent),
    decreases staged.len(),
{
    let memo = g.ascend_all(Map::empty(), staged);
    if staged.len() > 0 {
        let front = staged.drop_last();
        let last = staged.last();
        let mid = g.ascend_all(Map::empty(), front);
        assert forall|i: int| 0 <= i < front.len() implies doomed.contains(#[trigger] front[i]) by {
            assert(front[i] == staged[i]);
        }
        lemma_ascend_all_aside(g, front, doomed, relation, grand, parent, child);
        assert(memo == g.ascend(mid, last));
        assert(doomed.contains(staged[staged.len() - 1]));
        assert forall|y: Entity| #[trigger] memo.contains_key((y, relation)) implies match memo[(
            y,
            relation,
        )] {
            Some(v) => (v.0 == grand ==> y == parent) && v.0 != parent,
            None => true,
        } by {
            if !mid.contains_key((y, relation)) {
                assert(y == last);
                match g.sole_foster(last, relation) {
                    Some(f) => {
                        assert(g.is_sole_foster(last, relation, f));
                        assert(g.edge(f, relation, last));
                        if f == parent {
                            assert(last == child);
                        }
                        if f == grand {
                            assert(last == parent);
                        }
                    },
                    None => {},
                }
            }
        }
    }
}

/// A list of delinks removes the edges that it names and changes nothing
/// else.
pub proof fn lemma_delinks_only(g: Graph, memo: Memo, fuel: nat, ops: Seq<Operation>)
    requires
        forall|i: int| 0 <= i < ops.len() ==> (#[trigger] ops[i]) is Delink,
    ensures
        g.apply_all(memo, fuel, ops).live == g.live,
        g.apply_all(memo, fuel, ops).kinds == g.kinds,
        g.apply_all(memo, fuel, ops).storage == g.storage,
        forall|x: Entity, r: RelationId, y: Entity| #[trigger]
            g.apply_all(memo, fuel, ops).edge(x, r, y) <==> g.edge(x, r, y) && !ops.contains(
                Operation::Delink(x, r, y),
            ),
        forall|x: Entity, r: RelationId, y: Entity| #[trigger]
            g.apply_all(memo, fuel, ops).edge(x, r, y) ==> g.apply_all(memo, fuel, ops).edges[(
                x,
                r,
                y,
            )] == g.edges[(x, r, y)],
    decreases ops.len(),
{
    if ops.len() > 0 {
        let front = ops.drop_last();
        let mid = g.apply_all(memo, fuel, front);
        let end = g.apply_all(memo, fuel, ops);
        assert forall|i: int| 0 <= i < front.len() implies (#[trigger] front[i]) is Delink by {
            assert(front[i] == ops[i]);
        }
        lemma_delinks_only(g, memo, fuel, front);
        assert(ops[ops.len() - 1] is Delink);
        assert(end == mid.apply(memo, fuel, ops.last()));
        assert forall|x: Entity, r: RelationId, y: Entity| #[trigger]
            end.edge(x, r, y) <==> g.edge(x, r, y) && !ops.contains(
                Operation::Delink(x, r, y),
            ) by {
            let op = Operation::Delink(x, r, y);
            assert(mid.edge(x, r, y) <==> g.edge(x, r, y) && !front.contains(op));
            if front.contains(op) {
                let i = choose|i: int| 0 <= i < front.len() && front[i] == op;
                assert(ops[i] == op);
            }
            if ops.contains(op) {
                let i = choose|i: int| 0 <= i < ops.len() && ops[i] == op;
                if i < front.len() {
                    assert(front[i] == op);
                }
            }
        }
        assert forall|x: Entity, r: RelationId, y: Entity| #[trigger]
            end.edge(x, r, y) implies end.edges[(x, r, y)] == g.edges[(x, r, y)] by {
            assert(mid.edge(x, r, y));
        }
    }
}

/// What holds of the one foster `parent` of `child` and of the ancestor in
/// `up` while `child` is not reparented yet, where `relation` is exclusive:
/// the ancestor has no target of that type, and `parent` none but `child`.
pub open spec fn awaits(
    g: Graph,
    child: Entity,
    relation: RelationId,
    parent: Entity,
    up: Option<(Entity, usize)>,
) -> bool {
    g.exclusive(relation) ==> (up matches Some(found) ==> {
        &&& forall|t: Entity| !g.edge(found.0, relation, t)
        &&& forall|t: Entity| #[trigger] g.edge(parent, relation, t) ==> t == child
    })
}

/// Where `child` has `parent` as its one foster of type `relation`, a
/// relation type whose policy is `Reparent`, and the memo sends `parent` to
/// `up`: a list of delinks and reparentings that delinks nothing from
/// `child` along `relation`, and reparents `child` along it no more than
/// once, leaves `child` with that one foster until it reparents `child`,
/// and from then on with the foster in `up` as its one foster, or with none
/// where `up` is `None`. Entities and payloads stay as they are.
pub proof fn lemma_reparent_progress(
    g: Graph,
    memo: Memo,
    fuel: nat,
    ops: Seq<Operation>,
    child: Entity,
    relation: RelationId,
    parent: Entity,
    up: Option<(Entity, usize)>,
)
    requires
        g.wf(),
        g.kinds.contains_key(relation),
        g.policy(relation) == DespawnPolicy::Reparent,
        g.is_sole_foster(child, relation, parent),
        memo.contains_key((parent, relation)),
        valid_parent(memo, parent, relation, None, fuel) == up,
        up matches Some(found) ==> !memo.contains_key((found.0, relation)) && g.live.contains(found.0)
            && found.1 < g.storage[(found.0, relation)].len(),
        awaits(g, child, relation, parent, up),
        g.exclusive(relation) ==> (up matches Some(found) ==> climbs_aside(
            memo,
            relation,
            found.0,
            parent,
        )),
        forall|i: int|
            0 <= i < ops.len() ==> match #[trigger] ops[i] {
                Operation::Despawn(_) => false,
                Operation::Delink(_, q, y) => !(q == relation && y == child),
                Operation::Reparent(_, _) => true,
            },
        forall|i: int, j: int|
            #![trigger ops[i], ops[j]]
            0 <= i < j < ops.len() ==> !(ops[i] == Operation::Reparent(child, relation) && ops[j]
                == Operation::Reparent(child, relation)),
    ensures
        g.apply_all(memo, fuel, ops).wf(),
        g.apply_all(memo, fuel, ops).live == g.live,
        g.apply_all(memo, fuel, ops).kinds == g.kinds,
        g.apply_all(memo, fuel, ops).storage == g.storage,
        !ops.contains(Operation::Reparent(child, relation)) ==> g.apply_all(
            memo,
            fuel,
            ops,
        ).is_sole_foster(child, relation, parent) && awaits(
            g.apply_all(memo, fuel, ops),
            child,
            relation,
            parent,
            up,
        ),
        ops.contains(Operation::Reparent(child, relation)) ==> match up {
            Some(found) => g.apply_all(memo, fuel, ops).is_sole_foster(child, relation, found.0)
                && g.apply_all(memo, fuel, ops).edges[(found.0, relation, child)] == found.1,
            None => forall|f: Entity| !g.apply_all(memo, fuel, ops).edge(f, relation, child),
        },
    decreases ops.len(),
{
    if ops.len() > 0 {
        let front = ops.drop_last();
        let op = ops.last();
        let mid = g.apply_all(memo, fuel, front);
        let end = g.apply_all(memo, fuel, ops);
        let moved = Operation::Reparent(child, relation);
        assert forall|i: int| 0 <= i < front.len() implies match #[trigger] front[i] {
            Operation::Despawn(_) => false,
            Operation::Delink(_, q, y) => !(q == relation && y == child),
            Operation::Reparent(_, _) => true,
        } by {
            assert(front[i] == ops[i]);
        }
        assert forall|i: int, j: int|
            #![trigger front[i], front[j]]
            0 <= i < j < front.len() implies !(front[i] == moved && front[j] == moved) by {
            assert(front[i] == ops[i] && front[j] == ops[j]);
        }
        lemma_reparent_progress(g, memo, fuel, front, child, relation, parent, up);
        lemma_apply_wf(mid, memo, fuel, op);
        assert(end == mid.apply(memo, fuel, op));
        assert(ops[ops.len() - 1] == op);
        assert(ops.contains(moved) <==> front.contains(moved) || op == moved) by {
            if front.contains(moved) {
                let i = choose|i: int| 0 <= i < front.len() && front[i] == moved;
                assert(ops[i] == moved);
            }
            if ops.contains(moved) {
                let i = choose|i: int| 0 <= i < ops.len() && ops[i] == moved;
                if i < front.len() {
                    assert(front[i] == moved);
                }
            }
        }
        match op {
            Operation::Despawn(_) => {},
            Operation::Delink(x, q, y) => {
                assert(end.storage == g.storage);
                assert forall|f: Entity| end.edge(f, relation, child) == mid.edge(
                    f,
                    relation,
                    child,
                ) by {}
                if !front.contains(moved) {
                    assert(awaits(end, child, relation, parent, up)) by {
                        assert(awaits(mid, child, relation, parent, up));
                        assert(end.exclusive(relation) == g.exclusive(relation));
                        match up {
                            Some(found) => {
                                if g.exclusive(relation) {
                                    assert forall|t: Entity| !end.edge(found.0, relation, t) by {
                                        assert(!mid.edge(found.0, relation, t));
                                    }
                                    assert forall|t: Entity| #[trigger]
                                        end.edge(parent, relation, t) implies t == child by {
                                        assert(mid.edge(parent, relation, t));
                                    }
                                }
                            },
                            None => {},
                        }
                    }
                }
            },
            Operation::Reparent(c, q) => {
                if c == child && q == relation {
                    if front.contains(moved) {
                        let i = choose|i: int| 0 <= i < front.len() && front[i] == moved;
                        assert(ops[i] == moved && ops[ops.len() - 1] == moved);
                    } else {
                        assert(mid.is_sole_foster(child, relation, parent));
                        assert(mid.sole_foster(child, relation) == Some(parent));
                        let cut = mid.unlink(parent, relation, child);
                        assert forall|f: Entity| !cut.edge(f, relation, child) by {
                            if cut.edge(f, relation, child) {
                                assert(mid.edge(f, relation, child));
                            }
                        }
                        match up {
                            Some(found) => {
                                assert(mid.edge_ok(parent, relation, child));
                                if cut.exclusive(relation) {
                                    assert forall|t: Entity| #[trigger]
                                        cut.edge(found.0, relation, t) implies t == child by {
                                        assert(mid.edge(found.0, relation, t));
                                    }
                                }
                                assert(cut.can_link(found.0, relation, child, found.1));
                                assert(end == cut.link(found.0, relation, child, found.1));
                                assert forall|f: Entity| #[trigger]
                                    end.edge(f, relation, child) implies f == found.0 by {
                                    if f != found.0 {
                                        assert(cut.edge(f, relation, child));
                                    }
                                }
                            },
                            None => {
                                assert(end == cut);
                            },
                        }
                    }
                } else {
                    assert(end.storage == g.storage && (forall|f: Entity|
                        end.edge(f, relation, child) == mid.edge(f, relation, child)) && (
                    !front.contains(moved) ==> awaits(end, child, relation, parent, up))) by {
                        if mid.kinds.contains_key(q) && mid.policy(q) == DespawnPolicy::Reparent {
                            match mid.sole_foster(c, q) {
                                Some(other) => {
                                    assert(mid.is_sole_foster(c, q, other));
                                    {
                                        let cut = mid.unlink(other, q, c);
                                        let climbed = valid_parent(memo, other, q, None, fuel);
                                        lemma_valid_parent_outside(memo, other, q, None, fuel);
                                        if !front.contains(moved) && g.exclusive(relation) && q
                                            == relation {
                                            match up {
                                                Some(found) => {
                                                    if other == parent {
                                                        assert(mid.edge(parent, relation, c));
                                                    }
                                                    lemma_valid_parent_aside(
                                                        memo,
                                                        other,
                                                        q,
                                                        None,
                                                        fuel,
                                                        found.0,
                                                        parent,
                                                    );
                                                    assert forall|t: Entity| !end.edge(
                                                        found.0,
                                                        relation,
                                                        t,
                                                    ) by {
                                                        if end.edge(found.0, relation, t) {
                                                            assert(!mid.edge(found.0, relation, t));
                                                            assert(cut.edge(found.0, relation, t)
                                                                || (climbed matches Some(top)
                                                                && top.0 == found.0));
                                                        }
                                                    }
                                                    assert forall|t: Entity| #[trigger]
                                                        end.edge(parent, relation, t) implies t
                                                        == child by {
                                                        if !mid.edge(parent, relation, t) {
                                                            assert(cut.edge(parent, relation, t)
                                                                || (climbed matches Some(top)
                                                                && top.0 == parent));
                                                        }
                                                    }
                                                },
                                                None => {},
                                            }
                                        }
                                        if !front.contains(moved) && g.exclusive(relation) && q
                                            != relation {
                                            match up {
                                                Some(found) => {
                                                    assert forall|t: Entity| !end.edge(
                                                        found.0,
                                                        relation,
                                                        t,
                                                    ) by {
                                                        assert(!mid.edge(found.0, relation, t));
                                                    }
                                                    assert forall|t: Entity| #[trigger]
                                                        end.edge(parent, relation, t) implies t
                                                        == child by {
                                                        assert(mid.edge(parent, relation, t));
                                                    }
                                                },
                                                None => {},
                                            }
                                        }
                                    }
                                },
                                None => {},
                            }
                        }
                    }
                }
            },
        }
    } else {
        assert(!ops.contains(Operation::Reparent(child, relation)));
    }
}

/// Reparenting on despawn: let `child` survive the despawn of `root`, and
/// let its one foster of type `relation` be the doomed entity `parent`,
/// where `relation` has the policy `Reparent`. Once `root` is despawned
/// with all that this entails, the one foster of `child` is the one foster
/// that `parent` had, where that one survives, and the edge to `child` has
/// the slot that the edge to `parent` had; and `child` has no foster of
/// that type where `parent` had none or several.
pub proof fn lemma_reparent_on_despawn(
    g: Graph,
    root: Entity,
    memo: Memo,
    fuel: nat,
    ops: Seq<Operation>,
    child: Entity,
    relation: RelationId,
    parent: Entity,
)
    requires
        g.wf(),
        g.despawn_plan(root, Map::empty(), memo, ops),
        climbable(memo, fuel),
        g.policy(relation) == DespawnPolicy::Reparent,
        g.is_sole_foster(child, relation, parent),
        g.doomed(root, parent),
        !g.doomed(root, child),
    ensures
        match g.sole_foster(parent, relation) {
            Some(grand) => !g.doomed(root, grand) ==> g.apply_all(memo, fuel, ops).despawn(
                root,
            ).is_sole_foster(child, relation, grand) && g.apply_all(memo, fuel, ops).despawn(
                root,
            ).edges[(grand, relation, child)] == g.edges[(grand, relation, parent)],
            None => forall|f: Entity|
                !g.apply_all(memo, fuel, ops).despawn(root).edge(f, relation, child),
        },
{
    let doomed = g.doomed_set(root);
    let (staged, cuts, downstream, moves, removals, sites, blocks, fosters) = choose|
        staged: Seq<Entity>,
        cuts: Seq<Operation>,
        downstream: Seq<Operation>,
        moves: Seq<Operation>,
        removals: Seq<Operation>,
        sites: Seq<(Entity, RelationId, Entity)>,
        blocks: Seq<Seq<Operation>>,
        fosters: Seq<Entity>,
    |
        #![trigger g.plan_parts(root, Map::empty(), memo, ops, staged, cuts, downstream, moves, removals), g.plan_order(root, staged, cuts, downstream, moves, removals, sites, blocks, fosters)]
        g.plan_parts(root, Map::empty(), memo, ops, staged, cuts, downstream, moves, removals)
            && g.plan_order(root, staged, cuts, downstream, moves, removals, sites, blocks, fosters);
    // The child is reparented once: its one foster has one edge to it.
    assert forall|i: int, j: int|
        #![trigger moves[i], moves[j]]
        0 <= i < j < moves.len() implies !(moves[i] == Operation::Reparent(child, relation)
        && moves[j] == Operation::Reparent(child, relation)) by {
        if moves[i] == Operation::Reparent(child, relation) && moves[j] == Operation::Reparent(
            child,
            relation,
        ) {
            assert(g.doomed_set(root).contains(fosters[i]));
            assert(g.doomed_set(root).contains(fosters[j]));
            assert(g.edge(fosters[i], relation, child));
            assert(g.edge(fosters[j], relation, child));
            assert(fosters[i] == fosters[j]);
        }
    }
    let delinks = cuts + downstream;
    let moved = Operation::Reparent(child, relation);
    assert(g.edge(parent, relation, child));
    assert(g.edge_ok(parent, relation, child));
    assert(g.has_target_under(parent, relation, DespawnPolicy::Reparent));
    assert forall|i: int| 0 <= i < staged.len() implies doomed.contains(#[trigger] staged[i]) by {
        assert(staged.contains(staged[i]));
    }
    lemma_ascend_all(g, staged, doomed);
    assert(staged.contains(parent));
    assert(memo.contains_key((parent, relation)));
    lemma_contains_add(cuts, downstream);
    // The delinks come first; none of them takes a foster from `child`
    // along `relation`.
    assert forall|i: int| 0 <= i < delinks.len() implies (#[trigger] delinks[i]) is Delink by {
        let op = delinks[i];
        assert(delinks.contains(op));
        assert(cuts.contains(op) <==> g.is_foster_cut(doomed, op));
        assert(downstream.contains(op) <==> g.is_downstream_cut(doomed, op));
    }
    assert forall|x: Entity| !delinks.contains(Operation::Delink(x, relation, child)) by {
        let op = Operation::Delink(x, relation, child);
        assert(cuts.contains(op) <==> g.is_foster_cut(doomed, op));
        assert(downstream.contains(op) <==> g.is_downstream_cut(doomed, op));
        if g.is_downstream_cut(doomed, op) {
            let site = choose|site: Entity|
                #[trigger] g.is_site(doomed, DespawnPolicy::RecursiveDelink, relation, site)
                    && g.is_delink_below(doomed, site, relation, op);
        }
    }
    let start = g.apply_all(memo, fuel, delinks);
    lemma_delinks_only(g, memo, fuel, delinks);
    lemma_apply_all_wf(g, memo, fuel, delinks);
    assert(start.is_sole_foster(child, relation, parent)) by {
        assert(start.edge(parent, relation, child));
        assert forall|f: Entity| #[trigger] start.edge(f, relation, child) implies f == parent by {
            assert(g.edge(f, relation, child));
        }
    }
    // Then the reparentings, then the despawns, which reparent nothing and
    // spare both ends of the new edge.
    assert forall|i: int| 0 <= i < moves.len() implies match #[trigger] moves[i] {
        Operation::Despawn(_) => false,
        Operation::Delink(_, q, y) => !(q == relation && y == child),
        Operation::Reparent(_, _) => true,
    } by {
        assert(moves.contains(moves[i]));
    }
    assert(g.step_over(DespawnPolicy::Reparent, None, parent, relation, child));
    assert(g.is_site(doomed, DespawnPolicy::Reparent, relation, child));
    assert(g.is_move(doomed, moved));
    assert(moves.contains(moved));
    assert forall|i: int| 0 <= i < removals.len() implies #[trigger] removals[i] != moved by {
        assert(removals.contains(removals[i]));
    }
    lemma_apply_all_add(g, memo, fuel, delinks, moves);
    lemma_apply_all_add(g, memo, fuel, delinks + moves, removals);
    assert(ops == delinks + moves + removals);
    let mid = start.apply_all(memo, fuel, moves);
    let end = mid.apply_all(memo, fuel, removals);
    let last = end.despawn(root);
    lemma_root_doomed(g, root);
    match g.sole_foster(parent, relation) {
        Some(grand) => {
            if !g.doomed(root, grand) {
                assert(g.is_sole_foster(parent, relation, grand));
                assert(g.edge_ok(grand, relation, parent));
                let up = Some((grand, g.edges[(grand, relation, parent)]));
                assert(memo[(parent, relation)] == up);
                assert(!memo.contains_key((grand, relation))) by {
                    if memo.contains_key((grand, relation)) {
                        assert(staged.contains(grand));
                    }
                }
                assert(valid_parent(memo, parent, relation, None, fuel) == up) by {
                    assert(fuel >= 2);
                    assert(valid_parent(memo, grand, relation, up, (fuel - 1) as nat) == up);
                }
                if g.exclusive(relation) {
                    lemma_ascend_all_aside(g, staged, doomed, relation, grand, parent, child);
                    assert forall|t: Entity| !start.edge(grand, relation, t) by {
                        if g.edge(grand, relation, t) {
                            assert(t == parent);
                            let op = Operation::Delink(grand, relation, parent);
                            assert(cuts.contains(op) <==> g.is_foster_cut(doomed, op));
                            assert(delinks.contains(op));
                        }
                    }
                    assert forall|t: Entity| #[trigger] start.edge(parent, relation, t) implies t
                        == child by {
                        assert(g.edge(parent, relation, t));
                    }
                }
                lemma_reparent_progress(start, memo, fuel, moves, child, relation, parent, up);
                assert(mid.is_sole_foster(child, relation, grand));
                assert forall|i: int| 0 <= i < removals.len() implies !touches(
                    #[trigger] removals[i],
                    grand,
                    relation,
                    child,
                ) by {
                    assert(removals.contains(removals[i]));
                }
                lemma_edge_kept_all(mid, memo, fuel, removals, grand, relation, child);
                assert forall|f: Entity| #[trigger] last.edge(f, relation, child) implies f
                    == grand by {
                    assert(end.edge(f, relation, child));
                    if !mid.edge(f, relation, child) {
                        lemma_no_new_edge_all(mid, memo, fuel, removals, f, relation, child);
                    }
                }
                assert(last.edge(grand, relation, child));
            }
        },
        None => {
            assert(memo[(parent, relation)] is None);
            assert(valid_parent(memo, parent, relation, None, fuel) is None);
            lemma_reparent_progress(start, memo, fuel, moves, child, relation, parent, None);
            assert forall|f: Entity| !last.edge(f, relation, child) by {
                lemma_no_new_edge_all(mid, memo, fuel, removals, f, relation, child);
            }
        },
    }
}

/// A list of operations leaves the payloads of every entity that it does
/// not despawn as they are.
pub proof fn lemma_apply_all_storage(
    g: Graph,
    memo: Memo,
    fuel: nat,
    ops: Seq<Operation>,
    e: Entity,
    r: RelationId,
)
    requires
        !ops.contains(Operation::Despawn(e)),
    ensures
        g.apply_all(memo, fuel, ops).storage[(e, r)] == g.storage[(e, r)],
    decreases ops.len(),
{
    if ops.len() > 0 {
        let front = ops.drop_last();
        if front.contains(Operation::Despawn(e)) {
            let i = choose|i: int| 0 <= i < front.len() && front[i] == Operation::Despawn(e);
            assert(ops[i] == Operation::Despawn(e));
        }
        assert(ops[ops.len() - 1] == ops.last());
        lemma_apply_all_storage(g, memo, fuel, front, e, r);
    }
}

/// What despawning spares: an edge between two survivors stays in place,
/// in its slot, unless it is delinked below a doomed entity or its target
/// is reparented along its relation type.
pub proof fn lemma_despawn_spares(
    g: Graph,
    root: Entity,
    memo: Memo,
    fuel: nat,
    ops: Seq<Operation>,
    f: Entity,
    r: RelationId,
    t: Entity,
)
    requires
        g.despawn_plan(root, Map::empty(), memo, ops),
        g.edge(f, r, t),
        !g.doomed(root, f),
        !g.doomed(root, t),
        !g.is_downstream_cut(g.doomed_set(root), Operation::Delink(f, r, t)),
        !g.is_site(g.doomed_set(root), DespawnPolicy::Reparent, r, t),
    ensures
        g.apply_all(memo, fuel, ops).despawn(root).edge(f, r, t),
        g.apply_all(memo, fuel, ops).despawn(root).edges[(f, r, t)] == g.edges[(f, r, t)],
{
    lemma_plan_members(g, root, Map::empty(), memo, ops);
    lemma_root_doomed(g, root);
    assert forall|i: int| 0 <= i < ops.len() implies !touches(#[trigger] ops[i], f, r, t) by {
        assert(ops.contains(ops[i]));
    }
    lemma_edge_kept_all(g, memo, fuel, ops, f, r, t);
    lemma_apply_all_live(g, memo, fuel, ops);
}

/// What despawning adds: no edge but to a survivor that is reparented
/// along the relation type of the edge.
pub proof fn lemma_despawn_adds(
    g: Graph,
    root: Entity,
    memo: Memo,
    fuel: nat,
    ops: Seq<Operation>,
    f: Entity,
    r: RelationId,
    t: Entity,
)
    requires
        g.despawn_plan(root, Map::empty(), memo, ops),
        !g.edge(f, r, t),
        g.apply_all(memo, fuel, ops).despawn(root).edge(f, r, t),
    ensures
        g.is_site(g.doomed_set(root), DespawnPolicy::Reparent, r, t),
{
    lemma_plan_members(g, root, Map::empty(), memo, ops);
    if !g.is_site(g.doomed_set(root), DespawnPolicy::Reparent, r, t) {
        assert forall|i: int| 0 <= i < ops.len() implies #[trigger] ops[i] != Operation::Reparent(
            t,
            r,
        ) by {
            assert(ops.contains(ops[i]));
        }
        lemma_no_new_edge_all(g, memo, fuel, ops, f, r, t);
    }
}

/// What despawning leaves of the payloads: those of every survivor.
pub proof fn lemma_despawn_storage(
    g: Graph,
    root: Entity,
    memo: Memo,
    fuel: nat,
    ops: Seq<Operation>,
    e: Entity,
    r: RelationId,
)
    requires
        g.despawn_plan(root, Map::empty(), memo, ops),
        !g.doomed(root, e),
    ensures
        g.apply_all(memo, fuel, ops).despawn(root).storage[(e, r)] == g.storage[(e, r)],
{
    lemma_despawn_plan_removals(g, root, Map::empty(), memo, ops);
    lemma_apply_all_storage(g, memo, fuel, ops, e, r);
    lemma_root_doomed(g, root);
    lemma_apply_all_live(g, memo, fuel, ops);
}

/// The removal of an edge whose relation type has the policy `Orphan` sets
/// off nothing; with the policy `Reparent` it detaches the child from the
/// one foster that it has left.
pub proof fn lemma_resolve_plain(
    g: Graph,
    policy: DespawnPolicy,
    parent: Entity,
    relation: RelationId,
    child: Entity,
    ops: Seq<Operation>,
    memo: Memo,
    fuel: nat,
)
    requires
        policy == DespawnPolicy::Orphan || policy == DespawnPolicy::Reparent,
        g.resolves(policy, Operation::Delink(parent, relation, child), ops, memo, fuel),
    ensures
        g.apply_all(memo, fuel, ops) == (if policy == DespawnPolicy::Reparent {
            g.orphaned(relation, child)
        } else {
            g
        }),
{
    if policy == DespawnPolicy::Reparent {
        assert(ops.drop_last() =~= Seq::<Operation>::empty());
        assert(g.apply_all(memo, fuel, ops.drop_last()) == g);
        assert(g.apply_all(memo, fuel, ops) == g.apply(memo, fuel, ops.last()));
        assert forall|x: Entity| valid_parent(memo, x, relation, None, fuel) is None by {}
    }
}

/// The removal of an edge whose relation type has the policy
/// `RecursiveDelink` removes every edge of that type that leaves the child
/// or an entity reached from it over such edges, and changes nothing else.
pub proof fn lemma_resolve_delink(
    g: Graph,
    parent: Entity,
    relation: RelationId,
    child: Entity,
    ops: Seq<Operation>,
    memo: Memo,
    fuel: nat,
)
    requires
        g.resolves(
            DespawnPolicy::RecursiveDelink,
            Operation::Delink(parent, relation, child),
            ops,
            memo,
            fuel,
        ),
    ensures
        g.apply_all(memo, fuel, ops).live == g.live,
        g.apply_all(memo, fuel, ops).kinds == g.kinds,
        g.apply_all(memo, fuel, ops).storage == g.storage,
        forall|x: Entity, q: RelationId, y: Entity| #[trigger]
            g.apply_all(memo, fuel, ops).edge(x, q, y) <==> g.edge(x, q, y) && !g.is_delink_below(
                Set::empty(),
                child,
                relation,
                Operation::Delink(x, q, y),
            ),
        forall|x: Entity, q: RelationId, y: Entity| #[trigger]
            g.apply_all(memo, fuel, ops).edge(x, q, y) ==> g.apply_all(memo, fuel, ops).edges[(
                x,
                q,
                y,
            )] == g.edges[(x, q, y)],
{
    assert forall|i: int| 0 <= i < ops.len() implies (#[trigger] ops[i]) is Delink by {
        assert(ops.contains(ops[i]));
    }
    lemma_delinks_only(g, memo, fuel, ops);
}

/// A list of operations leaves no payload to a live entity that it
/// despawns.
pub proof fn lemma_apply_all_clears(
    g: Graph,
    memo: Memo,
    fuel: nat,
    ops: Seq<Operation>,
    e: Entity,
    r: RelationId,
)
    requires
        g.live.contains(e),
        ops.contains(Operation::Despawn(e)),
    ensures
        g.apply_all(memo, fuel, ops).storage[(e, r)] == Seq::<u64>::empty(),
    decreases ops.len(),
{
    let front = ops.drop_last();
    let mid = g.apply_all(memo, fuel, front);
    lemma_apply_all_live(g, memo, fuel, front);
    assert(ops[ops.len() - 1] == ops.last());
    if front.contains(Operation::Despawn(e)) {
        lemma_apply_all_clears(g, memo, fuel, front, e, r);
    } else {
        let i = choose|i: int| 0 <= i < ops.len() && ops[i] == Operation::Despawn(e);
        if i < front.len() {
            assert(front[i] == Operation::Despawn(e));
        }
        assert(ops.last() == Operation::Despawn(e));
        assert(mid.live.contains(e));
    }
}

/// Despawning with all that it entails: what the plan for the despawn of
/// `root` and the despawn of `root` itself make of a valid graph.
pub proof fn lemma_despawned(g: Graph, root: Entity, memo: Memo, fuel: nat, ops: Seq<Operation>)
    requires
        g.wf(),
        g.despawn_plan(root, Map::empty(), memo, ops),
        climbable(memo, fuel),
    ensures
        g.despawned(root, g.apply_all(memo, fuel, ops).despawn(root)),
{
    let doomed = g.doomed_set(root);
    let mid = g.apply_all(memo, fuel, ops);
    let after = mid.despawn(root);
    lemma_apply_all_live(g, memo, fuel, ops);
    lemma_despawn_plan_live(g, root, Map::empty(), memo, fuel, ops);
    lemma_despawn_plan_removals(g, root, Map::empty(), memo, ops);
    lemma_root_doomed(g, root);
    assert forall|e: Entity, r: RelationId| #[trigger]
        after.storage[(e, r)] == (if g.doomed(root, e) {
            Seq::empty()
        } else {
            g.storage[(e, r)]
        }) by {
        if g.doomed(root, e) {
            let path = choose|path: Seq<Entity>| #[trigger]
                g.is_walk(DespawnPolicy::RecursiveDespawn, None, Set::empty(), root, path)
                    && path.last() == e;
            assert(g.live.contains(path[path.len() - 1]));
            if e != root {
                lemma_apply_all_clears(g, memo, fuel, ops, e, r);
            }
        } else {
            lemma_despawn_storage(g, root, memo, fuel, ops, e, r);
        }
    }
    assert forall|f: Entity, r: RelationId, t: Entity| #[trigger]
        g.edge(f, r, t) && !g.doomed(root, f) && !g.doomed(root, t) && !g.is_downstream_cut(
            doomed,
            Operation::Delink(f, r, t),
        ) && !g.is_site(doomed, DespawnPolicy::Reparent, r, t) implies after.edge(f, r, t)
        && after.edges[(f, r, t)] == g.edges[(f, r, t)] by {
        lemma_despawn_spares(g, root, memo, fuel, ops, f, r, t);
    }
    assert forall|f: Entity, r: RelationId, t: Entity| #[trigger]
        after.edge(f, r, t) && !g.edge(f, r, t) implies g.is_site(
        doomed,
        DespawnPolicy::Reparent,
        r,
        t,
    ) by {
        lemma_despawn_adds(g, root, memo, fuel, ops, f, r, t);
    }
    assert forall|site: Entity, r: RelationId, e: Entity, c: Entity|
        #![trigger g.delink_reaches(doomed, site, r, e), after.edge(e, r, c)]
        g.is_site(doomed, DespawnPolicy::RecursiveDelink, r, site) && g.delink_reaches(
            doomed,
            site,
            r,
            e,
        ) implies !after.edge(e, r, c) by {
        lemma_despawn_delinks_downstream(g, root, Map::empty(), memo, fuel, ops, site, r, e, c);
    }
    assert forall|child: Entity, r: RelationId, parent: Entity| #[trigger]
        g.is_sole_foster(child, r, parent) && g.policy(r) == DespawnPolicy::Reparent && g.doomed(
            root,
            parent,
        ) && !g.doomed(root, child) implies (match g.sole_foster(parent, r) {
        Some(grand) => !g.doomed(root, grand) ==> after.is_sole_foster(child, r, grand)
            && after.edges[(grand, r, child)] == g.edges[(grand, r, parent)],
        None => forall|f: Entity| !after.edge(f, r, child),
    }) by {
        lemma_reparent_on_despawn(g, root, memo, fuel, ops, child, r, parent);
    }
}

/// Resolving the removal of an edge: what the cascade that it sets off
/// makes of a valid graph.
pub proof fn lemma_resolved(
    g: Graph,
    policy: DespawnPolicy,
    parent: Entity,
    relation: RelationId,
    child: Entity,
    ops: Seq<Operation>,
    memo: Memo,
    fuel: nat,
)
    requires
        g.wf(),
        g.resolves(policy, Operation::Delink(parent, relation, child), ops, memo, fuel),
    ensures
        g.resolved(policy, relation, child, g.apply_all(memo, fuel, ops)),
{
    match policy {
        DespawnPolicy::RecursiveDespawn => {
            let plan = ops.drop_last();
            lemma_despawned(g, child, memo, fuel, plan);
            assert(g.apply_all(memo, fuel, ops) == g.apply_all(memo, fuel, plan).despawn(child));
        },
        DespawnPolicy::RecursiveDelink => {
            lemma_resolve_delink(g, parent, relation, child, ops, memo, fuel);
            lemma_apply_all_live(g, memo, fuel, ops);
        },
        DespawnPolicy::Reparent => {
            lemma_resolve_plain(g, policy, parent, relation, child, ops, memo, fuel);
        },
        DespawnPolicy::Orphan => {
            lemma_resolve_plain(g, policy, parent, relation, child, ops, memo, fuel);
        },
    }
}

} // verus!

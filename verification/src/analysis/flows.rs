//! What the flow graph of a function and its loops are, in terms of the statements of the blocks.
use vstd::prelude::*;

use super::cfg::{edges_of, flow_edges, sources_to, targets_from, Cfg};
use super::dom::DomTree;
use super::loops::{
    back_edges_from, back_edges_of, is_header, leaves, returns_to, walk_around, LoopInfo,
};
use super::order::unseen;
use crate::ir::{BlockModel, StmtModel};

verus! {

/// The last statement of the block passes control to block `b`.
pub open spec fn leads_to(block: BlockModel, b: u32) -> bool {
    block.stmts.len() > 0 && match block.stmts.last() {
        StmtModel::Jump(id) => id == b,
        StmtModel::Branch { cond, true_id, false_id } => true_id == b || false_id == b,
        _ => false,
    }
}

/// Block `k` has the id and leads to `b`.
pub open spec fn leads_from(blocks: Seq<BlockModel>, k: int, a: u32, b: u32) -> bool {
    0 <= k < blocks.len() && blocks[k].id == a && leads_to(blocks[k], b)
}

proof fn lemma_edges_of(block: BlockModel, a: u32, b: u32)
    ensures
        edges_of(block).contains((a, b)) <==> block.id == a && leads_to(block, b),
{
    let edges = edges_of(block);
    if edges.contains((a, b)) {
        let i = choose|i: int| 0 <= i < edges.len() && edges[i] == (a, b);
        assert(edges[i] == (block.id, block.successors()[i]));
    }
    if block.id == a && leads_to(block, b) {
        match block.stmts.last() {
            StmtModel::Jump(id) => {
                assert(edges[0] == (a, b));
            },
            StmtModel::Branch { cond, true_id, false_id } => {
                if true_id == b {
                    assert(edges[0] == (a, b));
                } else {
                    assert(edges[1] == (a, b));
                }
            },
            _ => {},
        }
    }
}

proof fn lemma_flow_edges(blocks: Seq<BlockModel>, a: u32, b: u32)
    ensures
        flow_edges(blocks).contains((a, b)) <==> exists|k: int| #[trigger]
            leads_from(blocks, k, a, b),
    decreases blocks.len(),
{
    if blocks.len() > 0 {
        let rest = blocks.drop_last();
        let n = rest.len() as int;
        let x = flow_edges(rest);
        let y = edges_of(blocks.last());
        lemma_flow_edges(rest, a, b);
        lemma_edges_of(blocks.last(), a, b);
        if x.contains((a, b)) {
            let i = choose|i: int| 0 <= i < x.len() && x[i] == (a, b);
            assert((x + y)[i] == (a, b));
            let k = choose|k: int| #[trigger] leads_from(rest, k, a, b);
            assert(rest[k] == blocks[k]);
            assert(leads_from(blocks, k, a, b));
        }
        if y.contains((a, b)) {
            let i = choose|i: int| 0 <= i < y.len() && y[i] == (a, b);
            assert((x + y)[x.len() + i] == (a, b));
            assert(leads_from(blocks, n, a, b));
        }
        if exists|k: int| #[trigger] leads_from(blocks, k, a, b) {
            let k = choose|k: int| #[trigger] leads_from(blocks, k, a, b);
            if k < n {
                assert(rest[k] == blocks[k]);
                assert(leads_from(rest, k, a, b));
            }
        }
    }
}

/// In the flow graph of a function there is an edge exactly where the last statement of a block
/// passes control on; it starts at the first block.
pub proof fn lemma_flow(cfg: Cfg, blocks: Seq<BlockModel>, a: u32, b: u32)
    requires
        cfg.describes(blocks),
    ensures
        cfg.graph().edge(a, b) <==> exists|k: int| #[trigger] leads_from(blocks, k, a, b),
        cfg.pred_list(b).contains(a) <==> exists|k: int| #[trigger] leads_from(blocks, k, a, b),
        cfg.succ_list(a).contains(b) <==> exists|k: int| #[trigger] leads_from(blocks, k, a, b),
        blocks.len() > 0 ==> cfg.graph().entry == blocks[0].id,
        cfg.block_ids@.len() == blocks.len(),
        forall|k: int| 0 <= k < blocks.len() ==> #[trigger] cfg.block_ids@[k] == blocks[k].id,
{
    cfg.lemma_describes_wf(blocks);
    lemma_flow_edges(blocks, a, b);
    assert(cfg.graph().edge(a, b) <==> flow_edges(blocks).contains((a, b)));
    assert(cfg.pred_list(b).contains(a) <==> cfg.graph().edge(a, b));
}

proof fn lemma_targets_joined(x: Seq<(u32, u32)>, y: Seq<(u32, u32)>, id: u32)
    ensures
        targets_from(x + y, id) == targets_from(x, id) + targets_from(y, id),
    decreases y.len(),
{
    if y.len() == 0 {
        assert(x + y =~= x);
        assert(targets_from(x, id) + targets_from(y, id) =~= targets_from(x, id));
    } else {
        assert((x + y).drop_last() =~= x + y.drop_last());
        lemma_targets_joined(x, y.drop_last(), id);
        assert(targets_from(x, id) + targets_from(y.drop_last(), id).push(y.last().1) =~= (
        targets_from(x, id) + targets_from(y.drop_last(), id)).push(y.last().1));
    }
}

proof fn lemma_targets_own(s: Seq<u32>, from: u32, id: u32)
    ensures
        from == id ==> targets_from(s.map_values(|t: u32| (from, t)), id) == s,
        from != id ==> targets_from(s.map_values(|t: u32| (from, t)), id).len() == 0,
    decreases s.len(),
{
    let e = s.map_values(|t: u32| (from, t));
    if s.len() > 0 {
        assert(e.drop_last() =~= s.drop_last().map_values(|t: u32| (from, t)));
        lemma_targets_own(s.drop_last(), from, id);
        assert(s.drop_last().push(s.last()) =~= s);
    } else {
        assert(targets_from(e, id) =~= s);
    }
}

proof fn lemma_targets_of(blocks: Seq<BlockModel>, k: int, id: u32)
    requires
        forall|i: int, j: int|
            0 <= i < j < blocks.len() ==> (#[trigger] blocks[i]).id != (#[trigger] blocks[j]).id,
    ensures
        0 <= k < blocks.len() && blocks[k].id == id ==> targets_from(flow_edges(blocks), id)
            == blocks[k].successors(),
        (forall|i: int| 0 <= i < blocks.len() ==> (#[trigger] blocks[i]).id != id) ==> targets_from(
            flow_edges(blocks),
            id,
        ).len() == 0,
    decreases blocks.len(),
{
    if blocks.len() > 0 {
        let rest = blocks.drop_last();
        let last = blocks.last();
        let n = rest.len() as int;
        assert forall|i: int, j: int| 0 <= i < j < rest.len() implies (#[trigger] rest[i]).id != (
        #[trigger] rest[j]).id by {
            assert(rest[i] == blocks[i] && rest[j] == blocks[j]);
        }
        lemma_targets_of(rest, k, id);
        lemma_targets_joined(flow_edges(rest), edges_of(last), id);
        lemma_targets_own(last.successors(), last.id, id);
        assert(blocks[n] == last);
        let x = targets_from(flow_edges(rest), id);
        let y = targets_from(edges_of(last), id);
        if 0 <= k < blocks.len() && blocks[k].id == id {
            if k < n {
                assert(rest[k] == blocks[k]);
                assert(last.id != id);
                assert(x + y =~= x);
            } else {
                assert forall|i: int| 0 <= i < rest.len() implies (#[trigger] rest[i]).id
                    != id by {
                    assert(rest[i] == blocks[i]);
                }
                assert(x + y =~= y);
            }
        }
        if forall|i: int| 0 <= i < blocks.len() ==> (#[trigger] blocks[i]).id != id {
            assert forall|i: int| 0 <= i < rest.len() implies (#[trigger] rest[i]).id != id by {
                assert(rest[i] == blocks[i]);
            }
            assert(last.id != id);
        }
    }
}

/// The successors of a block, where no two blocks have the same id: behind a jump its target,
/// behind a branch the block where the condition holds and then the other one, else none.
pub proof fn lemma_successor_list(cfg: Cfg, blocks: Seq<BlockModel>, k: int)
    requires
        cfg.describes(blocks),
        0 <= k < blocks.len(),
        forall|i: int, j: int|
            0 <= i < j < blocks.len() ==> (#[trigger] blocks[i]).id != (#[trigger] blocks[j]).id,
    ensures
        ({
            let list = cfg.succ_list(blocks[k].id);
            let stmts = blocks[k].stmts;
            &&& stmts.len() > 0 ==> match stmts.last() {
                StmtModel::Jump(id) => list == seq![id],
                StmtModel::Branch { cond, true_id, false_id } => list == seq![true_id, false_id],
                _ => list.len() == 0,
            }
            &&& stmts.len() == 0 ==> list.len() == 0
        }),
{
    lemma_targets_of(blocks, k, blocks[k].id);
    assert(cfg.succ_list(blocks[k].id) == targets_from(flow_edges(blocks), blocks[k].id));
}

/// The walk follows edges of the flow graph.
pub open spec fn follows(cfg: Cfg, walk: Seq<u32>) -> bool {
    walk.len() > 0 && forall|i: int|
        0 <= i < walk.len() - 1 ==> #[trigger] cfg.succ_list(walk[i]).contains(walk[i + 1])
}

/// The walk leads from `b` to a block from which a back edge leads to `h`, and does not meet `h`.
pub open spec fn leads_round(info: LoopInfo, cfg: Cfg, walk: Seq<u32>, b: u32, h: u32) -> bool {
    &&& follows(cfg, walk) && walk[0] == b && !walk.contains(h)
    &&& info.back_edges@.contains((walk.last(), h))
}

proof fn lemma_follows(cfg: Cfg, walk: Seq<u32>)
    ensures
        cfg.graph().is_path(walk) <==> follows(cfg, walk),
{
    let g = cfg.graph();
    if g.is_path(walk) {
        assert forall|i: int| 0 <= i < walk.len() - 1 implies #[trigger] cfg.succ_list(
            walk[i],
        ).contains(walk[i + 1]) by {
            assert(g.step(walk, i));
        }
    }
    if follows(cfg, walk) {
        assert forall|i: int| 0 <= i < walk.len() - 1 implies #[trigger] g.step(walk, i) by {
            assert(cfg.succ_list(walk[i]).contains(walk[i + 1]));
        }
    }
}

/// There is a loop at a block exactly if a back edge leads there, and it holds that block and those
/// from which a walk leads round to it. The header of a block is that of a smallest loop that holds
/// it.
pub proof fn lemma_loop_members(info: LoopInfo, cfg: Cfg, dom: DomTree, h: u32, b: u32)
    requires
        info.describes(cfg, dom),
    ensures
        info.loops@.contains_key(h) <==> exists|tail: u32| #[trigger]
            info.back_edges@.contains((tail, h)),
        info.loops@.contains_key(h) ==> (info.loops@[h]@.contains(b) <==> b == h || exists|
            walk: Seq<u32>,
        | #[trigger]
            leads_round(info, cfg, walk, b, h)),
        info.loops@.contains_key(h) && info.loops@[h]@.contains(b) ==> info.block_loop@.contains_key(
            b,
        ) && info.loops@.contains_key(info.block_loop@[b])
            && info.loops@[info.block_loop@[b]]@.contains(b)
            && info.loops@[info.block_loop@[b]]@.len() <= info.loops@[h]@.len(),
{
    let g = cfg.graph();
    let edges = info.back_edges@;
    assert(info.loops@.contains_key(h) <==> is_header(edges, h));
    if info.loops@.contains_key(h) {
        assert(info.loops@[h]@.contains(b) <==> b == h || returns_to(g, edges, h, b));
        if returns_to(g, edges, h, b) {
            let (walk, tail) = choose|walk: Seq<u32>, tail: u32|
                #![trigger walk_around(g, walk, b, tail, h)]
                edges.contains((tail, h)) && walk_around(g, walk, b, tail, h);
            lemma_follows(cfg, walk);
            assert(leads_round(info, cfg, walk, b, h));
        }
        if exists|walk: Seq<u32>| #[trigger] leads_round(info, cfg, walk, b, h) {
            let walk = choose|walk: Seq<u32>| #[trigger] leads_round(info, cfg, walk, b, h);
            lemma_follows(cfg, walk);
            assert(walk_around(g, walk, b, walk.last(), h));
        }
        if info.loops@[h]@.contains(b) {
            assert(info.block_loop@.contains_key(b));
        }
    }
}

/// The search for the order of the blocks: a block that is met for the first time waits until its
/// successors that have not been met are left, the last one of them first; a block is left when it
/// is met again as one that waits; one that has been met is passed over.
pub proof fn lemma_search(cfg: Cfg, rest: Seq<(u32, bool)>, id: u32, seen: Set<u32>, t: u32)
    ensures
        cfg.reverse_postorder() == cfg.finish_order(seq![(cfg.entry, false)], Set::empty()).reverse(),
        cfg.finish_order(Seq::empty(), seen).len() == 0,
        cfg.finish_order(rest.push((id, true)), seen) == seq![id] + cfg.finish_order(rest, seen),
        seen.contains(id) ==> cfg.finish_order(rest.push((id, false)), seen) == cfg.finish_order(
            rest,
            seen,
        ),
        !seen.contains(id) ==> cfg.finish_order(rest.push((id, false)), seen) == cfg.finish_order(
            rest.push((id, true)) + unseen(cfg.succ_list(id), seen.insert(id)),
            seen.insert(id),
        ),
        forall|list: Seq<u32>|
            seen.contains(t) ==> #[trigger] unseen(list.push(t), seen) == unseen(list, seen),
        forall|list: Seq<u32>|
            !seen.contains(t) ==> #[trigger] unseen(list.push(t), seen) == unseen(list, seen).push(
                (t, false),
            ),
        unseen(Seq::empty(), seen).len() == 0,
{
    assert(rest.push((id, true)).drop_last() =~= rest);
    assert(rest.push((id, false)).drop_last() =~= rest);
    assert forall|list: Seq<u32>|
        seen.contains(t) implies #[trigger] unseen(list.push(t), seen) == unseen(list, seen) by {
        assert(list.push(t).drop_last() =~= list);
    }
    assert forall|list: Seq<u32>|
        !seen.contains(t) implies #[trigger] unseen(list.push(t), seen) == unseen(list, seen).push(
        (t, false),
    ) by {
        assert(list.push(t).drop_last() =~= list);
    }
}

/// The back edges stand in the order of the blocks and of their successors.
pub proof fn lemma_back_edge_order(cfg: Cfg, dom: DomTree, ids: Seq<u32>, a: u32, b: u32)
    ensures
        back_edges_of(cfg, dom, Seq::empty()).len() == 0,
        back_edges_of(cfg, dom, ids.push(a)) == back_edges_of(cfg, dom, ids) + back_edges_from(
            dom,
            a,
            cfg.succ_list(a),
        ),
        back_edges_from(dom, a, Seq::empty()).len() == 0,
        dom.is_above(b, a) ==> back_edges_from(dom, a, ids.push(b)) == back_edges_from(
            dom,
            a,
            ids,
        ).push((a, b)),
        !dom.is_above(b, a) ==> back_edges_from(dom, a, ids.push(b)) == back_edges_from(
            dom,
            a,
            ids,
        ),
{
    assert(ids.push(a).drop_last() =~= ids);
    assert(ids.push(b).drop_last() =~= ids);
}

/// The predecessors of a block stand in the order of the blocks from which edges lead there.
pub proof fn lemma_predecessor_order(edges: Seq<(u32, u32)>, a: u32, b: u32, id: u32)
    ensures
        sources_to(Seq::empty(), id).len() == 0,
        b == id ==> sources_to(edges.push((a, b)), id) == sources_to(edges, id).push(a),
        b != id ==> sources_to(edges.push((a, b)), id) == sources_to(edges, id),
{
    assert(edges.push((a, b)).drop_last() =~= edges);
}

/// The tree of dominators: its order is that of the search and its positions are those in the order;
/// the first block has no immediate dominator, and every other block in the order has one: all walks
/// from the first block to it meet it, and they meet before it whatever else they all meet.
pub proof fn lemma_tree(dom: DomTree, cfg: Cfg, b: u32)
    requires
        dom.describes(cfg),
    ensures
        dom.rpo@ == cfg.reverse_postorder(),
        forall|i: int| 0 <= i < dom.rpo@.len() ==> dom.rpo_idx@[#[trigger] dom.rpo@[i]] == i,
        dom.idom@.contains_key(b) <==> dom.rpo@.contains(b),
        dom.idom@[cfg.entry] is None,
        dom.rpo@.contains(b) && b != cfg.entry ==> (dom.idom@[b] matches Some(a) && a != b && {
            &&& forall|p: Seq<u32>|
                #[trigger] cfg.graph().is_path(p) && p[0] == cfg.entry && p.last() == b
                    ==> p.contains(a)
            &&& forall|x: u32, p: Seq<u32>|
                x != b && cfg.graph().dominates(x, b) && #[trigger] cfg.graph().is_path(p) && p[0]
                    == cfg.entry && p.last() == a ==> #[trigger] p.contains(x)
        }),
{
    let g = cfg.graph();
    if dom.rpo@.contains(b) && b != cfg.entry {
        let a = dom.idom@[b]->0;
        assert(g.immediately_dominates(a, b));
        assert forall|p: Seq<u32>|
            #[trigger] g.is_path(p) && p[0] == cfg.entry && p.last() == b implies p.contains(a) by {
            assert(g.path_to(p, b));
        }
        assert forall|x: u32, p: Seq<u32>|
            x != b && g.dominates(x, b) && #[trigger] g.is_path(p) && p[0] == cfg.entry && p.last()
                == a implies #[trigger] p.contains(x) by {
            assert(g.strictly_dominates(x, b));
            assert(g.path_to(p, a));
        }
    }
}

/// A block leaves a set exactly if one of its successors does not belong to it.
pub proof fn lemma_leaves(succs: Seq<u32>, set: Set<u32>)
    ensures
        !leaves(succs, set) <==> forall|b: u32| #[trigger] succs.contains(b) ==> set.contains(b),
{
    if leaves(succs, set) {
        let i = choose|i: int| 0 <= i < succs.len() && !set.contains(#[trigger] succs[i]);
        assert(succs.contains(succs[i]));
    } else {
        assert forall|b: u32| #[trigger] succs.contains(b) implies set.contains(b) by {
            let i = choose|i: int| 0 <= i < succs.len() && succs[i] == b;
            assert(set.contains(succs[i]));
        }
    }
}

} // verus!

//! A block that cannot be reached is not written.
use vstd::prelude::*;

use super::complete::{count, distinct, lemma_reachable_written, lemma_region, succs_of};
use super::laws::{has_block, lemma_join};
use super::model::{block_with, entry_of, plan_of};
use super::plan::Shape;
use crate::analysis::cfg::{edges_of, flow_edges};
use crate::analysis::FunctionAnalysis;
use crate::finite::{lemma_outside32, lemma_outside32_subset, outside32};
use crate::ir::{BlockModel, StmtModel};

verus! {

/// The flow graph has the edges that the terminators give, and its order holds what can be reached.
spec fn tracks(sh: Shape) -> bool {
    let g = sh.analysis.cfg.graph();
    &&& forall|b: u32, s: u32| #[trigger] succs_of(sh.blocks, b).contains(s) ==> g.edge(b, s)
    &&& g.is_order(sh.analysis.dom.rpo@)
}

/// All blocks of the set can be reached.
spec fn reached(sh: Shape, set: Set<u32>) -> bool {
    forall|id: u32| #[trigger] set.contains(id) ==> sh.analysis.cfg.graph().reachable(id)
}

/// So can the block at which it goes on.
spec fn reached_next(sh: Shape, next: Option<(u32, u32)>) -> bool {
    match next {
        Some((_, n)) => sh.analysis.cfg.graph().reachable(n),
        None => true,
    }
}

/// What control can pass to from a block that can be reached can be reached.
proof fn lemma_successor(sh: Shape, cur: u32, s: u32)
    requires
        tracks(sh),
        sh.analysis.cfg.graph().reachable(cur),
        succs_of(sh.blocks, cur).contains(s),
    ensures
        sh.analysis.cfg.graph().reachable(s),
{
    let g = sh.analysis.cfg.graph();
    let p = choose|p: Seq<u32>| g.path_to(p, cur);
    assert(g.edge(cur, s));
    g.lemma_path_push(p, cur, s);
}

proof fn lemma_region_reached(
    sh: Shape,
    emitted: Set<u32>,
    start: u32,
    cur: u32,
    follow: Option<u32>,
    inner: Option<u32>,
)
    requires
        tracks(sh),
        sh.analysis.cfg.graph().reachable(cur),
    ensures
        reached(sh, sh.region(emitted, start, cur, follow, inner).1),
    decreases outside32(emitted), 0nat,
{
    if !emitted.contains(cur) && Some(cur) != follow {
        if let Some(block) = block_with(sh.blocks, cur) {
            let seen = emitted.insert(cur);
            lemma_outside32(emitted, cur);
            lemma_turn_reached(sh, seen, start, cur, block, follow, inner);
            let part = sh.turn(seen, start, cur, block, follow, inner);
            lemma_outside32_subset(seen, seen.union(part.more));
            if let Some((first, next)) = part.next {
                lemma_region_reached(sh, seen.union(part.more), first, next, follow, inner);
            }
        }
    }
}

proof fn lemma_turn_reached(
    sh: Shape,
    seen: Set<u32>,
    start: u32,
    cur: u32,
    block: BlockModel,
    follow: Option<u32>,
    inner: Option<u32>,
)
    requires
        tracks(sh),
        sh.analysis.cfg.graph().reachable(cur),
        block_with(sh.blocks, cur) == Some(block),
    ensures
        reached(sh, sh.turn(seen, start, cur, block, follow, inner).more),
        reached_next(sh, sh.turn(seen, start, cur, block, follow, inner).next),
    decreases outside32(seen), 4nat,
{
    if sh.header(cur) {
        let here = Some(cur);
        match sh.exit_of(cur, block) {
            Some((body, exit, negated)) => {
                lemma_branches(sh, cur, block);
                lemma_region_reached(sh, seen, body, body, here, here);
            },
            None => {
                lemma_leave_reached(sh, seen, cur, cur, block, here, here);
                let part = sh.leave(seen, cur, cur, block, here, here);
                lemma_outside32_subset(seen, seen.union(part.more));
                if let Some((first, next)) = part.next {
                    lemma_region_reached(sh, seen.union(part.more), first, next, here, here);
                }
            },
        }
    } else {
        lemma_leave_reached(sh, seen, start, cur, block, follow, inner);
    }
}

/// The targets of the terminator can be reached.
proof fn lemma_branches(sh: Shape, cur: u32, block: BlockModel)
    requires
        tracks(sh),
        sh.analysis.cfg.graph().reachable(cur),
        block_with(sh.blocks, cur) == Some(block),
    ensures
        block.terminator() matches Some(StmtModel::Jump(next))
            ==> sh.analysis.cfg.graph().reachable(next),
        block.terminator() matches Some(StmtModel::Branch { cond, true_id, false_id })
            ==> sh.analysis.cfg.graph().reachable(true_id)
            && sh.analysis.cfg.graph().reachable(false_id),
{
    let succs = succs_of(sh.blocks, cur);
    match block.terminator() {
        Some(StmtModel::Jump(next)) => {
            assert(succs[0] == next);
            lemma_successor(sh, cur, next);
        },
        Some(StmtModel::Branch { cond, true_id, false_id }) => {
            assert(succs[0] == true_id);
            assert(succs[1] == false_id);
            lemma_successor(sh, cur, true_id);
            lemma_successor(sh, cur, false_id);
        },
        _ => {},
    }
}

proof fn lemma_leave_reached(
    sh: Shape,
    seen: Set<u32>,
    start: u32,
    cur: u32,
    block: BlockModel,
    follow: Option<u32>,
    inner: Option<u32>,
)
    requires
        tracks(sh),
        sh.analysis.cfg.graph().reachable(cur),
        block_with(sh.blocks, cur) == Some(block),
    ensures
        reached(sh, sh.leave(seen, start, cur, block, follow, inner).more),
        reached_next(sh, sh.leave(seen, start, cur, block, follow, inner).next),
    decreases outside32(seen), 2nat,
{
    lemma_branches(sh, cur, block);
    if let Some(StmtModel::Branch { cond, true_id, false_id }) = block.terminator() {
        let (t, f) = (true_id, false_id);
        if !(sh.back_edge(cur, t) && seen.contains(t)) && !(sh.back_edge(cur, f)
            && seen.contains(f)) {
            let join = sh.join(t, f);
            let after = match join {
                Some(j) => Some(j),
                None => follow,
            };
            lemma_join(sh.analysis.cfg.graph(), sh.analysis.dom.rpo@, t, f);
            lemma_region_reached(sh, seen, t, t, after, inner);
            let left = sh.region(seen, t, t, after, inner);
            lemma_outside32_subset(seen, seen.union(left.1));
            if Some(f) != after {
                lemma_region_reached(sh, seen.union(left.1), f, f, after, inner);
            }
        }
    }
}

/// The edges that a block gives are edges of the graph.
proof fn lemma_edges_there(blocks: Seq<BlockModel>, i: int, s: u32)
    requires
        0 <= i < blocks.len(),
        blocks[i].successors().contains(s),
    ensures
        flow_edges(blocks).contains((blocks[i].id, s)),
    decreases blocks.len(),
{
    let rest = blocks.drop_last();
    let before = flow_edges(rest);
    let last = edges_of(blocks.last());
    let e = (blocks[i].id, s);
    if i < rest.len() {
        lemma_edges_there(rest, i, s);
        let k = choose|k: int| 0 <= k < before.len() && before[k] == e;
        assert((before + last)[k] == e);
    } else {
        let succs = blocks[i].successors();
        let k = choose|k: int| 0 <= k < succs.len() && succs[k] == s;
        assert(last[k] == e);
        assert((before + last)[before.len() + k] == e);
    }
}

proof fn lemma_tracks(blocks: Seq<BlockModel>, analysis: FunctionAnalysis)
    requires
        analysis.describes(blocks),
    ensures
        tracks(Shape { blocks, analysis }),
{
    let sh = Shape { blocks, analysis };
    let g = analysis.cfg.graph();
    analysis.cfg.lemma_describes_wf(blocks);
    analysis.cfg.lemma_reverse_postorder();
    assert forall|b: u32, s: u32| #[trigger] succs_of(blocks, b).contains(s) implies g.edge(
        b,
        s,
    ) by {
        let i = lemma_place_of(blocks, b);
        lemma_edges_there(blocks, i, s);
    }
}

/// The place of the first block with the given id.
proof fn lemma_place_of(blocks: Seq<BlockModel>, id: u32) -> (i: int)
    requires
        block_with(blocks, id) is Some,
    ensures
        0 <= i < blocks.len(),
        blocks[i].id == id,
        block_with(blocks, id) == Some(blocks[i]),
    decreases blocks.len(),
{
    if blocks[0].id == id {
        0
    } else {
        let i = lemma_place_of(blocks.skip(1), id);
        assert(blocks.skip(1)[i] == blocks[i + 1]);
        i + 1
    }
}

/// The code of a function holds a block exactly once where the block can be reached in the flow
/// graph, and not at all where it cannot.
pub proof fn lemma_written_iff_reachable(
    blocks: Seq<BlockModel>,
    analysis: FunctionAnalysis,
    id: u32,
)
    requires
        analysis.describes(blocks),
        distinct(blocks),
        has_block(blocks, id),
    ensures
        count(plan_of(blocks, analysis), id) == (if analysis.cfg.graph().reachable(id) {
            1nat
        } else {
            0
        }),
{
    if analysis.cfg.graph().reachable(id) {
        lemma_reachable_written(blocks, analysis, id);
    } else {
        let sh = Shape { blocks, analysis };
        let entry = entry_of(blocks);
        lemma_tracks(blocks, analysis);
        analysis.cfg.graph().lemma_path_entry();
        lemma_region_reached(sh, Set::empty(), entry, entry, None, None);
        lemma_region(sh, Set::empty(), entry, entry, None, None);
        let result = sh.region(Set::empty(), entry, entry, None, None);
        assert(count(result.0, id) == (if result.1.contains(id) {
            1nat
        } else {
            0
        }));
    }
}

} // verus!

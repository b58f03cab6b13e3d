//! The control-flow graph of a function.
use std::collections::HashMap;

use vstd::prelude::*;

use super::graph::Graph;
use crate::ir::{blocks_model, BlockModel, IrFunction};

verus! {

broadcast use vstd::std_specs::hash::group_hash_axioms;

/// Control-flow graph
#[derive(Debug)]
pub struct Cfg {
    /// block id → list of successor ids
    pub succs: HashMap<u32, Vec<u32>>,
    /// block id → list of predecessor ids
    pub preds: HashMap<u32, Vec<u32>>,
    pub entry: u32,
    pub block_ids: Vec<u32>,
}

/// The edges that the terminators of the blocks give, in the order of the blocks.
pub open spec fn flow_edges(blocks: Seq<BlockModel>) -> Seq<(u32, u32)>
    decreases blocks.len(),
{
    if blocks.len() == 0 {
        Seq::empty()
    } else {
        flow_edges(blocks.drop_last()) + edges_of(blocks.last())
    }
}

/// The edges that leave one block.
pub open spec fn edges_of(block: BlockModel) -> Seq<(u32, u32)> {
    block.successors().map_values(|s: u32| (block.id, s))
}

/// The targets of the edges that leave `id`, in order.
pub open spec fn targets_from(edges: Seq<(u32, u32)>, id: u32) -> Seq<u32>
    decreases edges.len(),
{
    if edges.len() == 0 {
        Seq::empty()
    } else if edges.last().0 == id {
        targets_from(edges.drop_last(), id).push(edges.last().1)
    } else {
        targets_from(edges.drop_last(), id)
    }
}

/// The sources of the edges that enter `id`, in order.
pub open spec fn sources_to(edges: Seq<(u32, u32)>, id: u32) -> Seq<u32>
    decreases edges.len(),
{
    if edges.len() == 0 {
        Seq::empty()
    } else if edges.last().1 == id {
        sources_to(edges.drop_last(), id).push(edges.last().0)
    } else {
        sources_to(edges.drop_last(), id)
    }
}

/// The ids of the blocks, in order.
pub open spec fn block_ids(blocks: Seq<BlockModel>) -> Seq<u32> {
    blocks.map_values(|b: BlockModel| b.id)
}

/// The entry of a node in an adjacency map; a node without one has no neighbours.
pub open spec fn neighbours(m: Map<u32, Vec<u32>>, id: u32) -> Seq<u32> {
    if m.contains_key(id) {
        m[id]@
    } else {
        Seq::empty()
    }
}

pub proof fn lemma_targets_contains(edges: Seq<(u32, u32)>, a: u32, b: u32)
    ensures
        targets_from(edges, a).contains(b) <==> edges.contains((a, b)),
    decreases edges.len(),
{
    if edges.len() > 0 {
        let rest = edges.drop_last();
        lemma_targets_contains(rest, a, b);
        let t = targets_from(rest, a);
        if rest.contains((a, b)) {
            let i = choose|i: int| 0 <= i < rest.len() && rest[i] == (a, b);
            assert(edges[i] == (a, b));
            let j = choose|j: int| 0 <= j < t.len() && t[j] == b;
            assert(targets_from(edges, a)[j] == b);
        }
        if edges.last() == (a, b) {
            assert(edges[edges.len() - 1] == (a, b));
            assert(targets_from(edges, a)[t.len() as int] == b);
        }
        if edges.contains((a, b)) {
            let i = choose|i: int| 0 <= i < edges.len() && edges[i] == (a, b);
            if i < rest.len() {
                assert(rest[i] == (a, b));
            }
        }
        if targets_from(edges, a).contains(b) {
            let i = choose|i: int|
                0 <= i < targets_from(edges, a).len() && targets_from(edges, a)[i] == b;
            if i < t.len() {
                assert(t[i] == b);
            }
        }
    }
}

pub proof fn lemma_sources_contains(edges: Seq<(u32, u32)>, a: u32, b: u32)
    ensures
        sources_to(edges, b).contains(a) <==> edges.contains((a, b)),
    decreases edges.len(),
{
    if edges.len() > 0 {
        let rest = edges.drop_last();
        lemma_sources_contains(rest, a, b);
        let t = sources_to(rest, b);
        if rest.contains((a, b)) {
            let i = choose|i: int| 0 <= i < rest.len() && rest[i] == (a, b);
            assert(edges[i] == (a, b));
            let j = choose|j: int| 0 <= j < t.len() && t[j] == a;
            assert(sources_to(edges, b)[j] == a);
        }
        if edges.last() == (a, b) {
            assert(edges[edges.len() - 1] == (a, b));
            assert(sources_to(edges, b)[t.len() as int] == a);
        }
        if edges.contains((a, b)) {
            let i = choose|i: int| 0 <= i < edges.len() && edges[i] == (a, b);
            if i < rest.len() {
                assert(rest[i] == (a, b));
            }
        }
        if sources_to(edges, b).contains(a) {
            let i = choose|i: int|
                0 <= i < sources_to(edges, b).len() && sources_to(edges, b)[i] == a;
            if i < t.len() {
                assert(t[i] == a);
            }
        }
    }
}

impl Cfg {
    /// The successors of a block, in order.
    pub open spec fn succ_list(self, id: u32) -> Seq<u32> {
        neighbours(self.succs@, id)
    }

    /// The predecessors of a block, in order.
    pub open spec fn pred_list(self, id: u32) -> Seq<u32> {
        neighbours(self.preds@, id)
    }

    /// The flow graph as a mathematical graph.
    pub open spec fn graph(self) -> Graph {
        Graph {
            entry: self.entry,
            edges: Set::new(|e: (u32, u32)| self.succ_list(e.0).contains(e.1)),
        }
    }

    /// Predecessor lists and successor lists describe the same edges.
    pub open spec fn wf(self) -> bool {
        forall|a: u32, b: u32| #[trigger]
            self.pred_list(b).contains(a) <==> self.graph().edge(a, b)
    }

    /// This is the flow graph of the given blocks: every block has a successor list, every block
    /// and every successor has a predecessor list, and the lists hold exactly the edges that the
    /// terminators give.
    pub open spec fn describes(self, blocks: Seq<BlockModel>) -> bool {
        &&& self.block_ids@ == block_ids(blocks)
        &&& self.entry == (if blocks.len() > 0 {
            blocks[0].id
        } else {
            0
        })
        &&& forall|id: u32| #[trigger]
            self.succs@.contains_key(id) <==> block_ids(blocks).contains(id)
        &&& forall|id: u32| #[trigger]
            self.preds@.contains_key(id) <==> block_ids(blocks).contains(id) || exists|a: u32|
                flow_edges(blocks).contains((a, id))
        &&& forall|id: u32| #[trigger]
            self.succ_list(id) == targets_from(flow_edges(blocks), id)
        &&& forall|id: u32| #[trigger]
            self.pred_list(id) == sources_to(flow_edges(blocks), id)
    }

    /// In the flow graph of a function `a` precedes `b` exactly where `b` succeeds `a`.
    pub proof fn lemma_describes_wf(self, blocks: Seq<BlockModel>)
        requires
            self.describes(blocks),
        ensures
            self.wf(),
            forall|a: u32, b: u32| #[trigger]
                self.graph().edge(a, b) <==> flow_edges(blocks).contains((a, b)),
    {
        let edges = flow_edges(blocks);
        assert forall|a: u32, b: u32| #[trigger] self.graph().edge(a, b) <==> edges.contains(
            (a, b),
        ) by {
            lemma_targets_contains(edges, a, b);
            assert(self.succ_list(a) == targets_from(edges, a));
        }
        assert forall|a: u32, b: u32| #[trigger]
            self.pred_list(b).contains(a) <==> self.graph().edge(a, b) by {
            lemma_sources_contains(edges, a, b);
            assert(self.pred_list(b) == sources_to(edges, b));
        }
    }

    pub fn build(func: &IrFunction) -> (cfg: Self)
        ensures
            cfg.describes(func@.blocks),
            cfg.wf(),
    {
        let mut succs: HashMap<u32, Vec<u32>> = HashMap::new();
        let mut preds: HashMap<u32, Vec<u32>> = HashMap::new();
        let mut ids: Vec<u32> = Vec::new();
        let ghost blocks = func@.blocks;
        let n = func.blocks.len();

        let mut i: usize = 0;
        while i < n
            invariant
                i <= n,
                n == func.blocks@.len(),
                blocks == blocks_model(func.blocks@),
                ids@ == block_ids(blocks.take(i as int)),
                forall|id: u32| #[trigger] succs@.contains_key(id) <==> ids@.contains(id),
                forall|id: u32| #[trigger] preds@.contains_key(id) <==> ids@.contains(id),
                forall|id: u32| #[trigger] neighbours(succs@, id) == Seq::<u32>::empty(),
                forall|id: u32| #[trigger] neighbours(preds@, id) == Seq::<u32>::empty(),
            decreases n - i,
        {
            let id = func.blocks[i].id;
            let ghost before = ids@;
            let ghost succs_before = succs@;
            let ghost preds_before = preds@;
            ids.push(id);
            if !succs.contains_key(&id) {
                succs.insert(id, Vec::new());
            }
            if !preds.contains_key(&id) {
                preds.insert(id, Vec::new());
            }
            assert(blocks.take(i + 1) =~= blocks.take(i as int).push(blocks[i as int]));
            assert(ids@ =~= block_ids(blocks.take(i + 1)));
            assert forall|x: u32| ids@.contains(x) <==> before.contains(x) || x == id by {
                if before.contains(x) {
                    let j = choose|j: int| 0 <= j < before.len() && before[j] == x;
                    assert(ids@[j] == x);
                }
                assert(ids@[before.len() as int] == id);
            }
            assert forall|x: u32| #[trigger] neighbours(succs@, x) == Seq::<u32>::empty() by {
                assert(neighbours(succs_before, x) == Seq::<u32>::empty());
            }
            assert forall|x: u32| #[trigger] neighbours(preds@, x) == Seq::<u32>::empty() by {
                assert(neighbours(preds_before, x) == Seq::<u32>::empty());
            }
            i = i + 1;
        }
        assert(blocks.take(n as int) =~= blocks);

        let ghost edges: Seq<(u32, u32)> = Seq::empty();
        let mut i: usize = 0;
        while i < n
            invariant
                i <= n,
                n == func.blocks@.len(),
                blocks == blocks_model(func.blocks@),
                ids@ == block_ids(blocks),
                edges == flow_edges(blocks.take(i as int)),
                forall|id: u32| #[trigger] succs@.contains_key(id) <==> ids@.contains(id),
                forall|id: u32| #[trigger]
                    preds@.contains_key(id) <==> ids@.contains(id) || exists|a: u32|
                        edges.contains((a, id)),
                forall|id: u32| #[trigger] neighbours(succs@, id) == targets_from(edges, id),
                forall|id: u32| #[trigger] neighbours(preds@, id) == sources_to(edges, id),
            decreases n - i,
        {
            let id = func.blocks[i].id;
            let outs = func.blocks[i].successors();
            let ghost base = edges;
            let ghost new_edges = edges_of(blocks[i as int]);
            assert(ids@.contains(id)) by {
                assert(ids@[i as int] == id);
            }
            assert(edges =~= base + new_edges.take(0));
            let m = outs.len();
            let mut j: usize = 0;
            while j < m
                invariant
                    j <= m,
                    m == outs@.len(),
                    m == new_edges.len(),
                    i < n,
                    n == func.blocks@.len(),
                    forall|t: int| 0 <= t < m ==> #[trigger] new_edges[t] == (id, outs@[t]),
                    ids@.contains(id),
                    edges == base + new_edges.take(j as int),
                    forall|id: u32| #[trigger] succs@.contains_key(id) <==> ids@.contains(id),
                    forall|id: u32| #[trigger]
                        preds@.contains_key(id) <==> ids@.contains(id) || exists|a: u32|
                            edges.contains((a, id)),
                    forall|id: u32| #[trigger] neighbours(succs@, id) == targets_from(edges, id),
                    forall|id: u32| #[trigger] neighbours(preds@, id) == sources_to(edges, id),
                decreases m - j,
            {
                let s = outs[j];
                let ghost old_edges = edges;
                let ghost old_succs = succs@;
                let ghost old_preds = preds@;
                let slot = succs.entry(id).or_insert(Vec::new());
                slot.push(s);
                let slot = preds.entry(s).or_insert(Vec::new());
                slot.push(id);
                proof {
                    edges = edges.push((id, s));
                    assert(edges =~= base + new_edges.take(j + 1));
                    assert(edges.drop_last() =~= old_edges);
                    assert forall|x: u32| #[trigger]
                        neighbours(succs@, x) == targets_from(edges, x) by {
                        assert(neighbours(old_succs, x) == targets_from(old_edges, x));
                    }
                    assert forall|x: u32| #[trigger]
                        neighbours(preds@, x) == sources_to(edges, x) by {
                        assert(neighbours(old_preds, x) == sources_to(old_edges, x));
                    }
                    assert forall|x: u32| #[trigger]
                        preds@.contains_key(x) <==> ids@.contains(x) || exists|a: u32|
                            edges.contains((a, x)) by {
                        assert(old_preds.contains_key(x) <==> ids@.contains(x) || exists|a: u32|
                            old_edges.contains((a, x)));
                        if x == s {
                            assert(edges[old_edges.len() as int] == (id, s));
                            assert(edges.contains((id, s)));
                        }
                        if exists|a: u32| old_edges.contains((a, x)) {
                            let a = choose|a: u32| old_edges.contains((a, x));
                            let t = choose|t: int|
                                0 <= t < old_edges.len() && old_edges[t] == (a, x);
                            assert(edges[t] == (a, x));
                            assert(edges.contains((a, x)));
                        }
                        if exists|a: u32| edges.contains((a, x)) {
                            let a = choose|a: u32| edges.contains((a, x));
                            let t = choose|t: int| 0 <= t < edges.len() && edges[t] == (a, x);
                            if t < old_edges.len() {
                                assert(old_edges[t] == (a, x));
                                assert(old_edges.contains((a, x)));
                            }
                        }
                    }
                }
                j = j + 1;
            }
            proof {
                assert(new_edges.take(m as int) =~= new_edges);
                assert(blocks.take(i + 1).drop_last() =~= blocks.take(i as int));
                assert(blocks.take(i + 1).last() == blocks[i as int]);
            }
            i = i + 1;
        }
        assert(blocks.take(n as int) =~= blocks);

        let entry = if n > 0 {
            func.blocks[0].id
        } else {
            0
        };
        let cfg = Self { succs, preds, entry, block_ids: ids };
        proof {
            assert(cfg.describes(blocks));
            cfg.lemma_describes_wf(blocks);
        }
        cfg
    }

    pub fn successors(&self, id: u32) -> (ids: &[u32])
        ensures
            ids@ == self.succ_list(id),
    {
        match self.succs.get(&id) {
            Some(v) => v.as_slice(),
            None => &[],
        }
    }

    pub fn predecessors(&self, id: u32) -> (ids: &[u32])
        ensures
            ids@ == self.pred_list(id),
    {
        match self.preds.get(&id) {
            Some(v) => v.as_slice(),
            None => &[],
        }
    }
}

} // verus!

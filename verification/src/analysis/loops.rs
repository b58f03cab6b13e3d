//! The natural loops of a flow graph.
use std::collections::{HashMap, HashSet, VecDeque};

use vstd::prelude::*;

use super::cfg::Cfg;
use super::dom::DomTree;
use super::graph::Graph;
use crate::finite::{lemma_outside32, outside32};
use crate::listing::{keys_of, lemma_push_contains, members_of};

verus! {

broadcast use vstd::std_specs::hash::group_hash_axioms;

/// Loop information
#[derive(Debug, Clone)]
pub struct LoopInfo {
    /// header → set of blocks in this loop
    pub loops: HashMap<u32, HashSet<u32>>,
    /// block → innermost loop header
    pub block_loop: HashMap<u32, u32>,
    /// Back edges: (tail, header)
    pub back_edges: Vec<(u32, u32)>,
}

/// Of the edges from `src` to each of `targets`, those whose target lies above the source.
pub open spec fn back_edges_from(dom: DomTree, src: u32, targets: Seq<u32>) -> Seq<(u32, u32)>
    decreases targets.len(),
{
    if targets.len() == 0 {
        Seq::empty()
    } else if dom.is_above(targets.last(), src) {
        back_edges_from(dom, src, targets.drop_last()).push((src, targets.last()))
    } else {
        back_edges_from(dom, src, targets.drop_last())
    }
}

/// The edges from the listed blocks whose target lies above the source, in order.
pub open spec fn back_edges_of(cfg: Cfg, dom: DomTree, ids: Seq<u32>) -> Seq<(u32, u32)>
    decreases ids.len(),
{
    if ids.len() == 0 {
        Seq::empty()
    } else {
        back_edges_of(cfg, dom, ids.drop_last()) + back_edges_from(
            dom,
            ids.last(),
            cfg.succ_list(ids.last()),
        )
    }
}

/// `walk` leads from `b` to `tail` along edges and does not meet `header`.
pub open spec fn walk_around(
    g: Graph,
    walk: Seq<u32>,
    b: u32,
    tail: u32,
    header: u32,
) -> bool {
    g.is_path(walk) && walk[0] == b && walk.last() == tail && !walk.contains(header)
}

/// From `b` control can come to the tail of one of the back edges to `header` without passing
/// `header`.
pub open spec fn returns_to(g: Graph, back_edges: Seq<(u32, u32)>, header: u32, b: u32) -> bool {
    exists|walk: Seq<u32>, tail: u32|
        #![trigger walk_around(g, walk, b, tail, header)]
        back_edges.contains((tail, header)) && walk_around(g, walk, b, tail, header)
}

/// `header` is the target of one of the back edges.
pub open spec fn is_header(back_edges: Seq<(u32, u32)>, header: u32) -> bool {
    exists|tail: u32| back_edges.contains((tail, header))
}

/// The loop of each header: the header and the blocks from which control can return to it.
pub open spec fn natural_loops(
    g: Graph,
    back_edges: Seq<(u32, u32)>,
    loops: Map<u32, HashSet<u32>>,
) -> bool {
    &&& forall|h: u32| #[trigger] loops.contains_key(h) <==> is_header(back_edges, h)
    &&& forall|h: u32, b: u32|
        loops.contains_key(h) ==> (#[trigger] loops[h]@.contains(b) <==> b == h || returns_to(
            g,
            back_edges,
            h,
            b,
        ))
}

/// Every block of a loop, and no other, has a header; no loop with that block is smaller than the
/// loop of that header.
pub open spec fn innermost(loops: Map<u32, HashSet<u32>>, block_loop: Map<u32, u32>) -> bool {
    &&& forall|b: u32| #[trigger]
        block_loop.contains_key(b) <==> exists|h: u32|
            loops.contains_key(h) && #[trigger] loops[h]@.contains(b)
    &&& forall|b: u32| #[trigger]
        block_loop.contains_key(b) ==> loops.contains_key(block_loop[b])
            && loops[block_loop[b]]@.contains(b)
    &&& forall|b: u32, h: u32|
        block_loop.contains_key(b) && loops.contains_key(h) && #[trigger] loops[h]@.contains(b)
            ==> loops[block_loop[b]]@.len() <= loops[h]@.len()
}

proof fn lemma_returns_more(g: Graph, e1: Seq<(u32, u32)>, e2: Seq<(u32, u32)>, h: u32, b: u32)
    requires
        returns_to(g, e1, h, b),
        forall|t: u32| e1.contains((t, h)) ==> #[trigger] e2.contains((t, h)),
    ensures
        returns_to(g, e2, h, b),
{
    let (walk, tail) = choose|walk: Seq<u32>, tail: u32|
        #![trigger walk_around(g, walk, b, tail, h)]
        e1.contains((tail, h)) && walk_around(g, walk, b, tail, h);
    assert(e2.contains((tail, h)));
    assert(walk_around(g, walk, b, tail, h));
}

proof fn lemma_returns_pred(g: Graph, edges: Seq<(u32, u32)>, h: u32, p: u32, b: u32)
    requires
        returns_to(g, edges, h, b),
        g.edge(p, b),
        p != h,
    ensures
        returns_to(g, edges, h, p),
{
    let (walk, tail) = choose|walk: Seq<u32>, tail: u32|
        #![trigger walk_around(g, walk, b, tail, h)]
        edges.contains((tail, h)) && walk_around(g, walk, b, tail, h);
    let longer = seq![p] + walk;
    assert forall|i: int| 0 <= i < longer.len() - 1 implies #[trigger] g.step(longer, i) by {
        if i > 0 {
            assert(g.step(walk, i - 1));
        }
    }
    assert(!longer.contains(h)) by {
        if longer.contains(h) {
            let i = choose|i: int| 0 <= i < longer.len() && longer[i] == h;
            assert(walk[i - 1] == h);
        }
    }
    assert(longer.last() == tail);
    assert(walk_around(g, longer, p, tail, h));
}

/// A set that holds a tail and the predecessors of its members other than the header holds all
/// from which that tail can be reached around the header.
proof fn lemma_walk_inside(g: Graph, set: Set<u32>, walk: Seq<u32>, b: u32, tail: u32, h: u32)
    requires
        walk_around(g, walk, b, tail, h),
        set.contains(tail),
        forall|p: u32, c: u32| #[trigger]
            g.edge(p, c) && set.contains(c) && c != h ==> set.contains(p),
    ensures
        set.contains(b),
    decreases walk.len(),
{
    if walk.len() > 1 {
        let shorter = walk.skip(1);
        assert(g.step(walk, 0));
        assert forall|i: int| 0 <= i < shorter.len() - 1 implies #[trigger] g.step(shorter, i) by {
            assert(g.step(walk, i + 1));
        }
        assert(!shorter.contains(h)) by {
            if shorter.contains(h) {
                let i = choose|i: int| 0 <= i < shorter.len() && shorter[i] == h;
                assert(walk[i + 1] == h);
            }
        }
        assert(walk[1] != h);
        lemma_walk_inside(g, set, shorter, walk[1], tail, h);
    }
}

/// Every member other than the header has its predecessors in the set or in the queue.
spec fn closing(g: Graph, set: Set<u32>, queue: Seq<u32>, h: u32) -> bool {
    forall|p: u32, c: u32| #[trigger]
        g.edge(p, c) && set.contains(c) && c != h ==> set.contains(p) || queue.contains(p)
}

/// Adds to `members` what leads to `tail` around `header`.
fn gather(
    cfg: &Cfg,
    members: HashSet<u32>,
    tail: u32,
    header: u32,
    Ghost(edges): Ghost<Seq<(u32, u32)>>,
) -> (all: HashSet<u32>)
    requires
        cfg.wf(),
        members@.contains(header),
        edges.contains((tail, header)),
        forall|b: u32| #[trigger]
            members@.contains(b) ==> b == header || returns_to(cfg.graph(), edges, header, b),
        closing(cfg.graph(), members@, Seq::empty(), header),
    ensures
        all@.contains(tail),
        members@.subset_of(all@),
        forall|b: u32| #[trigger]
            all@.contains(b) ==> b == header || returns_to(cfg.graph(), edges, header, b),
        closing(cfg.graph(), all@, Seq::empty(), header),
{
    let ghost g = cfg.graph();
    let ghost start = members@;
    let mut all = members;
    let mut queue: VecDeque<u32> = VecDeque::new();
    queue.push_back(tail);
    proof {
        assert(queue@ =~= seq![tail]);
        assert(queue@[0] == tail);
        if tail != header {
            let walk = seq![tail];
            assert(walk_around(g, walk, tail, tail, header)) by {
                if walk.contains(header) {
                    let i = choose|i: int| 0 <= i < walk.len() && walk[i] == header;
                }
            }
        }
    }
    while queue.len() > 0
        invariant
            g == cfg.graph(),
            cfg.wf(),
            all@.contains(header),
            all@.contains(tail) || queue@.contains(tail),
            start.subset_of(all@),
            forall|b: u32| #[trigger]
                all@.contains(b) ==> b == header || returns_to(g, edges, header, b),
            forall|i: int|
                0 <= i < queue@.len() ==> #[trigger] queue@[i] == header || returns_to(
                    g,
                    edges,
                    header,
                    queue@[i],
                ),
            closing(g, all@, queue@, header),
        decreases outside32(all@), queue@.len(),
    {
        let ghost before = queue@;
        let ghost set_before = all@;
        let b = match queue.pop_front() {
            Some(b) => b,
            None => 0,
        };
        assert(before[0] == b);
        assert forall|x: u32| before.contains(x) implies x == b || queue@.contains(x) by {
            let i = choose|i: int| 0 <= i < before.len() && before[i] == x;
            if i > 0 {
                assert(queue@[i - 1] == x);
            }
        }
        if !all.contains(&b) {
            proof {
                lemma_outside32(all@, b);
            }
            all.insert(b);
            let ghost rest = queue@;
            let preds = cfg.predecessors(b);
            let n = preds.len();
            let mut i: usize = 0;
            while i < n
                invariant
                    i <= n,
                    n == preds@.len(),
                    g == cfg.graph(),
                    cfg.wf(),
                    preds@ == cfg.pred_list(b),
                    b != header,
                    returns_to(g, edges, header, b),
                    all@ == set_before.insert(b),
                    all@.contains(header),
                    forall|x: u32| rest.contains(x) ==> #[trigger] queue@.contains(x),
                    forall|j: int|
                        0 <= j < i ==> all@.contains(#[trigger] preds@[j]) || queue@.contains(
                            preds@[j],
                        ),
                    forall|j: int|
                        0 <= j < queue@.len() ==> #[trigger] queue@[j] == header || returns_to(
                            g,
                            edges,
                            header,
                            queue@[j],
                        ),
                decreases n - i,
            {
                let p = preds[i];
                let ghost q = queue@;
                if !all.contains(&p) {
                    queue.push_back(p);
                    proof {
                        lemma_push_contains(q, p);
                        assert(cfg.pred_list(b).contains(preds@[i as int]));
                        assert(g.edge(p, b));
                        lemma_returns_pred(g, edges, header, p, b);
                    }
                }
                i = i + 1;
            }
            proof {
                assert forall|p: u32, c: u32| #[trigger] g.edge(p, c) && all@.contains(c) && c
                    != header implies all@.contains(p) || queue@.contains(p) by {
                    if c == b {
                        assert(cfg.pred_list(b).contains(p));
                        let j = choose|j: int| 0 <= j < n && preds@[j] == p;
                        assert(all@.contains(preds@[j]) || queue@.contains(preds@[j]));
                    } else {
                        assert(set_before.contains(c));
                        if before.contains(p) && p != b {
                            assert(rest.contains(p));
                        }
                    }
                }
            }
        }
    }
    proof {
        assert forall|p: u32, c: u32| #[trigger] g.edge(p, c) && all@.contains(c) && c
            != header implies all@.contains(p) || Seq::<u32>::empty().contains(p) by {
            assert(!queue@.contains(p));
        }
        assert(!queue@.contains(tail));
    }
    all
}

impl LoopInfo {
    /// These are the back edges of the graph, in the order of the blocks and their successors, the
    /// natural loop of each header, and the innermost header of each block in a loop.
    pub open spec fn describes(self, cfg: Cfg, dom: DomTree) -> bool {
        &&& self.back_edges@ == back_edges_of(cfg, dom, cfg.block_ids@)
        &&& natural_loops(cfg.graph(), self.back_edges@, self.loops@)
        &&& innermost(self.loops@, self.block_loop@)
    }

    pub fn compute(cfg: &Cfg, dom: &DomTree) -> (info: Self)
        requires
            cfg.wf(),
            dom.wf(),
        ensures
            info.describes(*cfg, *dom),
    {
        let back_edges = find_back_edges(cfg, dom);
        let loops = find_loops(cfg, &back_edges);
        let block_loop = find_innermost(&loops);
        Self { loops, block_loop, back_edges }
    }

    pub fn is_loop_header(&self, id: u32) -> (yes: bool)
        ensures
            yes == self.loops@.contains_key(id),
    {
        self.loops.contains_key(&id)
    }

    pub fn is_back_edge(&self, src: u32, dst: u32) -> (yes: bool)
        ensures
            yes == self.back_edges@.contains((src, dst)),
    {
        let n = self.back_edges.len();
        let mut i: usize = 0;
        while i < n
            invariant
                i <= n,
                n == self.back_edges@.len(),
                forall|j: int| 0 <= j < i ==> self.back_edges@[j] != (src, dst),
            decreases n - i,
        {
            let (s, d) = self.back_edges[i];
            if s == src && d == dst {
                assert(self.back_edges@[i as int] == (src, dst));
                return true;
            }
            i = i + 1;
        }
        false
    }

    /// Get loop exit blocks (blocks inside loop with successors outside); their order is open.
    pub fn loop_exits(&self, header: u32, cfg: &Cfg) -> (exits: Vec<u32>)
        ensures
            exits@.no_duplicates(),
            forall|b: u32| #[trigger]
                exits@.contains(b) <==> self.loops@.contains_key(header)
                    && self.loops@[header]@.contains(b) && leaves(
                    cfg.succ_list(b),
                    self.loops@[header]@,
                ),
    {
        let mut exits: Vec<u32> = Vec::new();
        let members = match self.loops.get(&header) {
            Some(members) => members,
            None => {
                return exits;
            },
        };
        let list = members_of(members);
        let n = list.len();
        let mut i: usize = 0;
        while i < n
            invariant
                i <= n,
                n == list@.len(),
                list@.no_duplicates(),
                exits@.no_duplicates(),
                forall|b: u32| #[trigger]
                    exits@.contains(b) <==> list@.take(i as int).contains(b) && leaves(
                        cfg.succ_list(b),
                        members@,
                    ),
            decreases n - i,
        {
            let b = list[i];
            let ghost part = list@.take(i as int);
            let ghost before = exits@;
            proof {
                assert(list@.take(i + 1) =~= part.push(b));
                assert(!part.contains(b)) by {
                    if part.contains(b) {
                        let j = choose|j: int| 0 <= j < part.len() && part[j] == b;
                        assert(list@[j] == list@[i as int]);
                    }
                }
                lemma_push_contains(part, b);
            }
            let succs = cfg.successors(b);
            if any_outside(succs, members) {
                assert(!before.contains(b));
                exits.push(b);
                proof {
                    lemma_push_contains(before, b);
                }
            }
            i = i + 1;
        }
        assert(list@.take(n as int) =~= list@);
        exits
    }

    /// The header of a natural loop dominates every block of the loop that can be reached.
    pub proof fn lemma_header_dominates(self, cfg: Cfg, dom: DomTree, h: u32, b: u32)
        requires
            dom.describes(cfg),
            self.describes(cfg, dom),
            self.loops@.contains_key(h),
            self.loops@[h]@.contains(b),
            cfg.graph().reachable(b),
        ensures
            cfg.graph().dominates(h, b),
    {
        let g = cfg.graph();
        if b == h {
            g.lemma_dominates_refl(b);
        } else {
            let edges = self.back_edges@;
            assert(returns_to(g, edges, h, b));
            let (walk, tail) = choose|walk: Seq<u32>, tail: u32|
                #![trigger walk_around(g, walk, b, tail, h)]
                edges.contains((tail, h)) && walk_around(g, walk, b, tail, h);
            lemma_back_edge_above(cfg, dom, cfg.block_ids@, tail, h);
            assert forall|q: Seq<u32>| #[trigger] g.path_to(q, b) implies q.contains(h) by {
                let whole = q.drop_last() + walk;
                assert forall|i: int| 0 <= i < whole.len() - 1 implies #[trigger] g.step(
                    whole,
                    i,
                ) by {
                    if i < q.len() - 1 {
                        assert(g.step(q, i));
                    } else {
                        assert(g.step(walk, i - (q.len() - 1)));
                    }
                }
                assert(whole.last() == tail);
                assert(whole[0] == q[0]);
                assert(g.path_to(whole, tail));
                assert(g.reachable(tail));
                dom.lemma_above_is_dominance(cfg, h, tail);
                assert(whole.contains(h));
                let i = choose|i: int| 0 <= i < whole.len() && whole[i] == h;
                if i < q.len() - 1 {
                    assert(q[i] == h);
                } else {
                    assert(walk[i - (q.len() - 1)] == h);
                }
            }
        }
    }

    /// An edge of the graph is a back edge exactly if it leaves one of the listed blocks and its
    /// target dominates its source, or its source cannot be reached and is its own target.
    pub proof fn lemma_back_edge_iff_dominates(self, cfg: Cfg, dom: DomTree, src: u32, dst: u32)
        requires
            dom.describes(cfg),
            self.describes(cfg, dom),
        ensures
            self.back_edges@.contains((src, dst)) <==> {
                &&& cfg.block_ids@.contains(src)
                &&& cfg.graph().edge(src, dst)
                &&& if cfg.graph().reachable(src) {
                    cfg.graph().dominates(dst, src)
                } else {
                    src == dst
                }
            },
    {
        lemma_back_edges_of(cfg, dom, cfg.block_ids@, src, dst);
        dom.lemma_above_is_dominance(cfg, dst, src);
    }
}

/// Some successor lies outside the set.
pub open spec fn leaves(succs: Seq<u32>, set: Set<u32>) -> bool {
    exists|i: int| 0 <= i < succs.len() && !set.contains(#[trigger] succs[i])
}

fn any_outside(succs: &[u32], set: &HashSet<u32>) -> (any: bool)
    ensures
        any == leaves(succs@, set@),
{
    let n = succs.len();
    let mut i: usize = 0;
    while i < n
        invariant
            i <= n,
            n == succs@.len(),
            forall|j: int| 0 <= j < i ==> set@.contains(#[trigger] succs@[j]),
        decreases n - i,
    {
        if !set.contains(&succs[i]) {
            return true;
        }
        i = i + 1;
    }
    false
}

proof fn lemma_back_edges_from(dom: DomTree, src: u32, targets: Seq<u32>, s: u32, d: u32)
    ensures
        back_edges_from(dom, src, targets).contains((s, d)) <==> s == src && targets.contains(d)
            && dom.is_above(d, src),
    decreases targets.len(),
{
    if targets.len() > 0 {
        let rest = targets.drop_last();
        lemma_back_edges_from(dom, src, rest, s, d);
        assert(rest.push(targets.last()) =~= targets);
        lemma_push_contains(rest, targets.last());
        let e = back_edges_from(dom, src, rest);
        let x = (src, targets.last());
        assert(e.push(x).contains((s, d)) <==> e.contains((s, d)) || (s, d) == x) by {
            if e.contains((s, d)) {
                let i = choose|i: int| 0 <= i < e.len() && e[i] == (s, d);
                assert(e.push(x)[i] == (s, d));
            }
            assert(e.push(x)[e.len() as int] == x);
        }
    }
}

proof fn lemma_back_edges_of(cfg: Cfg, dom: DomTree, ids: Seq<u32>, s: u32, d: u32)
    ensures
        back_edges_of(cfg, dom, ids).contains((s, d)) <==> ids.contains(s) && cfg.graph().edge(s, d)
            && dom.is_above(d, s),
    decreases ids.len(),
{
    if ids.len() > 0 {
        let rest = ids.drop_last();
        let last = ids.last();
        lemma_back_edges_of(cfg, dom, rest, s, d);
        lemma_back_edges_from(dom, last, cfg.succ_list(last), s, d);
        assert(rest.push(last) =~= ids);
        lemma_push_contains(rest, last);
        let a = back_edges_of(cfg, dom, rest);
        let b = back_edges_from(dom, last, cfg.succ_list(last));
        assert((a + b).contains((s, d)) <==> a.contains((s, d)) || b.contains((s, d))) by {
            if a.contains((s, d)) {
                let i = choose|i: int| 0 <= i < a.len() && a[i] == (s, d);
                assert((a + b)[i] == (s, d));
            }
            if b.contains((s, d)) {
                let i = choose|i: int| 0 <= i < b.len() && b[i] == (s, d);
                assert((a + b)[i + a.len()] == (s, d));
            }
        }
    }
}

proof fn lemma_back_edge_above(cfg: Cfg, dom: DomTree, ids: Seq<u32>, s: u32, d: u32)
    requires
        back_edges_of(cfg, dom, ids).contains((s, d)),
    ensures
        dom.is_above(d, s),
{
    lemma_back_edges_of(cfg, dom, ids, s, d);
}

/// A back edge is (src, tgt) where tgt dominates src
fn find_back_edges(cfg: &Cfg, dom: &DomTree) -> (edges: Vec<(u32, u32)>)
    requires
        dom.wf(),
    ensures
        edges@ == back_edges_of(*cfg, *dom, cfg.block_ids@),
{
    let mut edges: Vec<(u32, u32)> = Vec::new();
    let ghost ids = cfg.block_ids@;
    let n = cfg.block_ids.len();
    let mut i: usize = 0;
    while i < n
        invariant
            i <= n,
            n == ids.len(),
            ids == cfg.block_ids@,
            dom.wf(),
            edges@ == back_edges_of(*cfg, *dom, ids.take(i as int)),
        decreases n - i,
    {
        let src = cfg.block_ids[i];
        let ghost base = edges@;
        let succs = cfg.successors(src);
        let m = succs.len();
        let mut j: usize = 0;
        assert(edges@ =~= base + back_edges_from(*dom, src, succs@.take(0)));
        while j < m
            invariant
                j <= m,
                m == succs@.len(),
                dom.wf(),
                edges@ == base + back_edges_from(*dom, src, succs@.take(j as int)),
            decreases m - j,
        {
            let tgt = succs[j];
            assert(succs@.take(j + 1).drop_last() =~= succs@.take(j as int));
            if dom.dominates(tgt, src) {
                edges.push((src, tgt));
            }
            assert(edges@ =~= base + back_edges_from(*dom, src, succs@.take(j + 1)));
            j = j + 1;
        }
        proof {
            assert(succs@.take(m as int) =~= succs@);
            assert(ids.take(i + 1).drop_last() =~= ids.take(i as int));
        }
        i = i + 1;
    }
    assert(ids.take(n as int) =~= ids);
    edges
}

/// What holds of the loops after the first back edges have been worked off.
spec fn loops_so_far(g: Graph, edges: Seq<(u32, u32)>, loops: Map<u32, HashSet<u32>>) -> bool {
    &&& forall|h: u32| #[trigger] loops.contains_key(h) <==> is_header(edges, h)
    &&& forall|h: u32| #[trigger]
        loops.contains_key(h) ==> {
            &&& loops[h]@.contains(h)
            &&& forall|b: u32| #[trigger]
                loops[h]@.contains(b) ==> b == h || returns_to(g, edges, h, b)
            &&& closing(g, loops[h]@, Seq::empty(), h)
            &&& forall|t: u32| #[trigger] edges.contains((t, h)) ==> loops[h]@.contains(t)
        }
}

fn find_loops(cfg: &Cfg, back_edges: &Vec<(u32, u32)>) -> (loops: HashMap<u32, HashSet<u32>>)
    requires
        cfg.wf(),
    ensures
        natural_loops(cfg.graph(), back_edges@, loops@),
{
    let ghost g = cfg.graph();
    let mut loops: HashMap<u32, HashSet<u32>> = HashMap::new();
    let n = back_edges.len();
    let mut i: usize = 0;
    while i < n
        invariant
            i <= n,
            n == back_edges@.len(),
            g == cfg.graph(),
            cfg.wf(),
            loops_so_far(g, back_edges@.take(i as int), loops@),
        decreases n - i,
    {
        let (tail, header) = back_edges[i];
        let ghost before = loops@;
        let ghost done = back_edges@.take(i as int);
        let ghost edges = back_edges@.take(i + 1);
        let mut members = match loops.remove(&header) {
            Some(members) => members,
            None => HashSet::new(),
        };
        let ghost had = members@;
        members.insert(header);
        proof {
            assert(edges =~= done.push((tail, header)));
            assert(edges[i as int] == (tail, header));
            assert forall|t: u32, h: u32| #[trigger]
                edges.contains((t, h)) <==> done.contains((t, h)) || (t, h) == (tail, header) by {
                if done.contains((t, h)) {
                    let j = choose|j: int| 0 <= j < done.len() && done[j] == (t, h);
                    assert(edges[j] == (t, h));
                }
                if edges.contains((t, h)) {
                    let j = choose|j: int| 0 <= j < edges.len() && edges[j] == (t, h);
                    if j < i {
                        assert(done[j] == (t, h));
                    }
                }
            }
            assert forall|b: u32| #[trigger] members@.contains(b) implies b == header
                || returns_to(g, edges, header, b) by {
                if b != header {
                    assert(had.contains(b));
                    assert(before.contains_key(header));
                    lemma_returns_more(g, done, edges, header, b);
                }
            }
            assert forall|p: u32, c: u32| #[trigger]
                g.edge(p, c) && members@.contains(c) && c != header implies members@.contains(p)
                || Seq::<u32>::empty().contains(p) by {
                assert(had.contains(c));
                assert(before.contains_key(header));
                assert(closing(g, before[header]@, Seq::empty(), header));
            }
        }
        let all = gather(cfg, members, tail, header, Ghost(edges));
        let ghost all_view = all@;
        loops.insert(header, all);
        proof {
            assert forall|h: u32| #[trigger] loops@.contains_key(h) <==> is_header(edges, h) by {
                if is_header(done, h) {
                    let t = choose|t: u32| done.contains((t, h));
                    assert(edges.contains((t, h)));
                }
                if is_header(edges, h) {
                    let t = choose|t: u32| edges.contains((t, h));
                    if h != header {
                        assert(done.contains((t, h)));
                    }
                }
                assert(edges.contains((tail, header)));
                assert(before.contains_key(h) <==> is_header(done, h));
            }
            assert forall|h: u32| #[trigger] loops@.contains_key(h) implies {
                &&& loops@[h]@.contains(h)
                &&& forall|b: u32| #[trigger]
                    loops@[h]@.contains(b) ==> b == h || returns_to(g, edges, h, b)
                &&& closing(g, loops@[h]@, Seq::empty(), h)
                &&& forall|t: u32| #[trigger] edges.contains((t, h)) ==> loops@[h]@.contains(t)
            } by {
                if h == header {
                    assert forall|t: u32| #[trigger] edges.contains(
                        (t, h),
                    ) implies all_view.contains(t) by {
                        if t != tail {
                            assert(done.contains((t, h)));
                            assert(is_header(done, h));
                            assert(before.contains_key(header));
                            assert(had.contains(t));
                        }
                    }
                } else {
                    assert(before.contains_key(h));
                    assert forall|b: u32| #[trigger] loops@[h]@.contains(b) implies b == h
                        || returns_to(g, edges, h, b) by {
                        if b != h {
                            lemma_returns_more(g, done, edges, h, b);
                        }
                    }
                }
            }
        }
        i = i + 1;
    }
    proof {
        let edges = back_edges@;
        assert(back_edges@.take(n as int) =~= edges);
        assert forall|h: u32, b: u32|
            loops@.contains_key(h) implies (#[trigger] loops@[h]@.contains(b) <==> b == h
            || returns_to(g, edges, h, b)) by {
            if returns_to(g, edges, h, b) {
                let (walk, tail) = choose|walk: Seq<u32>, tail: u32|
                    #![trigger walk_around(g, walk, b, tail, h)]
                    edges.contains((tail, h)) && walk_around(g, walk, b, tail, h);
                assert(loops@[h]@.contains(tail));
                assert(closing(g, loops@[h]@, Seq::empty(), h));
                lemma_walk_inside(g, loops@[h]@, walk, b, tail, h);
            }
        }
    }
    loops
}

/// What holds of the headers after the loops of some of the headers have been looked at, the last
/// of them up to some of its blocks.
spec fn innermost_so_far(
    loops: Map<u32, HashSet<u32>>,
    block_loop: Map<u32, u32>,
    heads: Seq<u32>,
    last: u32,
    blocks: Seq<u32>,
) -> bool {
    &&& forall|b: u32| #[trigger]
        block_loop.contains_key(b) ==> loops.contains_key(block_loop[b])
            && loops[block_loop[b]]@.contains(b)
    &&& forall|b: u32, h: u32|
        heads.contains(h) && #[trigger] loops[h]@.contains(b) ==> block_loop.contains_key(b)
            && loops[block_loop[b]]@.len() <= loops[h]@.len()
    &&& forall|b: u32| #[trigger]
        blocks.contains(b) ==> block_loop.contains_key(b) && loops[block_loop[b]]@.len()
            <= loops[last]@.len()
}

fn find_innermost(loops: &HashMap<u32, HashSet<u32>>) -> (block_loop: HashMap<u32, u32>)
    ensures
        innermost(loops@, block_loop@),
{
    let mut block_loop: HashMap<u32, u32> = HashMap::new();
    let heads = keys_of(loops);
    let n = heads.len();
    let mut i: usize = 0;
    assert(heads@.take(0) =~= Seq::empty());
    while i < n
        invariant
            i <= n,
            n == heads@.len(),
            forall|h: u32| #[trigger] heads@.contains(h) <==> loops@.contains_key(h),
            innermost_so_far(loops@, block_loop@, heads@.take(i as int), 0, Seq::empty()),
        decreases n - i,
    {
        let header = heads[i];
        assert(heads@.contains(header)) by {
            assert(heads@[i as int] == header);
        }
        if let Some(members) = loops.get(&header) {
            let list = members_of(members);
            let m = list.len();
            let mut j: usize = 0;
            assert(list@.take(0) =~= Seq::empty());
            while j < m
                invariant
                    i < n,
                    j <= m,
                    m == list@.len(),
                    loops@.contains_key(header),
                    loops@[header] == *members,
                    forall|b: u32| #[trigger] list@.contains(b) <==> members@.contains(b),
                    innermost_so_far(
                        loops@,
                        block_loop@,
                        heads@.take(i as int),
                        header,
                        list@.take(j as int),
                    ),
                decreases m - j,
            {
                let b = list[j];
                let ghost before = block_loop@;
                let ghost part = list@.take(j as int);
                proof {
                    assert(list@[j as int] == b);
                    assert(list@.contains(b));
                    assert(list@.take(j + 1) =~= part.push(b));
                    lemma_push_contains(part, b);
                }
                match block_loop.get(&b) {
                    None => {
                        block_loop.insert(b, header);
                    },
                    Some(cur) => {
                        if let Some(cur_members) = loops.get(cur) {
                            let cur_sz = cur_members.len();
                            let new_sz = members.len();
                            if new_sz < cur_sz {
                                block_loop.insert(b, header);
                            }
                        }
                    },
                }
                j = j + 1;
            }
            proof {
                assert(list@.take(m as int) =~= list@);
                let part = heads@.take(i as int);
                let next = heads@.take(i + 1);
                assert(next =~= part.push(header));
                lemma_push_contains(part, header);
                assert forall|b: u32, h: u32|
                    next.contains(h) && #[trigger] loops@[h]@.contains(
                        b,
                    ) implies block_loop@.contains_key(b) && loops@[block_loop@[b]]@.len()
                    <= loops@[h]@.len() by {
                    if h == header {
                        assert(list@.contains(b));
                    } else {
                        assert(part.contains(h));
                    }
                }
            }
        }
        i = i + 1;
    }
    assert(heads@.take(n as int) =~= heads@);
    block_loop
}

} // verus!

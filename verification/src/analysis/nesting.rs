//! Natural loops that share a block lie one inside the other.
use vstd::prelude::*;
use vstd::set_lib::{lemma_len_subset, lemma_subset_equality};

use super::cfg::Cfg;
use super::dom::DomTree;
use super::graph::Graph;
use super::loops::{returns_to, walk_around, LoopInfo};
use crate::finite::lemma_finite32;

verus! {

broadcast use vstd::std_specs::hash::group_hash_axioms;

/// Two walks with an edge between them make one walk.
proof fn lemma_join(g: Graph, p: Seq<u32>, q: Seq<u32>)
    requires
        g.is_path(p),
        g.is_path(q),
        g.edge(p.last(), q[0]),
    ensures
        g.is_path(p + q),
{
    let r = p + q;
    assert forall|i: int| 0 <= i < r.len() - 1 implies #[trigger] g.step(r, i) by {
        if i < p.len() - 1 {
            assert(g.step(p, i));
        } else if i >= p.len() {
            assert(g.step(q, i - p.len()));
        }
    }
}

/// What comes from position `i` on is a walk.
proof fn lemma_rest(g: Graph, p: Seq<u32>, i: int)
    requires
        g.is_path(p),
        0 <= i < p.len(),
    ensures
        g.is_path(p.skip(i)),
        p.skip(i)[0] == p[i],
        p.skip(i).last() == p.last(),
{
    let q = p.skip(i);
    assert forall|j: int| 0 <= j < q.len() - 1 implies #[trigger] g.step(q, j) by {
        assert(g.step(p, i + j));
    }
}

/// A walk and one that starts where it ends make one walk.
proof fn lemma_meet(g: Graph, p: Seq<u32>, q: Seq<u32>) -> (r: Seq<u32>)
    requires
        g.is_path(p),
        g.is_path(q),
        p.last() == q[0],
    ensures
        g.is_path(r),
        r[0] == p[0],
        r.last() == q.last(),
        forall|x: u32| #[trigger] r.contains(x) ==> p.contains(x) || q.contains(x),
{
    if p.len() == 1 {
        q
    } else {
        let front = p.drop_last();
        assert forall|j: int| 0 <= j < front.len() - 1 implies #[trigger] g.step(front, j) by {
            assert(g.step(p, j));
        }
        assert(g.step(p, p.len() - 2));
        lemma_join(g, front, q);
        let r = front + q;
        assert forall|x: u32| #[trigger] r.contains(x) implies p.contains(x) || q.contains(x) by {
            let i = choose|i: int| 0 <= i < r.len() && r[i] == x;
            if i < front.len() {
                assert(p[i] == x);
            } else {
                assert(q[i - front.len()] == x);
            }
        }
        r
    }
}

/// On a way to a block of two loops the loop whose header comes later lies inside the other.
proof fn lemma_inside(
    info: LoopInfo,
    cfg: Cfg,
    dom: DomTree,
    p: Seq<u32>,
    outer: int,
    inner: int,
)
    requires
        dom.describes(cfg),
        info.describes(cfg, dom),
        cfg.graph().path_to(p, p.last()),
        p.no_duplicates(),
        0 <= outer < inner < p.len(),
        info.loops@.contains_key(p[outer]),
        info.loops@.contains_key(p[inner]),
        info.loops@[p[outer]]@.contains(p.last()),
    ensures
        info.loops@[p[inner]]@.subset_of(info.loops@[p[outer]]@),
{
    let g = cfg.graph();
    let edges = info.back_edges@;
    let b = p.last();
    let h = p[outer];
    let k = p[inner];
    assert(b == p[p.len() - 1]);
    assert(returns_to(g, edges, h, b));
    let (walk, tail) = choose|walk: Seq<u32>, tail: u32|
        #![trigger walk_around(g, walk, b, tail, h)]
        edges.contains((tail, h)) && walk_around(g, walk, b, tail, h);
    lemma_rest(g, p, inner);
    let down = p.skip(inner);
    assert(!down.contains(h)) by {
        if down.contains(h) {
            let i = choose|i: int| 0 <= i < down.len() && down[i] == h;
            assert(p[inner + i] == p[outer]);
        }
    }
    let back = lemma_meet(g, down, walk);
    assert(!back.contains(h));
    assert(walk_around(g, back, k, tail, h));
    assert forall|x: u32| info.loops@[k]@.contains(x) implies info.loops@[h]@.contains(x) by {
        if x != k && x != h {
            assert(returns_to(g, edges, k, x));
            let (round, end) = choose|round: Seq<u32>, end: u32|
                #![trigger walk_around(g, round, x, end, k)]
                edges.contains((end, k)) && walk_around(g, round, x, end, k);
            info.lemma_back_edge_iff_dominates(cfg, dom, end, k);
            if round.contains(h) {
                let i = choose|i: int| 0 <= i < round.len() && round[i] == h;
                g.lemma_path_prefix(p, b, outer);
                let up = p.take(outer + 1);
                lemma_rest(g, round, i);
                let way = lemma_meet(g, up, round.skip(i));
                assert(g.path_to(way, end));
                assert(g.dominates(k, end));
                assert(way.contains(k));
                if up.contains(k) {
                    let j = choose|j: int| 0 <= j < up.len() && up[j] == k;
                    assert(p[j] == p[inner]);
                } else {
                    let rest = round.skip(i);
                    let j = choose|j: int| 0 <= j < rest.len() && rest[j] == k;
                    assert(round[i + j] == k);
                }
                assert(false);
            }
            lemma_join(g, round, back);
            let long = round + back;
            assert(!long.contains(h)) by {
                if long.contains(h) {
                    let j = choose|j: int| 0 <= j < long.len() && long[j] == h;
                    if j < round.len() {
                        assert(round[j] == h);
                    } else {
                        assert(back[j - round.len()] == h);
                    }
                }
            }
            assert(long.last() == tail);
            assert(walk_around(g, long, x, tail, h));
        }
    }
}

impl LoopInfo {
    /// Two loops that share a block which can be reached lie one inside the other.
    pub proof fn lemma_loops_nest(self, cfg: Cfg, dom: DomTree, h: u32, k: u32, b: u32)
        requires
            dom.describes(cfg),
            self.describes(cfg, dom),
            cfg.graph().reachable(b),
            self.loops@.contains_key(h),
            self.loops@.contains_key(k),
            self.loops@[h]@.contains(b),
            self.loops@[k]@.contains(b),
        ensures
            self.loops@[h]@.subset_of(self.loops@[k]@) || self.loops@[k]@.subset_of(
                self.loops@[h]@,
            ),
    {
        let g = cfg.graph();
        let q = choose|q: Seq<u32>| g.path_to(q, b);
        let p = g.lemma_cut(q, b);
        self.lemma_header_dominates(cfg, dom, h, b);
        self.lemma_header_dominates(cfg, dom, k, b);
        assert(p.contains(h) && p.contains(k));
        let i = choose|i: int| 0 <= i < p.len() && p[i] == h;
        let j = choose|j: int| 0 <= j < p.len() && p[j] == k;
        if i < j {
            lemma_inside(self, cfg, dom, p, i, j);
        } else if j < i {
            lemma_inside(self, cfg, dom, p, j, i);
        }
    }

    /// The innermost loop of a block that can be reached lies inside every loop with that block.
    pub proof fn lemma_innermost_inside(self, cfg: Cfg, dom: DomTree, h: u32, b: u32)
        requires
            dom.describes(cfg),
            self.describes(cfg, dom),
            cfg.graph().reachable(b),
            self.loops@.contains_key(h),
            self.loops@[h]@.contains(b),
        ensures
            self.block_loop@.contains_key(b),
            self.loops@[self.block_loop@[b]]@.subset_of(self.loops@[h]@),
    {
        assert(self.block_loop@.contains_key(b));
        let k = self.block_loop@[b];
        self.lemma_loops_nest(cfg, dom, h, k, b);
        let outer = self.loops@[h]@;
        let inner = self.loops@[k]@;
        if outer.subset_of(inner) {
            lemma_finite32(outer);
            lemma_finite32(inner);
            lemma_len_subset(outer, inner);
            lemma_subset_equality(outer, inner);
        }
    }
}

} // verus!

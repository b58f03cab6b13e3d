//! Paths and dominance in a directed graph with an entry.
use vstd::prelude::*;

verus! {

/// A directed graph with an entry node.
pub ghost struct Graph {
    pub entry: u32,
    pub edges: Set<(u32, u32)>,
}

impl Graph {
    pub open spec fn edge(self, a: u32, b: u32) -> bool {
        self.edges.contains((a, b))
    }

    /// The `i`-th step of `p` follows an edge.
    pub open spec fn step(self, p: Seq<u32>, i: int) -> bool {
        self.edge(p[i], p[i + 1])
    }

    /// `p` is a non-empty walk along edges.
    pub open spec fn is_path(self, p: Seq<u32>) -> bool {
        p.len() > 0 && forall|i: int| 0 <= i < p.len() - 1 ==> #[trigger] self.step(p, i)
    }

    /// `p` leads from the entry to `b`.
    pub open spec fn path_to(self, p: Seq<u32>, b: u32) -> bool {
        self.is_path(p) && p[0] == self.entry && p.last() == b
    }

    /// Some path leads from the entry to `b`.
    pub open spec fn reachable(self, b: u32) -> bool {
        exists|p: Seq<u32>| self.path_to(p, b)
    }

    /// Every path from the entry to `b` passes through `a`.
    pub open spec fn dominates(self, a: u32, b: u32) -> bool {
        forall|p: Seq<u32>| #[trigger] self.path_to(p, b) ==> p.contains(a)
    }

    /// Every path of at most `k` steps from the entry to `b` passes through `a`.
    pub open spec fn dominates_within(self, a: u32, b: u32, k: nat) -> bool {
        forall|p: Seq<u32>| #[trigger] self.path_to(p, b) && p.len() <= k + 1 ==> p.contains(a)
    }

    /// `a` dominates `b` and is another node.
    pub open spec fn strictly_dominates(self, a: u32, b: u32) -> bool {
        a != b && self.dominates(a, b)
    }

    /// `a` is the immediate dominator of `b`: the strict dominator that every strict dominator
    /// of `b` dominates.
    pub open spec fn immediately_dominates(self, a: u32, b: u32) -> bool {
        self.strictly_dominates(a, b) && forall|x: u32| #[trigger]
            self.strictly_dominates(x, b) ==> self.dominates(x, a)
    }

    /// The reachable nodes in an order that starts with the entry and in which every other node
    /// has a predecessor before it.
    pub open spec fn is_order(self, order: Seq<u32>) -> bool {
        &&& order.len() > 0
        &&& order[0] == self.entry
        &&& order.no_duplicates()
        &&& forall|b: u32| #[trigger] order.contains(b) <==> self.reachable(b)
        &&& forall|i: int| 0 < i < order.len() ==> #[trigger] self.has_earlier_pred(order, i)
    }

    pub open spec fn has_earlier_pred(self, order: Seq<u32>, i: int) -> bool {
        exists|j: int| 0 <= j < i && self.edge(#[trigger] order[j], order[i])
    }

    pub proof fn lemma_path_entry(self)
        ensures
            self.path_to(seq![self.entry], self.entry),
            self.reachable(self.entry),
    {
        assert(self.path_to(seq![self.entry], self.entry));
    }

    pub proof fn lemma_path_push(self, p: Seq<u32>, a: u32, b: u32)
        requires
            self.path_to(p, a),
            self.edge(a, b),
        ensures
            self.path_to(p.push(b), b),
            self.reachable(b),
    {
        let q = p.push(b);
        assert forall|i: int| 0 <= i < q.len() - 1 implies #[trigger] self.step(q, i) by {
            if i < p.len() - 1 {
                assert(self.step(p, i));
            }
        }
        assert(self.path_to(q, b));
    }

    pub proof fn lemma_path_prefix(self, p: Seq<u32>, b: u32, i: int)
        requires
            self.path_to(p, b),
            0 <= i < p.len(),
        ensures
            self.path_to(p.take(i + 1), p[i]),
            self.reachable(p[i]),
    {
        let q = p.take(i + 1);
        assert forall|j: int| 0 <= j < q.len() - 1 implies #[trigger] self.step(q, j) by {
            assert(self.step(p, j));
        }
        assert(self.path_to(q, p[i]));
    }

    /// The node before the end of a path is a predecessor of the end.
    pub proof fn lemma_path_last(self, p: Seq<u32>, b: u32)
        requires
            self.path_to(p, b),
            p.len() > 1,
        ensures
            self.path_to(p.drop_last(), p[p.len() - 2]),
            self.edge(p[p.len() - 2], b),
    {
        assert(self.step(p, p.len() - 2));
        self.lemma_path_prefix(p, b, p.len() - 2);
        assert(p.take(p.len() - 1) =~= p.drop_last());
    }

    /// What strictly dominates a node dominates its predecessors.
    pub proof fn lemma_dominates_pred(self, x: u32, p: u32, b: u32)
        requires
            self.strictly_dominates(x, b),
            self.edge(p, b),
        ensures
            self.dominates(x, p),
    {
        assert forall|q: Seq<u32>| #[trigger] self.path_to(q, p) implies q.contains(x) by {
            self.lemma_path_push(q, p, b);
            let w = q.push(b);
            assert(w.contains(x));
            let i = choose|i: int| 0 <= i < w.len() && w[i] == x;
            assert(q[i] == x);
        }
    }

    pub proof fn lemma_dominates_within_trans(self, a: u32, b: u32, c: u32, k: nat)
        requires
            self.dominates_within(a, b, k),
            self.dominates_within(b, c, k),
        ensures
            self.dominates_within(a, c, k),
    {
        assert forall|p: Seq<u32>| #[trigger] self.path_to(p, c) && p.len() <= k + 1 implies
            p.contains(a) by {
            assert(p.contains(b));
            let i = choose|i: int| 0 <= i < p.len() && p[i] == b;
            self.lemma_path_prefix(p, c, i);
            let q = p.take(i + 1);
            assert(q.contains(a));
            let j = choose|j: int| 0 <= j < q.len() && q[j] == a;
            assert(p[j] == a);
        }
    }

    /// Dominance is transitive.
    pub proof fn lemma_dominates_trans(self, a: u32, b: u32, c: u32)
        requires
            self.dominates(a, b),
            self.dominates(b, c),
        ensures
            self.dominates(a, c),
    {
        assert forall|p: Seq<u32>| #[trigger] self.path_to(p, c) implies p.contains(a) by {
            let k = p.len();
            assert(self.dominates_within(a, b, k));
            assert(self.dominates_within(b, c, k));
            self.lemma_dominates_within_trans(a, b, c, k);
        }
    }

    /// A node dominates itself.
    pub proof fn lemma_dominates_refl(self, b: u32)
        ensures
            self.dominates(b, b),
    {
        assert forall|p: Seq<u32>| #[trigger] self.path_to(p, b) implies p.contains(b) by {
            assert(p[p.len() - 1] == b);
        }
    }

    /// The entry dominates every node.
    pub proof fn lemma_entry_dominates(self, b: u32)
        ensures
            self.dominates(self.entry, b),
    {
        assert forall|p: Seq<u32>| #[trigger] self.path_to(p, b) implies p.contains(self.entry) by {
            assert(p[0] == self.entry);
        }
    }

    /// A path can be cut down to one without repetitions, over nodes of the given path.
    pub(crate) proof fn lemma_cut(self, p: Seq<u32>, b: u32) -> (q: Seq<u32>)
        requires
            self.path_to(p, b),
        ensures
            self.path_to(q, b),
            q.no_duplicates(),
            forall|x: u32| q.contains(x) ==> p.contains(x),
        decreases p.len(),
    {
        if p.no_duplicates() {
            p
        } else {
            let (i, j) = choose|i: int, j: int|
                0 <= i < p.len() && 0 <= j < p.len() && i != j && p[i] == p[j];
            let (i, j) = if i < j {
                (i, j)
            } else {
                (j, i)
            };
            let head = p.take(i + 1);
            let tail = p.skip(j + 1);
            let r = head + tail;
            assert forall|m: int| 0 <= m < r.len() - 1 implies #[trigger] self.step(r, m) by {
                if m < i {
                    assert(self.step(p, m));
                } else if m == i {
                    assert(self.step(p, j));
                } else {
                    assert(self.step(p, m - i + j));
                }
            }
            assert(r.last() == b);
            let q = self.lemma_cut(r, b);
            assert forall|x: u32| q.contains(x) implies p.contains(x) by {
                assert(r.contains(x));
                let m = choose|m: int| 0 <= m < r.len() && r[m] == x;
                if m <= i {
                    assert(p[m] == x);
                } else {
                    assert(p[m - i + j] == x);
                }
            }
            q
        }
    }

    /// Paths as long as the number of reachable nodes are enough to establish dominance.
    pub proof fn lemma_within_all(self, order: Seq<u32>, a: u32, b: u32)
        requires
            self.is_order(order),
            self.dominates_within(a, b, order.len()),
        ensures
            self.dominates(a, b),
    {
        assert forall|p: Seq<u32>| #[trigger] self.path_to(p, b) implies p.contains(a) by {
            let q = self.lemma_cut(p, b);
            assert(q.to_set().subset_of(order.to_set())) by {
                assert forall|x: u32| q.to_set().contains(x) implies order.to_set().contains(x) by {
                    let i = choose|i: int| 0 <= i < q.len() && q[i] == x;
                    self.lemma_path_prefix(q, b, i);
                    assert(order.contains(x));
                }
            }
            order.unique_seq_to_set();
            q.unique_seq_to_set();
            vstd::set_lib::lemma_len_subset(q.to_set(), order.to_set());
            assert(q.contains(a));
        }
    }

    /// Some path to a node of an order stays within the nodes up to it.
    proof fn lemma_low_path(self, order: Seq<u32>, i: int) -> (p: Seq<u32>)
        requires
            self.is_order(order),
            0 <= i < order.len(),
        ensures
            self.path_to(p, order[i]),
            forall|x: u32| p.contains(x) ==> exists|j: int| 0 <= j <= i && order[j] == x,
        decreases i,
    {
        if i == 0 {
            self.lemma_path_entry();
            let p = seq![self.entry];
            assert(forall|x: u32| p.contains(x) ==> x == order[0]);
            p
        } else {
            assert(self.has_earlier_pred(order, i));
            let j = choose|j: int| 0 <= j < i && self.edge(#[trigger] order[j], order[i]);
            let q = self.lemma_low_path(order, j);
            self.lemma_path_push(q, order[j], order[i]);
            let p = q.push(order[i]);
            assert forall|x: u32| p.contains(x) implies exists|m: int|
                0 <= m <= i && order[m] == x by {
                let t = choose|t: int| 0 <= t < p.len() && p[t] == x;
                if t < q.len() {
                    assert(q.contains(x)) by {
                        assert(q[t] == x);
                    }
                    let m = choose|m: int| 0 <= m <= j && order[m] == x;
                    assert(order[m] == x);
                } else {
                    assert(order[i] == x);
                }
            }
            p
        }
    }

    /// A dominator comes no later than what it dominates, in any such order.
    pub proof fn lemma_dominator_earlier(self, order: Seq<u32>, i: int, j: int)
        requires
            self.is_order(order),
            0 <= i < order.len(),
            0 <= j < order.len(),
            self.dominates(order[i], order[j]),
        ensures
            i <= j,
    {
        let p = self.lemma_low_path(order, j);
        assert(p.contains(order[i]));
        let m = choose|m: int| 0 <= m <= j && order[m] == order[i];
    }
}

/// Some path leads from `a` to `b`.
pub open spec fn reaches(g: Graph, a: u32, b: u32) -> bool {
    exists|p: Seq<u32>| #[trigger] g.is_path(p) && p[0] == a && p.last() == b
}

/// A node reaches itself.
pub proof fn lemma_reaches_self(g: Graph, a: u32)
    ensures
        reaches(g, a, a),
{
    assert(g.is_path(seq![a]) && seq![a][0] == a && seq![a].last() == a);
}

/// What reaches the source of an edge reaches its target.
pub proof fn lemma_reaches_step(g: Graph, a: u32, b: u32, c: u32)
    requires
        reaches(g, a, b),
        g.edge(b, c),
    ensures
        reaches(g, a, c),
{
    let p = choose|p: Seq<u32>| #[trigger] g.is_path(p) && p[0] == a && p.last() == b;
    let q = p.push(c);
    assert forall|i: int| 0 <= i < q.len() - 1 implies #[trigger] g.step(q, i) by {
        if i < p.len() - 1 {
            assert(g.step(p, i));
        }
    }
    assert(g.is_path(q) && q[0] == a && q.last() == c);
}

} // verus!

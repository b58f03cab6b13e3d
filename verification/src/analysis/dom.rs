//! The dominator tree of a flow graph.
use std::collections::HashMap;

use vstd::prelude::*;

use super::cfg::Cfg;
use super::graph::Graph;
use crate::listing::{keys_of, lemma_push_contains};

verus! {

broadcast use vstd::std_specs::hash::group_hash_axioms;

/// Dominator tree using the Cooper-Harvey-Kennedy algorithm (simple iterative)
#[derive(Debug)]
pub struct DomTree {
    /// block id → immediate dominator (None for entry)
    pub idom: HashMap<u32, Option<u32>>,
    /// Reverse post-order of blocks
    pub rpo: Vec<u32>,
    /// RPO index of each block
    pub rpo_idx: HashMap<u32, usize>,
}

/// `idx` gives the position of each node of `order`, and holds no other node.
pub open spec fn indexes(order: Seq<u32>, idx: Map<u32, usize>) -> bool {
    &&& forall|b: u32| #[trigger] idx.contains_key(b) <==> order.contains(b)
    &&& forall|b: u32| #[trigger]
        idx.contains_key(b) ==> idx[b] < order.len() && order[idx[b] as int] == b
    &&& forall|i: int| 0 <= i < order.len() ==> idx[#[trigger] order[i]] == i
}

/// The node has a parent by now.
spec fn settled(m: Map<u32, Option<u32>>, b: u32) -> bool {
    m.contains_key(b) && m[b] is Some
}

/// A node other than the entry that has a parent by now.
spec fn parented(g: Graph, m: Map<u32, Option<u32>>, c: u32) -> bool {
    settled(m, c) && c != g.entry
}

spec fn parent(m: Map<u32, Option<u32>>, c: u32) -> u32 {
    m[c]->0
}

/// What strictly dominates `c` dominates `p`.
spec fn keeps_dominators(g: Graph, p: u32, c: u32) -> bool {
    forall|x: u32| #[trigger] g.strictly_dominates(x, c) ==> g.dominates(x, p)
}

/// The parents found so far lie earlier in the order, and no dominator has been passed over.
spec fn tentative(
    g: Graph,
    order: Seq<u32>,
    idx: Map<u32, usize>,
    m: Map<u32, Option<u32>>,
) -> bool {
    &&& g.is_order(order)
    &&& indexes(order, idx)
    &&& forall|b: u32| #[trigger] m.contains_key(b) <==> order.contains(b)
    &&& settled(m, g.entry)
    &&& parent(m, g.entry) == g.entry
    &&& forall|c: u32| #[trigger]
        parented(g, m, c) ==> settled(m, parent(m, c)) && idx[parent(m, c)] < idx[c]
            && keeps_dominators(g, parent(m, c), c)
}

/// Every parent lies on all paths of at most `k` steps to its child.
spec fn holds_within(g: Graph, m: Map<u32, Option<u32>>, k: nat) -> bool {
    forall|c: u32| #[trigger] parented(g, m, c) ==> g.dominates_within(parent(m, c), c, k)
}

/// A node dominated by both stays a dominator when the later of two nodes is replaced by its
/// parent.
proof fn lemma_up(
    g: Graph,
    order: Seq<u32>,
    idx: Map<u32, usize>,
    m: Map<u32, Option<u32>>,
    f: u32,
    other: u32,
)
    requires
        tentative(g, order, idx, m),
        settled(m, f),
        settled(m, other),
        idx[f] > idx[other],
    ensures
        parented(g, m, f),
        settled(m, parent(m, f)),
        idx[parent(m, f)] < idx[f],
        forall|x: u32| #[trigger]
            g.dominates(x, f) && g.dominates(x, other) ==> g.dominates(x, parent(m, f)),
        forall|b: u32, k: nat|
            holds_within(g, m, k) && #[trigger] g.dominates_within(f, b, k)
                ==> g.dominates_within(parent(m, f), b, k),
{
    assert(order.contains(f) && order.contains(other));
    assert(idx.contains_key(f) && idx.contains_key(other));
    assert(idx[order[0]] == 0);
    assert(f != g.entry);
    assert(parented(g, m, f));
    assert forall|x: u32| #[trigger]
        g.dominates(x, f) && g.dominates(x, other) implies g.dominates(x, parent(m, f)) by {
        if x == f {
            g.lemma_dominator_earlier(order, idx[f] as int, idx[other] as int);
        } else {
            assert(g.strictly_dominates(x, f));
        }
    }
    assert forall|b: u32, k: nat|
        holds_within(g, m, k) && #[trigger] g.dominates_within(
            f,
            b,
            k,
        ) implies g.dominates_within(parent(m, f), b, k) by {
        g.lemma_dominates_within_trans(parent(m, f), f, b, k);
    }
}

/// The nearest common node of two chains of parents.
fn intersect(
    b1: u32,
    b2: u32,
    idom: &HashMap<u32, Option<u32>>,
    rpo_idx: &HashMap<u32, usize>,
    Ghost(g): Ghost<Graph>,
    Ghost(order): Ghost<Seq<u32>>,
) -> (r: u32)
    requires
        tentative(g, order, rpo_idx@, idom@),
        settled(idom@, b1),
        settled(idom@, b2),
    ensures
        settled(idom@, r),
        rpo_idx@[r] <= rpo_idx@[b1],
        rpo_idx@[r] <= rpo_idx@[b2],
        forall|x: u32| #[trigger]
            g.dominates(x, b1) && g.dominates(x, b2) ==> g.dominates(x, r),
        forall|k: nat| #[trigger]
            holds_within(g, idom@, k) ==> g.dominates_within(r, b1, k) && g.dominates_within(
                r,
                b2,
                k,
            ),
{
    let mut finger1 = b1;
    let mut finger2 = b2;
    proof {
        g.lemma_dominates_refl(b1);
        g.lemma_dominates_refl(b2);
    }
    while finger1 != finger2
        invariant
            tentative(g, order, rpo_idx@, idom@),
            settled(idom@, finger1),
            settled(idom@, finger2),
            rpo_idx@[finger1] <= rpo_idx@[b1],
            rpo_idx@[finger2] <= rpo_idx@[b2],
            forall|x: u32| #[trigger]
                g.dominates(x, b1) && g.dominates(x, b2) ==> g.dominates(x, finger1)
                    && g.dominates(x, finger2),
            forall|k: nat| #[trigger]
                holds_within(g, idom@, k) ==> g.dominates_within(finger1, b1, k)
                    && g.dominates_within(finger2, b2, k),
        decreases rpo_idx@[finger1] + rpo_idx@[finger2],
    {
        assert(order.contains(finger1) && order.contains(finger2));
        assert(rpo_idx@.contains_key(finger1) && rpo_idx@.contains_key(finger2));
        let i1 = position(rpo_idx, finger1);
        let i2 = position(rpo_idx, finger2);
        if i1 > i2 {
            proof {
                lemma_up(g, order, rpo_idx@, idom@, finger1, finger2);
            }
            finger1 = parent_or_self(idom, finger1);
        } else {
            assert(i2 > i1);
            proof {
                lemma_up(g, order, rpo_idx@, idom@, finger2, finger1);
            }
            finger2 = parent_or_self(idom, finger2);
        }
    }
    finger1
}

fn position(rpo_idx: &HashMap<u32, usize>, b: u32) -> (i: usize)
    requires
        rpo_idx@.contains_key(b),
    ensures
        i == rpo_idx@[b],
{
    match rpo_idx.get(&b) {
        Some(i) => *i,
        None => 0,
    }
}

fn parent_of(idom: &HashMap<u32, Option<u32>>, b: u32) -> (p: Option<u32>)
    ensures
        p == (if idom@.contains_key(b) {
            idom@[b]
        } else {
            None
        }),
{
    match idom.get(&b) {
        Some(p) => *p,
        None => None,
    }
}

fn parent_or_self(idom: &HashMap<u32, Option<u32>>, b: u32) -> (p: u32)
    ensures
        p == (if settled(idom@, b) {
            parent(idom@, b)
        } else {
            b
        }),
{
    match parent_of(idom, b) {
        Some(p) => p,
        None => b,
    }
}

/// The nearest node that all predecessors of `b` with a parent have in common.
fn meet_preds(
    cfg: &Cfg,
    b: u32,
    idom: &HashMap<u32, Option<u32>>,
    rpo_idx: &HashMap<u32, usize>,
    Ghost(order): Ghost<Seq<u32>>,
) -> (r: Option<u32>)
    requires
        cfg.wf(),
        tentative(cfg.graph(), order, rpo_idx@, idom@),
    ensures
        r is None ==> forall|q: u32| #[trigger]
            cfg.graph().edge(q, b) ==> !settled(idom@, q),
        r is Some ==> settled(idom@, r->0) && meets(cfg.graph(), rpo_idx@, idom@, b, r->0),
{
    let ghost g = cfg.graph();
    let ghost idx = rpo_idx@;
    let ghost m = idom@;
    let preds = cfg.predecessors(b);
    let n = preds.len();
    let mut acc: Option<u32> = None;
    let mut i: usize = 0;
    while i < n
        invariant
            i <= n,
            n == preds@.len(),
            g == cfg.graph(),
            idx == rpo_idx@,
            m == idom@,
            tentative(g, order, idx, m),
            acc is None ==> forall|j: int| 0 <= j < i ==> !settled(m, #[trigger] preds@[j]),
            acc matches Some(r) ==> {
                &&& settled(m, r)
                &&& forall|j: int|
                    0 <= j < i && settled(m, #[trigger] preds@[j]) ==> idx[r] <= idx[preds@[j]]
                &&& forall|x: u32|
                    (forall|j: int|
                        0 <= j < i && settled(m, preds@[j]) ==> #[trigger] g.dominates(
                            x,
                            preds@[j],
                        )) ==> #[trigger] g.dominates(x, r)
                &&& forall|k: nat, j: int| #[trigger]
                    holds_within(g, m, k) && 0 <= j < i && settled(m, #[trigger] preds@[j])
                        ==> g.dominates_within(r, preds@[j], k)
            },
        decreases n - i,
    {
        let p = preds[i];
        let ghost before = acc;
        match parent_of(idom, p) {
            Some(_) => {
                match acc {
                    None => {
                        acc = Some(p);
                        proof {
                            g.lemma_dominates_refl(p);
                            assert forall|x: u32|
                                (forall|j: int|
                                    0 <= j < i + 1 && settled(m, preds@[j])
                                        ==> #[trigger] g.dominates(
                                        x,
                                        preds@[j],
                                    )) implies #[trigger] g.dominates(x, p) by {
                                assert(g.dominates(x, preds@[i as int]));
                            }
                        }
                    },
                    Some(a) => {
                        let r = intersect(a, p, idom, rpo_idx, Ghost(g), Ghost(order));
                        acc = Some(r);
                        proof {
                            assert forall|x: u32|
                                (forall|j: int|
                                    0 <= j < i + 1 && settled(m, preds@[j])
                                        ==> #[trigger] g.dominates(
                                        x,
                                        preds@[j],
                                    )) implies #[trigger] g.dominates(x, r) by {
                                assert(g.dominates(x, preds@[i as int]));
                                assert(g.dominates(x, a));
                            }
                            assert forall|k: nat, j: int| #[trigger]
                                holds_within(g, m, k) && 0 <= j < i + 1 && settled(
                                    m,
                                    #[trigger] preds@[j],
                                ) implies g.dominates_within(r, preds@[j], k) by {
                                if j < i {
                                    assert(g.dominates_within(a, preds@[j], k));
                                    assert(g.dominates_within(r, a, k));
                                    g.lemma_dominates_within_trans(r, a, preds@[j], k);
                                }
                            }
                        }
                    },
                }
            },
            None => {},
        }
        i = i + 1;
    }
    proof {
        assert forall|q: u32| #[trigger] g.edge(q, b) implies exists|j: int|
            0 <= j < n && preds@[j] == q by {
            assert(cfg.pred_list(b).contains(q));
        }
        assert forall|j: int| 0 <= j < n implies g.edge(#[trigger] preds@[j], b) by {
            assert(cfg.pred_list(b).contains(preds@[j]));
        }
    }
    acc
}

/// `r` lies no later than any predecessor of `b` with a parent, keeps their common dominators, and
/// lies on the short paths to them.
spec fn meets(
    g: Graph,
    idx: Map<u32, usize>,
    m: Map<u32, Option<u32>>,
    b: u32,
    r: u32,
) -> bool {
    &&& forall|q: u32| #[trigger] g.edge(q, b) && settled(m, q) ==> idx[r] <= idx[q]
    &&& forall|x: u32|
        (forall|q: u32| #[trigger] g.edge(q, b) && settled(m, q) ==> g.dominates(x, q))
            ==> #[trigger] g.dominates(x, r)
    &&& forall|k: nat, q: u32| #[trigger]
        holds_within(g, m, k) && #[trigger] g.edge(q, b) && settled(m, q) ==> g.dominates_within(
            r,
            q,
            k,
        )
}

/// What lies on all paths of `k` steps to the predecessors lies on all paths of `k + 1` steps.
proof fn lemma_one_more(g: Graph, b: u32, r: u32, k: nat)
    requires
        b != g.entry,
        forall|q: u32| #[trigger]
            g.edge(q, b) && g.reachable(q) && (k == 0 ==> q == g.entry) ==> g.dominates_within(
                r,
                q,
                k,
            ),
    ensures
        g.dominates_within(r, b, k + 1),
{
    assert forall|p: Seq<u32>| #[trigger]
        g.path_to(p, b) && p.len() <= k + 1 + 1 implies p.contains(r) by {
        assert(p.len() > 1);
        g.lemma_path_last(p, b);
        let q = p[p.len() - 2];
        let w = p.drop_last();
        assert(g.reachable(q));
        assert(w.contains(r));
        let i = choose|i: int| 0 <= i < w.len() && w[i] == r;
        assert(p[i] == r);
    }
}

/// Giving `b` the parent `r` keeps what holds of the parents.
proof fn lemma_adopt(
    g: Graph,
    order: Seq<u32>,
    idx: Map<u32, usize>,
    m: Map<u32, Option<u32>>,
    b: u32,
    r: u32,
    k: nat,
)
    requires
        tentative(g, order, idx, m),
        order.contains(b),
        b != g.entry,
        settled(m, r),
        idx[r] < idx[b],
        meets(g, idx, m, b, r),
        holds_within(g, m, k),
        k > 0 ==> forall|c: u32| #[trigger] order.contains(c) ==> settled(m, c),
    ensures
        tentative(g, order, idx, m.insert(b, Some(r))),
        g.dominates_within(r, b, k + 1),
        holds_within(g, m.insert(b, Some(r)), k),
        keeps_dominators(g, r, b),
{
    let m2 = m.insert(b, Some(r));
    assert(keeps_dominators(g, r, b)) by {
        assert forall|x: u32| #[trigger] g.strictly_dominates(x, b) implies g.dominates(x, r) by {
            assert forall|q: u32| #[trigger]
                g.edge(q, b) && settled(m, q) implies g.dominates(x, q) by {
                g.lemma_dominates_pred(x, q, b);
            }
        }
    }
    assert forall|q: u32| #[trigger]
        g.edge(q, b) && g.reachable(q) && (k == 0 ==> q == g.entry) implies g.dominates_within(
        r,
        q,
        k,
    ) by {
        assert(order.contains(q));
        assert(settled(m, q));
    }
    lemma_one_more(g, b, r, k);
    assert forall|c: u32| #[trigger] parented(g, m2, c) implies settled(m2, parent(m2, c))
        && idx[parent(m2, c)] < idx[c] && keeps_dominators(g, parent(m2, c), c) by {
        if c != b {
            assert(parented(g, m, c));
        }
    }
    assert forall|c: u32| #[trigger] parented(g, m2, c) implies g.dominates_within(
        parent(m2, c),
        c,
        k,
    ) by {
        if c != b {
            assert(parented(g, m, c));
        } else {
            assert(g.dominates_within(r, b, k + 1));
        }
    }
}

/// Two immediate dominators of one reachable node are the same.
pub proof fn lemma_immediate_dominator_unique(g: Graph, order: Seq<u32>, a1: u32, a2: u32, b: u32)
    requires
        g.is_order(order),
        g.reachable(b),
        g.immediately_dominates(a1, b),
        g.immediately_dominates(a2, b),
    ensures
        a1 == a2,
{
    assert(order.contains(b));
    lemma_dominator_reachable(g, a1, b);
    lemma_dominator_reachable(g, a2, b);
    assert(order.contains(a1) && order.contains(a2));
    let i1 = choose|i: int| 0 <= i < order.len() && order[i] == a1;
    let i2 = choose|i: int| 0 <= i < order.len() && order[i] == a2;
    assert(g.dominates(a1, a2));
    assert(g.dominates(a2, a1));
    g.lemma_dominator_earlier(order, i1, i2);
    g.lemma_dominator_earlier(order, i2, i1);
}

/// A dominator of a reachable node can itself be reached.
pub proof fn lemma_dominator_reachable(g: Graph, a: u32, b: u32)
    requires
        g.reachable(b),
        g.dominates(a, b),
    ensures
        g.reachable(a),
{
    let p = choose|p: Seq<u32>| g.path_to(p, b);
    assert(p.contains(a));
    let i = choose|i: int| 0 <= i < p.len() && p[i] == a;
    g.lemma_path_prefix(p, b, i);
}

/// A parent that lies on all paths of as many steps as there are nodes is the immediate dominator.
proof fn lemma_long_enough(
    g: Graph,
    order: Seq<u32>,
    idx: Map<u32, usize>,
    b: u32,
    r: u32,
    k: nat,
)
    requires
        g.is_order(order),
        indexes(order, idx),
        idx.contains_key(b),
        idx.contains_key(r),
        idx[r] < idx[b],
        g.dominates_within(r, b, k),
        k >= order.len(),
        keeps_dominators(g, r, b),
    ensures
        g.immediately_dominates(r, b),
{
    assert(g.dominates_within(r, b, order.len()));
    g.lemma_within_all(order, r, b);
    assert(g.strictly_dominates(r, b));
}

/// Parents that a further pass does not change lie on all paths.
proof fn lemma_stable(g: Graph, m: Map<u32, Option<u32>>, k: nat)
    requires
        forall|j: nat| #[trigger] holds_within(g, m, j) ==> holds_within(g, m, j + 1),
    ensures
        holds_within(g, m, k),
    decreases k,
{
    if k == 0 {
        assert forall|c: u32| #[trigger] parented(g, m, c) implies g.dominates_within(
            parent(m, c),
            c,
            0,
        ) by {
            assert forall|p: Seq<u32>| #[trigger]
                g.path_to(p, c) && p.len() <= 1 implies p.contains(parent(m, c)) by {
                assert(p[0] == g.entry && p.last() == c);
            }
        }
    } else {
        lemma_stable(g, m, (k - 1) as nat);
        assert(holds_within(g, m, ((k - 1) as nat) + 1));
    }
}

impl DomTree {
    /// This is the dominator tree of `cfg`: `rpo` is the reverse post-order of the depth-first
    /// search, `rpo_idx` gives the positions in it, the entry has no immediate dominator, and every
    /// other node that can be reached has one. No other node occurs.
    pub open spec fn describes(self, cfg: Cfg) -> bool {
        &&& self.rpo@ == cfg.reverse_postorder()
        &&& indexes(self.rpo@, self.rpo_idx@)
        &&& forall|b: u32| #[trigger] self.idom@.contains_key(b) <==> self.rpo@.contains(b)
        &&& self.idom@[cfg.entry] is None
        &&& forall|b: u32| #[trigger]
            self.rpo@.contains(b) && b != cfg.entry ==> self.idom@[b] is Some
                && cfg.graph().immediately_dominates(self.idom@[b]->0, b)
    }

    pub fn compute(cfg: &Cfg) -> (tree: Self)
        requires
            cfg.wf(),
        ensures
            tree.describes(*cfg),
            tree.wf(),
    {
        let ghost g = cfg.graph();
        let rpo = cfg.depth_first();
        let ghost order = rpo@;
        proof {
            cfg.lemma_reverse_postorder();
        }
        let n = rpo.len();

        let mut rpo_idx: HashMap<u32, usize> = HashMap::new();
        let mut idom: HashMap<u32, Option<u32>> = HashMap::new();
        let mut i: usize = 0;
        while i < n
            invariant
                i <= n,
                n == rpo@.len(),
                rpo@.no_duplicates(),
                indexes(rpo@.take(i as int), rpo_idx@),
                forall|b: u32| #[trigger]
                    idom@.contains_key(b) <==> rpo@.take(i as int).contains(b),
                forall|b: u32| #[trigger] idom@.contains_key(b) ==> idom@[b] is None,
            decreases n - i,
        {
            let id = rpo[i];
            let ghost part = rpo@.take(i as int);
            let ghost next = rpo@.take(i + 1);
            let ghost idx_before = rpo_idx@;
            rpo_idx.insert(id, i);
            idom.insert(id, None);
            proof {
                assert(next =~= part.push(id));
                assert(!part.contains(id)) by {
                    if part.contains(id) {
                        let j = choose|j: int| 0 <= j < part.len() && part[j] == id;
                        assert(rpo@[j] == rpo@[i as int]);
                    }
                }
                assert forall|b: u32| #[trigger] next.contains(b) <==> part.contains(b) || b
                    == id by {
                    if part.contains(b) {
                        let j = choose|j: int| 0 <= j < part.len() && part[j] == b;
                        assert(next[j] == b);
                    }
                    assert(next[i as int] == id);
                }
                assert forall|j: int| 0 <= j < next.len() implies rpo_idx@[#[trigger] next[j]]
                    == j by {
                    if j < i {
                        assert(part[j] == next[j]);
                        assert(part.contains(part[j]));
                    }
                }
                assert forall|b: u32| #[trigger] rpo_idx@.contains_key(b) implies rpo_idx@[b]
                    < next.len() && next[rpo_idx@[b] as int] == b by {
                    if b != id {
                        assert(idx_before.contains_key(b));
                    }
                }
            }
            i = i + 1;
        }
        assert(rpo@.take(n as int) =~= rpo@);
        assert(order[0] == g.entry);
        assert(order.contains(g.entry));
        idom.insert(cfg.entry, Some(cfg.entry));

        let ghost idx = rpo_idx@;
        assert(tentative(g, order, idx, idom@));
        assert(holds_within(g, idom@, 0)) by {
            assert forall|c: u32| !parented(g, idom@, c) by {}
        }

        let mut changed = true;
        let ghost mut k: nat = 0;
        while changed
            invariant
                g == cfg.graph(),
                cfg.wf(),
                order == rpo@,
                n == rpo@.len(),
                idx == rpo_idx@,
                tentative(g, order, idx, idom@),
                holds_within(g, idom@, k),
                k > 0 ==> forall|c: u32| #[trigger] order.contains(c) ==> settled(idom@, c),
                k == 0 ==> forall|j: int|
                    1 <= j < order.len() ==> !settled(idom@, #[trigger] order[j]),
                changed ==> k <= order.len(),
                changed || k > 0,
                !changed ==> forall|j: nat| #[trigger]
                    holds_within(g, idom@, j) ==> holds_within(g, idom@, j + 1),
            decreases order.len() + 1 - k,
        {
            changed = false;
            let mut i: usize = 1;
            while i < n
                invariant
                    1 <= i,
                    i <= n,
                    g == cfg.graph(),
                    cfg.wf(),
                    order == rpo@,
                    n == rpo@.len(),
                    idx == rpo_idx@,
                    tentative(g, order, idx, idom@),
                    holds_within(g, idom@, k),
                    k > 0 ==> forall|c: u32| #[trigger] order.contains(c) ==> settled(idom@, c),
                    forall|j: int| 0 <= j < i ==> settled(idom@, #[trigger] order[j]),
                    k == 0 ==> forall|j: int|
                        i <= j < order.len() ==> !settled(idom@, #[trigger] order[j]),
                    forall|j: int|
                        1 <= j < i ==> g.dominates_within(
                            parent(idom@, #[trigger] order[j]),
                            order[j],
                            k + 1,
                        ),
                    changed ==> k < order.len(),
                    !changed ==> forall|j: int, t: nat|
                        1 <= j < i && #[trigger] holds_within(g, idom@, t) ==> g.dominates_within(
                            parent(idom@, #[trigger] order[j]),
                            order[j],
                            t + 1,
                        ),
                decreases n - i,
            {
                let b = rpo[i];
                let ghost m = idom@;
                proof {
                    assert(order.contains(b));
                    assert(idx[order[i as int]] == i && idx[order[0]] == 0);
                    assert(b != g.entry);
                    assert(g.has_earlier_pred(order, i as int));
                    let j = choose|j: int|
                        0 <= j < i && g.edge(#[trigger] order[j], order[i as int]);
                    assert(settled(m, order[j]));
                    assert(idx[order[j]] == j);
                }
                match meet_preds(cfg, b, &idom, &rpo_idx, Ghost(order)) {
                    None => {},
                    Some(r) => {
                        proof {
                            assert(idx[r] < idx[b]);
                            assert(order.contains(r) && idx.contains_key(r) && idx.contains_key(
                                b,
                            ));
                            lemma_adopt(g, order, idx, m, b, r, k);
                        }
                        let same = match parent_of(&idom, b) {
                            Some(p) => p == r,
                            None => false,
                        };
                        if !same {
                            idom.insert(b, Some(r));
                            changed = true;
                            proof {
                                if k >= order.len() {
                                    assert(settled(m, b));
                                    assert(parented(g, m, b));
                                    let p = parent(m, b);
                                    assert(settled(m, p));
                                    assert(order.contains(p));
                                    assert(idx.contains_key(p));
                                    lemma_long_enough(g, order, idx, b, r, k + 1);
                                    lemma_long_enough(g, order, idx, b, p, k);
                                    assert(g.reachable(b));
                                    lemma_immediate_dominator_unique(g, order, r, p, b);
                                    assert(false);
                                }
                                assert forall|j: int| 1 <= j < i + 1 implies g.dominates_within(
                                    parent(idom@, #[trigger] order[j]),
                                    order[j],
                                    k + 1,
                                ) by {
                                    if j < i {
                                        assert(order[j] != b);
                                    }
                                }
                                assert forall|j: int| i + 1 <= j < order.len() && k
                                    == 0 implies !settled(idom@, #[trigger] order[j]) by {
                                    assert(order[j] != b);
                                }
                            }
                        } else {
                            proof {
                                assert(m[b] == Some(r));
                                assert(settled(m, order[i as int]));
                                assert(k > 0);
                                assert(m.insert(b, Some(r)) =~= m);
                                assert forall|j: int, t: nat|
                                    1 <= j < i + 1 && #[trigger] holds_within(
                                        g,
                                        m,
                                        t,
                                    ) && !changed implies g.dominates_within(
                                    parent(m, #[trigger] order[j]),
                                    order[j],
                                    t + 1,
                                ) by {
                                    if j == i {
                                        lemma_adopt(g, order, idx, m, b, r, t);
                                    }
                                }
                            }
                        }
                    },
                }
                i = i + 1;
            }
            proof {
                assert forall|c: u32| #[trigger] order.contains(c) implies settled(
                    idom@,
                    c,
                ) by {
                    let j = choose|j: int| 0 <= j < order.len() && order[j] == c;
                    assert(settled(idom@, order[j]));
                }
                assert forall|c: u32| #[trigger] parented(g, idom@, c) implies g.dominates_within(
                    parent(idom@, c),
                    c,
                    k + 1,
                ) by {
                    assert(order.contains(c));
                    let j = choose|j: int| 0 <= j < order.len() && order[j] == c;
                    assert(j != 0);
                    assert(g.dominates_within(parent(idom@, order[j]), order[j], k + 1));
                }
                if !changed {
                    assert forall|t: nat| #[trigger] holds_within(
                        g,
                        idom@,
                        t,
                    ) implies holds_within(g, idom@, t + 1) by {
                        assert forall|c: u32| #[trigger] parented(
                            g,
                            idom@,
                            c,
                        ) implies g.dominates_within(parent(idom@, c), c, t + 1) by {
                            assert(order.contains(c));
                            let j = choose|j: int| 0 <= j < order.len() && order[j] == c;
                            assert(j != 0);
                            assert(g.dominates_within(parent(idom@, order[j]), order[j], t + 1));
                        }
                    }
                }
                k = k + 1;
            }
        }
        let ghost m = idom@;
        idom.insert(cfg.entry, None);
        let tree = Self { idom, rpo, rpo_idx };
        proof {
            lemma_stable(g, m, order.len());
            assert forall|b: u32| #[trigger] order.contains(b) && b != cfg.entry
                implies idom@[b] is Some && g.immediately_dominates(idom@[b]->0, b) by {
                assert(settled(m, b));
                assert(parented(g, m, b));
                let p = parent(m, b);
                assert(order.contains(p));
                assert(idx.contains_key(p) && idx.contains_key(b));
                lemma_long_enough(g, order, idx, b, p, order.len());
            }
            tree.lemma_describes_wf(*cfg);
        }
        tree
    }

    /// An immediate dominator is the node itself or has an earlier position.
    pub open spec fn wf(self) -> bool {
        forall|b: u32| #[trigger]
            self.idom@.contains_key(b) ==> (self.idom@[b] matches Some(p) ==> p == b || (
            self.rpo_idx@.contains_key(p) && self.rpo_idx@.contains_key(b) && self.rpo_idx@[p]
                < self.rpo_idx@[b]))
    }

    pub proof fn lemma_describes_wf(self, cfg: Cfg)
        requires
            self.describes(cfg),
        ensures
            self.wf(),
    {
        let g = cfg.graph();
        let order = self.rpo@;
        cfg.lemma_reverse_postorder();
        assert forall|b: u32| #[trigger] self.idom@.contains_key(b) implies (
        self.idom@[b] matches Some(p) ==> p == b || (self.rpo_idx@.contains_key(p)
            && self.rpo_idx@.contains_key(b) && self.rpo_idx@[p] < self.rpo_idx@[b])) by {
            assert(order.contains(b));
            assert(self.rpo_idx@.contains_key(b));
            if b != cfg.entry {
                let p = self.idom@[b]->0;
                lemma_dominator_reachable(g, p, b);
                assert(order.contains(p));
                assert(self.rpo_idx@.contains_key(p));
                g.lemma_dominator_earlier(
                    order,
                    self.rpo_idx@[p] as int,
                    self.rpo_idx@[b] as int,
                );
            }
        }
    }

    /// The `i`-th step of `chain` goes to the immediate dominator.
    pub open spec fn climbs_at(self, chain: Seq<u32>, i: int) -> bool {
        self.idom@.contains_key(chain[i]) && self.idom@[chain[i]] == Some(chain[i + 1])
    }

    /// `chain` leads from `b` to `a` by way of immediate dominators.
    pub open spec fn climbs(self, chain: Seq<u32>, a: u32, b: u32) -> bool {
        &&& chain.len() > 0
        &&& chain[0] == b
        &&& chain.last() == a
        &&& forall|i: int| 0 <= i < chain.len() - 1 ==> #[trigger] self.climbs_at(chain, i)
    }

    /// `a` is `b`, its immediate dominator, the immediate dominator of that, and so on.
    pub open spec fn is_above(self, a: u32, b: u32) -> bool {
        exists|chain: Seq<u32>| self.climbs(chain, a, b)
    }

    proof fn lemma_above_self(self, b: u32)
        ensures
            self.is_above(b, b),
    {
        assert(self.climbs(seq![b], b, b));
    }

    proof fn lemma_above_step(self, a: u32, p: u32, b: u32)
        requires
            self.idom@.contains_key(b),
            self.idom@[b] == Some(p),
        ensures
            self.is_above(a, p) ==> self.is_above(a, b),
            self.is_above(a, b) && a != b ==> self.is_above(a, p),
    {
        if self.is_above(a, p) {
            let chain = choose|chain: Seq<u32>| self.climbs(chain, a, p);
            let longer = seq![b] + chain;
            assert forall|i: int| 0 <= i < longer.len() - 1 implies #[trigger] self.climbs_at(
                longer,
                i,
            ) by {
                if i > 0 {
                    assert(self.climbs_at(chain, i - 1));
                }
            }
            assert(longer.last() == a);
            assert(self.climbs(longer, a, b));
        }
        if self.is_above(a, b) && a != b {
            let chain = choose|chain: Seq<u32>| self.climbs(chain, a, b);
            let shorter = chain.skip(1);
            assert(self.climbs_at(chain, 0));
            assert forall|i: int| 0 <= i < shorter.len() - 1 implies #[trigger] self.climbs_at(
                shorter,
                i,
            ) by {
                assert(self.climbs_at(chain, i + 1));
            }
            assert(self.climbs(shorter, a, p));
        }
    }

    proof fn lemma_above_top(self, a: u32, b: u32)
        requires
            !self.idom@.contains_key(b) || self.idom@[b] is None || self.idom@[b] == Some(b),
            self.is_above(a, b),
        ensures
            a == b,
    {
        let chain = choose|chain: Seq<u32>| self.climbs(chain, a, b);
        self.lemma_chain_top(chain, a, b);
    }

    proof fn lemma_chain_top(self, chain: Seq<u32>, a: u32, b: u32)
        requires
            !self.idom@.contains_key(b) || self.idom@[b] is None || self.idom@[b] == Some(b),
            self.climbs(chain, a, b),
        ensures
            a == b,
        decreases chain.len(),
    {
        if chain.len() > 1 {
            assert(self.climbs_at(chain, 0));
            let shorter = chain.skip(1);
            assert forall|i: int| 0 <= i < shorter.len() - 1 implies #[trigger] self.climbs_at(
                shorter,
                i,
            ) by {
                assert(self.climbs_at(chain, i + 1));
            }
            self.lemma_chain_top(shorter, a, b);
        }
    }

    /// Does `a` dominate `b`?
    pub fn dominates(&self, a: u32, b: u32) -> (above: bool)
        requires
            self.wf(),
        ensures
            above == self.is_above(a, b),
    {
        proof {
            self.lemma_above_self(b);
        }
        if a == b {
            return true;
        }
        let mut cur = b;
        loop
            invariant
                self.wf(),
                a != cur,
                self.is_above(a, cur) == self.is_above(a, b),
            decreases (if self.rpo_idx@.contains_key(cur) {
                self.rpo_idx@[cur] + 1
            } else {
                0
            }),
        {
            match parent_of(&self.idom, cur) {
                None => {
                    proof {
                        if self.is_above(a, cur) {
                            self.lemma_above_top(a, cur);
                        }
                    }
                    return false;
                },
                Some(p) => {
                    proof {
                        self.lemma_above_step(a, p, cur);
                    }
                    if p == a {
                        proof {
                            self.lemma_above_self(a);
                        }
                        return true;
                    }
                    if p == cur {
                        proof {
                            if self.is_above(a, cur) {
                                self.lemma_above_top(a, cur);
                            }
                        }
                        return false;
                    }
                    cur = p;
                },
            }
        }
    }

    /// The blocks whose immediate dominator is `id`, other than `id` itself; their order is open.
    pub fn children(&self, id: u32) -> (blocks: Vec<u32>)
        ensures
            blocks@.no_duplicates(),
            forall|b: u32| #[trigger]
                blocks@.contains(b) <==> self.idom@.contains_key(b) && self.idom@[b] == Some(id)
                    && b != id,
    {
        let keys = keys_of(&self.idom);
        let n = keys.len();
        let mut blocks: Vec<u32> = Vec::new();
        let mut i: usize = 0;
        while i < n
            invariant
                i <= n,
                n == keys@.len(),
                keys@.no_duplicates(),
                blocks@.no_duplicates(),
                forall|b: u32| #[trigger]
                    blocks@.contains(b) <==> keys@.take(i as int).contains(b)
                        && self.idom@.contains_key(b) && self.idom@[b] == Some(id) && b != id,
            decreases n - i,
        {
            let b = keys[i];
            let ghost part = keys@.take(i as int);
            let ghost before = blocks@;
            proof {
                assert(keys@.take(i + 1) =~= part.push(b));
                assert(!part.contains(b)) by {
                    if part.contains(b) {
                        let j = choose|j: int| 0 <= j < part.len() && part[j] == b;
                        assert(keys@[j] == keys@[i as int]);
                    }
                }
                lemma_push_contains(part, b);
            }
            if let Some(d) = parent_of(&self.idom, b) {
                if d == id && b != id {
                    assert(!before.contains(b));
                    blocks.push(b);
                    proof {
                        lemma_push_contains(before, b);
                    }
                }
            }
            i = i + 1;
        }
        assert(keys@.take(n as int) =~= keys@);
        blocks
    }

    /// In the dominator tree of a flow graph the nodes above a reachable node are exactly its
    /// dominators; a node that cannot be reached has only itself above it.
    pub proof fn lemma_above_is_dominance(self, cfg: Cfg, a: u32, b: u32)
        requires
            self.describes(cfg),
        ensures
            cfg.graph().reachable(b) ==> (self.is_above(a, b) <==> cfg.graph().dominates(a, b)),
            !cfg.graph().reachable(b) ==> (self.is_above(a, b) <==> a == b),
    {
        cfg.lemma_reverse_postorder();
        if cfg.graph().reachable(b) {
            assert(self.rpo@.contains(b));
            self.lemma_above_reachable(cfg, a, b);
        } else {
            assert(!self.rpo@.contains(b));
            self.lemma_above_self(b);
            if self.is_above(a, b) {
                self.lemma_above_top(a, b);
            }
        }
    }

    proof fn lemma_above_reachable(self, cfg: Cfg, a: u32, b: u32)
        requires
            self.describes(cfg),
            cfg.graph().is_order(self.rpo@),
            self.rpo@.contains(b),
        ensures
            self.is_above(a, b) <==> cfg.graph().dominates(a, b),
        decreases self.rpo_idx@[b],
    {
        let g = cfg.graph();
        assert(self.idom@.contains_key(b));
        if a == b {
            self.lemma_above_self(b);
            g.lemma_dominates_refl(b);
        } else if b == cfg.entry {
            if self.is_above(a, b) {
                self.lemma_above_top(a, b);
            }
            if g.dominates(a, b) {
                g.lemma_path_entry();
                assert(seq![g.entry].contains(a));
            }
        } else {
            let p = self.idom@[b]->0;
            self.lemma_describes_wf(cfg);
            assert(g.immediately_dominates(p, b));
            lemma_dominator_reachable(g, p, b);
            assert(self.rpo@.contains(p));
            self.lemma_above_reachable(cfg, a, p);
            self.lemma_above_step(a, p, b);
            if g.dominates(a, b) {
                assert(g.strictly_dominates(a, b));
            }
            if g.dominates(a, p) {
                g.lemma_dominates_trans(a, p, b);
            }
        }
    }

    /// Of two nodes above a third, one is above the other.
    pub proof fn lemma_above_is_chain(self, a1: u32, a2: u32, b: u32)
        requires
            self.is_above(a1, b),
            self.is_above(a2, b),
        ensures
            self.is_above(a1, a2) || self.is_above(a2, a1),
    {
        let c1 = choose|chain: Seq<u32>| self.climbs(chain, a1, b);
        let c2 = choose|chain: Seq<u32>| self.climbs(chain, a2, b);
        self.lemma_chains_compare(c1, c2, a1, a2, b);
    }

    proof fn lemma_chains_compare(self, c1: Seq<u32>, c2: Seq<u32>, a1: u32, a2: u32, b: u32)
        requires
            self.climbs(c1, a1, b),
            self.climbs(c2, a2, b),
        ensures
            self.is_above(a1, a2) || self.is_above(a2, a1),
        decreases c1.len(),
    {
        if c1.len() == 1 {
            assert(self.is_above(a2, a1));
        } else if c2.len() == 1 {
            assert(self.is_above(a1, a2));
        } else {
            assert(self.climbs_at(c1, 0));
            assert(self.climbs_at(c2, 0));
            let d1 = c1.skip(1);
            let d2 = c2.skip(1);
            assert forall|i: int| 0 <= i < d1.len() - 1 implies #[trigger] self.climbs_at(
                d1,
                i,
            ) by {
                assert(self.climbs_at(c1, i + 1));
            }
            assert forall|i: int| 0 <= i < d2.len() - 1 implies #[trigger] self.climbs_at(
                d2,
                i,
            ) by {
                assert(self.climbs_at(c2, i + 1));
            }
            self.lemma_chains_compare(d1, d2, a1, a2, c1[1]);
        }
    }
}

} // verus!

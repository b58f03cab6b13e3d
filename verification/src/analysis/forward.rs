//! In the reverse post-order an edge goes forward, unless its target leads back to its source.
use vstd::prelude::*;

use super::cfg::Cfg;
use super::graph::{lemma_reaches_self, lemma_reaches_step, reaches, Graph};
use super::order::{lemma_unseen, search_inv, unseen};
use crate::finite::{lemma_outside32, outside32};

verus! {

/// The node at position `i` of the stack leads to the one at position `j`.
spec fn above(g: Graph, stack: Seq<(u32, bool)>, i: int, j: int) -> bool {
    reaches(g, stack[i].0, stack[j].0)
}

/// `v` waits on the stack above position `i`.
spec fn waits_above(stack: Seq<(u32, bool)>, i: int, v: u32) -> bool {
    exists|j: int| i < j < stack.len() && #[trigger] stack[j] == (v, false)
}

/// The successor `v` of the node at position `i` was left before it, or leads back to it.
spec fn settled(g: Graph, out: Seq<u32>, i: int, v: u32) -> bool {
    reaches(g, v, out[i]) || exists|j: int| 0 <= j < i && #[trigger] out[j] == v
}

/// What holds besides at every point of the search.
spec fn ordered(
    g: Graph,
    stack: Seq<(u32, bool)>,
    visited: Set<u32>,
    out: Seq<u32>,
) -> bool {
    &&& forall|i: int, j: int|
        0 <= i < j < stack.len() && stack[i].1 ==> #[trigger] above(g, stack, i, j)
    &&& forall|i: int, v: u32|
        0 <= i < stack.len() && (#[trigger] stack[i]).1 && #[trigger] g.edge(stack[i].0, v)
            ==> visited.contains(v) || waits_above(stack, i, v)
    &&& forall|i: int, v: u32|
        0 <= i < out.len() && #[trigger] g.edge(out[i], v) ==> settled(g, out, i, v)
}

proof fn lemma_leave(g: Graph, stack: Seq<(u32, bool)>, visited: Set<u32>, out: Seq<u32>)
    requires
        search_inv(g, stack, visited, out),
        ordered(g, stack, visited, out),
        stack.len() > 0,
        stack.last().1,
    ensures
        ordered(g, stack.drop_last(), visited, out.push(stack.last().0)),
{
    let id = stack.last().0;
    let n = stack.len() - 1;
    let rest = stack.drop_last();
    let out2 = out.push(id);
    assert forall|i: int, j: int| 0 <= i < j < rest.len() && rest[i].1 implies #[trigger] above(
        g,
        rest,
        i,
        j,
    ) by {
        assert(above(g, stack, i, j));
    }
    assert forall|i: int, v: u32|
        0 <= i < rest.len() && (#[trigger] rest[i]).1 && #[trigger] g.edge(rest[i].0, v)
        implies visited.contains(v) || waits_above(rest, i, v) by {
        assert(stack[i].1 && g.edge(stack[i].0, v));
        if !visited.contains(v) {
            let j = choose|j: int| i < j < stack.len() && #[trigger] stack[j] == (v, false);
            assert(rest[j] == (v, false));
        }
    }
    assert forall|i: int, v: u32|
        0 <= i < out2.len() && #[trigger] g.edge(out2[i], v) implies settled(g, out2, i, v) by {
        if i < out.len() {
            assert(g.edge(out[i], v));
            assert(settled(g, out, i, v));
            if !reaches(g, v, out2[i]) {
                let j = choose|j: int| 0 <= j < i && #[trigger] out[j] == v;
                assert(out2[j] == v);
            }
        } else {
            assert(stack[n].1 && g.edge(stack[n].0, v));
            assert(visited.contains(v));
            if out.contains(v) {
                let j = choose|j: int| 0 <= j < out.len() && out[j] == v;
                assert(out2[j] == v);
            } else {
                assert(stack.contains((v, true)));
                let j = choose|j: int| 0 <= j < stack.len() && stack[j] == (v, true);
                if j < n {
                    assert(above(g, stack, j, n));
                } else {
                    lemma_reaches_self(g, id);
                }
            }
        }
    }
}

proof fn lemma_skip(g: Graph, stack: Seq<(u32, bool)>, visited: Set<u32>, out: Seq<u32>)
    requires
        ordered(g, stack, visited, out),
        stack.len() > 0,
        visited.contains(stack.last().0),
    ensures
        ordered(g, stack.drop_last(), visited, out),
{
    let rest = stack.drop_last();
    assert forall|i: int, j: int| 0 <= i < j < rest.len() && rest[i].1 implies #[trigger] above(
        g,
        rest,
        i,
        j,
    ) by {
        assert(above(g, stack, i, j));
    }
    assert forall|i: int, v: u32|
        0 <= i < rest.len() && (#[trigger] rest[i]).1 && #[trigger] g.edge(rest[i].0, v)
        implies visited.contains(v) || waits_above(rest, i, v) by {
        assert(stack[i].1 && g.edge(stack[i].0, v));
        if !visited.contains(v) {
            let j = choose|j: int| i < j < stack.len() && #[trigger] stack[j] == (v, false);
            assert(rest[j] == (v, false));
        }
    }
}

impl Cfg {
    proof fn lemma_enter_ordered(self, stack: Seq<(u32, bool)>, visited: Set<u32>, out: Seq<u32>)
        requires
            ordered(self.graph(), stack, visited, out),
            stack.len() > 0,
            !stack.last().1,
        ensures
            ({
                let id = stack.last().0;
                let seen = visited.insert(id);
                ordered(
                    self.graph(),
                    stack.drop_last().push((id, true)) + unseen(self.succ_list(id), seen),
                    seen,
                    out,
                )
            }),
    {
        let g = self.graph();
        let id = stack.last().0;
        let n = stack.len() - 1;
        let seen = visited.insert(id);
        let fresh = unseen(self.succ_list(id), seen);
        let next = stack.drop_last().push((id, true)) + fresh;
        lemma_unseen(self.succ_list(id), seen);
        assert(forall|i: int| 0 <= i < n ==> next[i] == stack[i]);
        assert(next[n] == (id, true));
        assert(forall|i: int| n < i < next.len() ==> next[i] == fresh[i - n - 1]);
        assert forall|i: int, j: int| 0 <= i < j < next.len() && next[i].1 implies #[trigger] above(
            g,
            next,
            i,
            j,
        ) by {
            if i > n {
                assert(!fresh[i - n - 1].1);
            } else {
                if i < n {
                    assert(above(g, stack, i, if j < n {
                        j
                    } else {
                        n
                    }));
                } else {
                    lemma_reaches_self(g, id);
                }
                if j > n {
                    let s = fresh[j - n - 1].0;
                    assert(self.succ_list(id).contains(s));
                    lemma_reaches_step(g, next[i].0, id, s);
                }
            }
        }
        assert forall|i: int, v: u32|
            0 <= i < next.len() && (#[trigger] next[i]).1 && #[trigger] g.edge(next[i].0, v)
            implies seen.contains(v) || waits_above(next, i, v) by {
            if i > n {
                assert(!fresh[i - n - 1].1);
            } else if i == n {
                assert(self.succ_list(id).contains(v));
                if !seen.contains(v) {
                    let j = choose|j: int| 0 <= j < fresh.len() && fresh[j] == (v, false);
                    assert(next[j + n + 1] == (v, false));
                }
            } else {
                assert(stack[i].1 && g.edge(stack[i].0, v));
                if !seen.contains(v) {
                    let j = choose|j: int| i < j < stack.len() && #[trigger] stack[j] == (v, false);
                    assert(next[j] == (v, false));
                }
            }
        }
    }

    proof fn lemma_search_ordered(self, stack: Seq<(u32, bool)>, visited: Set<u32>, out: Seq<u32>)
        requires
            search_inv(self.graph(), stack, visited, out),
            ordered(self.graph(), stack, visited, out),
        ensures
            ({
                let whole = out + self.finish_order(stack, visited);
                forall|i: int, v: u32|
                    0 <= i < whole.len() && #[trigger] self.graph().edge(whole[i], v) ==> settled(
                        self.graph(),
                        whole,
                        i,
                        v,
                    )
            }),
        decreases outside32(visited), stack.len(),
    {
        let whole = out + self.finish_order(stack, visited);
        if stack.len() == 0 {
            assert(whole =~= out);
        } else {
            let (id, done) = stack.last();
            let rest = stack.drop_last();
            if done {
                self.lemma_leave(stack, visited, out);
                lemma_leave(self.graph(), stack, visited, out);
                assert(whole =~= out.push(id) + self.finish_order(rest, visited));
                self.lemma_search_ordered(rest, visited, out.push(id));
            } else if visited.contains(id) {
                self.lemma_skip(stack, visited, out);
                lemma_skip(self.graph(), stack, visited, out);
                assert(whole == out + self.finish_order(rest, visited));
                self.lemma_search_ordered(rest, visited, out);
            } else {
                let seen = visited.insert(id);
                lemma_outside32(visited, id);
                self.lemma_enter(stack, visited, out);
                self.lemma_enter_ordered(stack, visited, out);
                let next = rest.push((id, true)) + unseen(self.succ_list(id), seen);
                assert(whole == out + self.finish_order(next, seen));
                self.lemma_search_ordered(next, seen, out);
            }
        }
    }

    /// In the reverse post-order every edge goes from an earlier block to a later one, unless its
    /// target leads back to its source.
    pub proof fn lemma_edges_go_forward(self, i: int, j: int)
        requires
            0 <= i < self.reverse_postorder().len(),
            0 <= j < self.reverse_postorder().len(),
            self.graph().edge(self.reverse_postorder()[i], self.reverse_postorder()[j]),
        ensures
            i < j || reaches(
                self.graph(),
                self.reverse_postorder()[j],
                self.reverse_postorder()[i],
            ),
    {
        let g = self.graph();
        let stack = seq![(self.entry, false)];
        g.lemma_path_entry();
        assert(search_inv(g, stack, Set::empty(), Seq::empty()));
        assert(ordered(g, stack, Set::empty(), Seq::empty()));
        self.lemma_search_ordered(stack, Set::empty(), Seq::empty());
        let out = self.finish_order(stack, Set::empty());
        assert(Seq::<u32>::empty() + out =~= out);
        let order = self.reverse_postorder();
        let n = out.len() as int;
        self.lemma_reverse_postorder();
        assert(order[i] == out[n - 1 - i] && order[j] == out[n - 1 - j]);
        assert(g.edge(out[n - 1 - i], out[n - 1 - j]));
        assert(settled(g, out, n - 1 - i, out[n - 1 - j]));
        if !reaches(g, order[j], order[i]) {
            let k = choose|k: int| 0 <= k < n - 1 - i && #[trigger] out[k] == out[n - 1 - j];
            assert(order[n - 1 - k] == order[j]);
        }
    }
}

} // verus!

//! The reverse post-order of a depth-first search over the flow graph.
use std::collections::HashSet;

use vstd::prelude::*;

use super::cfg::Cfg;
use super::graph::Graph;
use crate::finite::{lemma_outside32, outside32};

verus! {

broadcast use vstd::std_specs::hash::group_hash_axioms;

/// The nodes of a list that have not been seen, in order, as nodes still to be entered.
pub open spec fn unseen(list: Seq<u32>, seen: Set<u32>) -> Seq<(u32, bool)>
    decreases list.len(),
{
    if list.len() == 0 {
        Seq::empty()
    } else if seen.contains(list.last()) {
        unseen(list.drop_last(), seen)
    } else {
        unseen(list.drop_last(), seen).push((list.last(), false))
    }
}

pub(crate) proof fn lemma_unseen(list: Seq<u32>, seen: Set<u32>)
    ensures
        forall|i: int|
            0 <= i < unseen(list, seen).len() ==> !(#[trigger] unseen(list, seen)[i]).1
                && !seen.contains(unseen(list, seen)[i].0) && list.contains(
                unseen(list, seen)[i].0,
            ),
        forall|s: u32| #[trigger]
            list.contains(s) && !seen.contains(s) ==> unseen(list, seen).contains((s, false)),
    decreases list.len(),
{
    if list.len() > 0 {
        let rest = list.drop_last();
        lemma_unseen(rest, seen);
        let u = unseen(list, seen);
        let v = unseen(rest, seen);
        assert forall|i: int| 0 <= i < u.len() implies !(#[trigger] u[i]).1 && !seen.contains(
            u[i].0,
        ) && list.contains(u[i].0) by {
            if i < v.len() {
                assert(v[i] == u[i]);
                let j = choose|j: int| 0 <= j < rest.len() && rest[j] == v[i].0;
                assert(list[j] == u[i].0);
            } else {
                assert(list[list.len() - 1] == u[i].0);
            }
        }
        assert forall|s: u32| #[trigger] list.contains(s) && !seen.contains(s) implies u.contains(
            (s, false),
        ) by {
            let j = choose|j: int| 0 <= j < list.len() && list[j] == s;
            if j < rest.len() {
                assert(rest[j] == s);
                assert(rest.contains(s));
                let m = choose|m: int| 0 <= m < v.len() && v[m] == (s, false);
                assert(u[m] == (s, false));
            } else {
                assert(u[v.len() as int] == (s, false));
            }
        }
    }
}

/// What holds at every point of the search: `stack` is still to be worked off, `visited` has been
/// entered, `out` has been left.
pub open spec fn search_inv(
    g: Graph,
    stack: Seq<(u32, bool)>,
    visited: Set<u32>,
    out: Seq<u32>,
) -> bool {
    &&& out.no_duplicates()
    &&& forall|u: u32| #[trigger]
        visited.contains(u) <==> out.contains(u) || stack.contains((u, true))
    &&& forall|u: u32| #[trigger] out.contains(u) ==> !stack.contains((u, true))
    &&& forall|i: int, j: int|
        0 <= i < j < stack.len() && (#[trigger] stack[i]).1 && (#[trigger] stack[j]).1
            ==> stack[i].0 != stack[j].0
    &&& forall|i: int| 0 <= i < stack.len() ==> g.reachable((#[trigger] stack[i]).0)
    &&& forall|u: u32| #[trigger] visited.contains(u) ==> g.reachable(u)
    &&& forall|u: u32, s: u32| #[trigger]
        visited.contains(u) && #[trigger] g.edge(u, s) ==> visited.contains(s) || stack.contains(
            (s, false),
        )
    &&& stack.len() > 0 ==> stack[0].0 == g.entry
    &&& stack.len() > 0 ==> stack[0].1 || stack.len() == 1 && out.len() == 0
    &&& stack.len() == 0 ==> out.len() > 0 && out.last() == g.entry
    &&& forall|i: int| 0 < i < stack.len() ==> #[trigger] waits_for_parent(g, stack, i)
    &&& forall|i: int|
        0 <= i < out.len() && (stack.len() > 0 || i < out.len() - 1)
            ==> #[trigger] left_before_parent(g, stack, out, i)
}

/// Below position `i` of the stack lies a predecessor that has been entered and not left.
pub open spec fn waits_for_parent(g: Graph, stack: Seq<(u32, bool)>, i: int) -> bool {
    exists|j: int| 0 <= j < i && (#[trigger] stack[j]).1 && g.edge(stack[j].0, stack[i].0)
}

/// Some predecessor of the node at position `i` of `out` is left after it.
pub open spec fn left_before_parent(
    g: Graph,
    stack: Seq<(u32, bool)>,
    out: Seq<u32>,
    i: int,
) -> bool {
    ||| exists|j: int| i < j < out.len() && g.edge(#[trigger] out[j], out[i])
    ||| exists|j: int|
        0 <= j < stack.len() && (#[trigger] stack[j]).1 && g.edge(stack[j].0, out[i])
}

impl Cfg {
    /// The order in which a depth-first search leaves nodes. A pair on the stack is a node and
    /// whether its successors have been put on the stack already; the end of the stack comes
    /// first.
    pub open spec fn finish_order(self, stack: Seq<(u32, bool)>, visited: Set<u32>) -> Seq<u32>
        decreases outside32(visited), stack.len(),
    {
        if stack.len() == 0 {
            Seq::empty()
        } else {
            let (id, done) = stack.last();
            let rest = stack.drop_last();
            if done {
                seq![id] + self.finish_order(rest, visited)
            } else if visited.contains(id) {
                self.finish_order(rest, visited)
            } else {
                let seen = visited.insert(id);
                proof {
                    lemma_outside32(visited, id);
                }
                self.finish_order(rest.push((id, true)) + unseen(self.succ_list(id), seen), seen)
            }
        }
    }

    /// The nodes that a depth-first search from the entry meets, last left first. The successors
    /// of a node are entered from the last to the first.
    pub open spec fn reverse_postorder(self) -> Seq<u32> {
        self.finish_order(seq![(self.entry, false)], Set::empty()).reverse()
    }

    pub(crate) proof fn lemma_leave(self, stack: Seq<(u32, bool)>, visited: Set<u32>, out: Seq<u32>)
        requires
            search_inv(self.graph(), stack, visited, out),
            stack.len() > 0,
            stack.last().1,
        ensures
            search_inv(self.graph(), stack.drop_last(), visited, out.push(stack.last().0)),
    {
        let g = self.graph();
        let id = stack.last().0;
        let n = stack.len() - 1;
        let rest = stack.drop_last();
        let out2 = out.push(id);
        assert(stack[n] == (id, true));
        assert(stack.contains((id, true)));
        assert(!out.contains(id));
        assert forall|u: u32| #[trigger] out2.contains(u) <==> out.contains(u) || u == id by {
            if out.contains(u) {
                let i = choose|i: int| 0 <= i < out.len() && out[i] == u;
                assert(out2[i] == u);
            }
            assert(out2[out.len() as int] == id);
        }
        assert forall|u: u32, d: bool|
            stack.contains((u, d)) <==> #[trigger] rest.contains((u, d)) || (u, d) == (
            id,
            true,
        ) by {
            if stack.contains((u, d)) {
                let i = choose|i: int| 0 <= i < stack.len() && stack[i] == (u, d);
                if i < n {
                    assert(rest[i] == (u, d));
                }
            }
            if rest.contains((u, d)) {
                let i = choose|i: int| 0 <= i < rest.len() && rest[i] == (u, d);
                assert(stack[i] == (u, d));
            }
        }
        assert(!rest.contains((id, true))) by {
            if rest.contains((id, true)) {
                let i = choose|i: int| 0 <= i < rest.len() && rest[i] == (id, true);
                assert(stack[i].1 && stack[n].1);
            }
        }
        assert(out2.no_duplicates());
        assert forall|u: u32| #[trigger] out2.contains(u) implies !rest.contains((u, true)) by {
            if u != id {
                assert(out.contains(u));
                assert(!stack.contains((u, true)));
            }
        }
        assert forall|u: u32, s: u32| #[trigger]
            visited.contains(u) && #[trigger] g.edge(u, s) implies visited.contains(s)
            || rest.contains((s, false)) by {}
        assert forall|i: int| 0 < i < rest.len() implies #[trigger] waits_for_parent(
            g,
            rest,
            i,
        ) by {
            assert(waits_for_parent(g, stack, i));
            let j = choose|j: int|
                0 <= j < i && (#[trigger] stack[j]).1 && g.edge(stack[j].0, stack[i].0);
            assert(rest[j].1 && g.edge(rest[j].0, rest[i].0));
        }
        assert forall|i: int|
            0 <= i < out2.len() && (rest.len() > 0 || i < out2.len() - 1)
            implies #[trigger] left_before_parent(g, rest, out2, i) by {
            if i < out.len() {
                assert(left_before_parent(g, stack, out, i));
                if exists|j: int| i < j < out.len() && g.edge(#[trigger] out[j], out[i]) {
                    let j = choose|j: int| i < j < out.len() && g.edge(#[trigger] out[j], out[i]);
                    assert(g.edge(out2[j], out2[i]));
                } else {
                    let j = choose|j: int|
                        0 <= j < stack.len() && (#[trigger] stack[j]).1 && g.edge(
                            stack[j].0,
                            out[i],
                        );
                    if j < n {
                        assert(rest[j].1 && g.edge(rest[j].0, out2[i]));
                    } else {
                        assert(g.edge(out2[out.len() as int], out2[i]));
                    }
                }
            } else {
                assert(waits_for_parent(g, stack, n));
                let j = choose|j: int|
                    0 <= j < n && (#[trigger] stack[j]).1 && g.edge(stack[j].0, stack[n].0);
                assert(rest[j].1 && g.edge(rest[j].0, out2[i]));
            }
        }
    }

    pub(crate) proof fn lemma_skip(self, stack: Seq<(u32, bool)>, visited: Set<u32>, out: Seq<u32>)
        requires
            search_inv(self.graph(), stack, visited, out),
            stack.len() > 0,
            !stack.last().1,
            visited.contains(stack.last().0),
        ensures
            search_inv(self.graph(), stack.drop_last(), visited, out),
    {
        let g = self.graph();
        let id = stack.last().0;
        let n = stack.len() - 1;
        let rest = stack.drop_last();
        assert forall|u: u32, d: bool|
            stack.contains((u, d)) <==> #[trigger] rest.contains((u, d)) || (u, d) == (
            id,
            false,
        ) by {
            if stack.contains((u, d)) {
                let i = choose|i: int| 0 <= i < stack.len() && stack[i] == (u, d);
                if i < n {
                    assert(rest[i] == (u, d));
                }
            }
            if rest.contains((u, d)) {
                let i = choose|i: int| 0 <= i < rest.len() && rest[i] == (u, d);
                assert(stack[i] == (u, d));
            }
            assert(stack[n] == (id, false));
        }
        if n == 0 {
            assert(out.contains(id) || stack.contains((id, true)));
            assert(!out.contains(id));
            let i = choose|i: int| 0 <= i < stack.len() && stack[i] == (id, true);
            assert(false);
        }
        assert forall|i: int| 0 < i < rest.len() implies #[trigger] waits_for_parent(
            g,
            rest,
            i,
        ) by {
            assert(waits_for_parent(g, stack, i));
            let j = choose|j: int|
                0 <= j < i && (#[trigger] stack[j]).1 && g.edge(stack[j].0, stack[i].0);
            assert(rest[j].1 && g.edge(rest[j].0, rest[i].0));
        }
        assert forall|i: int|
            0 <= i < out.len() && (rest.len() > 0 || i < out.len() - 1)
            implies #[trigger] left_before_parent(g, rest, out, i) by {
            assert(left_before_parent(g, stack, out, i));
            if !(exists|j: int| i < j < out.len() && g.edge(#[trigger] out[j], out[i])) {
                let j = choose|j: int|
                    0 <= j < stack.len() && (#[trigger] stack[j]).1 && g.edge(stack[j].0, out[i]);
                assert(rest[j].1 && g.edge(rest[j].0, out[i]));
            }
        }
    }

    pub(crate) proof fn lemma_enter(self, stack: Seq<(u32, bool)>, visited: Set<u32>, out: Seq<u32>)
        requires
            search_inv(self.graph(), stack, visited, out),
            stack.len() > 0,
            !stack.last().1,
            !visited.contains(stack.last().0),
        ensures
            ({
                let id = stack.last().0;
                let seen = visited.insert(id);
                search_inv(
                    self.graph(),
                    stack.drop_last().push((id, true)) + unseen(self.succ_list(id), seen),
                    seen,
                    out,
                )
            }),
    {
        let g = self.graph();
        let id = stack.last().0;
        let n = stack.len() - 1;
        let seen = visited.insert(id);
        let fresh = unseen(self.succ_list(id), seen);
        let next = stack.drop_last().push((id, true)) + fresh;
        lemma_unseen(self.succ_list(id), seen);
        assert(stack[n] == (id, false));
        assert(next[n] == (id, true));
        assert(forall|i: int| 0 <= i < n ==> next[i] == stack[i]);
        assert(forall|i: int| n < i < next.len() ==> next[i] == fresh[i - n - 1]);
        assert(!stack.contains((id, true)));
        assert(!out.contains(id));
        assert forall|u: u32|
            #[trigger] next.contains((u, true)) <==> stack.contains((u, true)) || u == id by {
            if next.contains((u, true)) {
                let i = choose|i: int| 0 <= i < next.len() && next[i] == (u, true);
                if i < n {
                    assert(stack[i] == (u, true));
                } else if i > n {
                    assert(!fresh[i - n - 1].1);
                }
            }
            if stack.contains((u, true)) {
                let i = choose|i: int| 0 <= i < stack.len() && stack[i] == (u, true);
                assert(next[i] == (u, true));
            }
        }
        assert forall|u: u32| stack.contains((u, false)) implies seen.contains(u)
            || #[trigger] next.contains((u, false)) by {
            let i = choose|i: int| 0 <= i < stack.len() && stack[i] == (u, false);
            if i < n {
                assert(next[i] == (u, false));
            }
        }
        assert forall|u: u32| #[trigger] fresh.contains((u, false)) implies next.contains(
            (u, false),
        ) by {
            let i = choose|i: int| 0 <= i < fresh.len() && fresh[i] == (u, false);
            assert(next[i + n + 1] == (u, false));
        }
        assert forall|i: int, j: int|
            0 <= i < j < next.len() && (#[trigger] next[i]).1 && (#[trigger] next[j]).1
            implies next[i].0 != next[j].0 by {
            if j > n {
                assert(!fresh[j - n - 1].1);
            } else if j == n {
                assert(stack[i] == next[i]);
                if next[i].0 == id {
                    assert(stack.contains((id, true)));
                }
            } else {
                assert(stack[i].1 && stack[j].1);
            }
        }
        assert forall|i: int| 0 <= i < next.len() implies g.reachable((#[trigger] next[i]).0) by {
            assert(g.reachable(stack[n].0));
            if i > n {
                let s = fresh[i - n - 1].0;
                assert(self.succ_list(id).contains(s));
                let p = choose|p: Seq<u32>| g.path_to(p, id);
                assert(g.edge(id, s));
                g.lemma_path_push(p, id, s);
            } else if i < n {
                assert(next[i] == stack[i]);
            }
        }
        assert forall|u: u32, s: u32| #[trigger]
            seen.contains(u) && #[trigger] g.edge(u, s) implies seen.contains(s) || next.contains(
            (s, false),
        ) by {
            if u == id {
                assert(self.succ_list(id).contains(s));
            } else {
                assert(visited.contains(u));
                assert(visited.contains(s) || stack.contains((s, false)));
            }
        }
        assert forall|i: int| 0 < i < next.len() implies #[trigger] waits_for_parent(
            g,
            next,
            i,
        ) by {
            if i > n {
                let s = fresh[i - n - 1].0;
                assert(self.succ_list(id).contains(s));
                assert(next[n].1 && g.edge(next[n].0, next[i].0));
            } else {
                assert(waits_for_parent(g, stack, i));
                let j = choose|j: int|
                    0 <= j < i && (#[trigger] stack[j]).1 && g.edge(stack[j].0, stack[i].0);
                assert(next[j].1 && g.edge(next[j].0, next[i].0));
            }
        }
        assert forall|i: int|
            0 <= i < out.len() && (next.len() > 0 || i < out.len() - 1)
            implies #[trigger] left_before_parent(g, next, out, i) by {
            assert(left_before_parent(g, stack, out, i));
            if !(exists|j: int| i < j < out.len() && g.edge(#[trigger] out[j], out[i])) {
                let j = choose|j: int|
                    0 <= j < stack.len() && (#[trigger] stack[j]).1 && g.edge(stack[j].0, out[i]);
                assert(next[j].1 && g.edge(next[j].0, out[i]));
            }
        }
    }

    proof fn lemma_search(self, stack: Seq<(u32, bool)>, visited: Set<u32>, out: Seq<u32>) -> (last:
        Set<u32>)
        requires
            search_inv(self.graph(), stack, visited, out),
        ensures
            search_inv(
                self.graph(),
                Seq::empty(),
                last,
                out + self.finish_order(stack, visited),
            ),
        decreases outside32(visited), stack.len(),
    {
        if stack.len() == 0 {
            assert(out + self.finish_order(stack, visited) =~= out);
            assert(stack =~= Seq::empty());
            visited
        } else {
            let (id, done) = stack.last();
            let rest = stack.drop_last();
            if done {
                self.lemma_leave(stack, visited, out);
                assert(out.push(id) + self.finish_order(rest, visited) =~= out + (seq![id]
                    + self.finish_order(rest, visited)));
                self.lemma_search(rest, visited, out.push(id))
            } else if visited.contains(id) {
                self.lemma_skip(stack, visited, out);
                self.lemma_search(rest, visited, out)
            } else {
                let seen = visited.insert(id);
                lemma_outside32(visited, id);
                self.lemma_enter(stack, visited, out);
                self.lemma_search(
                    rest.push((id, true)) + unseen(self.succ_list(id), seen),
                    seen,
                    out,
                )
            }
        }
    }

    /// The reverse post-order holds exactly the nodes that can be reached from the entry, each
    /// once; it starts with the entry, and every other node has a predecessor before it.
    pub proof fn lemma_reverse_postorder(self)
        ensures
            self.graph().is_order(self.reverse_postorder()),
    {
        let g = self.graph();
        let stack = seq![(self.entry, false)];
        g.lemma_path_entry();
        assert(search_inv(g, stack, Set::empty(), Seq::empty()));
        let last = self.lemma_search(stack, Set::empty(), Seq::empty());
        let out = self.finish_order(stack, Set::empty());
        assert(Seq::<u32>::empty() + out =~= out);
        let none = Seq::<(u32, bool)>::empty();
        assert(search_inv(g, none, last, out));
        let order = self.reverse_postorder();
        let n = out.len() as int;
        assert(forall|i: int| 0 <= i < n ==> order[i] == out[n - 1 - i]);
        assert forall|b: u32| #[trigger] order.contains(b) <==> last.contains(b) by {
            if order.contains(b) {
                let i = choose|i: int| 0 <= i < n && order[i] == b;
                assert(out[n - 1 - i] == b);
                assert(out.contains(b));
            }
            if last.contains(b) {
                assert(out.contains(b));
                let i = choose|i: int| 0 <= i < n && out[i] == b;
                assert(order[n - 1 - i] == b);
            }
        }
        assert(out[n - 1] == g.entry);
        assert(out.contains(g.entry));
        assert forall|b: u32| g.reachable(b) implies last.contains(b) by {
            let p = choose|p: Seq<u32>| g.path_to(p, b);
            Self::lemma_closed(g, last, p, b);
        }
        assert forall|i: int| 0 < i < order.len() implies #[trigger] g.has_earlier_pred(
            order,
            i,
        ) by {
            assert(left_before_parent(g, none, out, n - 1 - i));
            let j = choose|j: int|
                n - 1 - i < j < out.len() && g.edge(#[trigger] out[j], out[n - 1 - i]);
            assert(g.edge(order[n - 1 - j], order[i]));
        }
    }

    /// A set that holds the entry and the successors of its members holds every path.
    proof fn lemma_closed(g: Graph, set: Set<u32>, p: Seq<u32>, b: u32)
        requires
            set.contains(g.entry),
            forall|u: u32, s: u32| #[trigger]
                set.contains(u) && #[trigger] g.edge(u, s) ==> set.contains(s),
            g.path_to(p, b),
        ensures
            set.contains(b),
        decreases p.len(),
    {
        if p.len() > 1 {
            g.lemma_path_last(p, b);
            Self::lemma_closed(g, set, p.drop_last(), p[p.len() - 2]);
        }
    }

    /// Depth-first search from the entry, in reverse post-order.
    pub(crate) fn depth_first(&self) -> (rpo: Vec<u32>)
        ensures
            rpo@ == self.reverse_postorder(),
    {
        let mut visited: HashSet<u32> = HashSet::new();
        let mut rpo: Vec<u32> = Vec::new();
        let mut stack: Vec<(u32, bool)> = Vec::new();
        stack.push((self.entry, false));
        let ghost whole = self.finish_order(stack@, visited@);
        assert(stack@ =~= seq![(self.entry, false)]);
        assert(visited@ =~= Set::empty());
        while stack.len() > 0
            invariant
                rpo@ + self.finish_order(stack@, visited@) == whole,
            decreases outside32(visited@), stack@.len(),
        {
            let ghost out = rpo@;
            let (id, done) = stack[stack.len() - 1];
            stack.pop();
            if done {
                rpo.push(id);
                assert(rpo@ + self.finish_order(stack@, visited@) =~= out + (seq![id]
                    + self.finish_order(stack@, visited@)));
                continue;
            }
            if visited.contains(&id) {
                continue;
            }
            proof {
                lemma_outside32(visited@, id);
            }
            visited.insert(id);
            stack.push((id, true));
            let ghost base = stack@;
            let succs = self.successors(id);
            let n = succs.len();
            let mut i: usize = 0;
            assert(stack@ =~= base + unseen(succs@.take(0), visited@));
            while i < n
                invariant
                    i <= n,
                    n == succs@.len(),
                    stack@ == base + unseen(succs@.take(i as int), visited@),
                decreases n - i,
            {
                let s = succs[i];
                assert(succs@.take(i + 1).drop_last() =~= succs@.take(i as int));
                if !visited.contains(&s) {
                    stack.push((s, false));
                }
                assert(stack@ =~= base + unseen(succs@.take(i + 1), visited@));
                i = i + 1;
            }
            assert(succs@.take(n as int) =~= succs@);
        }
        let n = rpo.len();
        let mut reversed: Vec<u32> = Vec::new();
        assert(rpo@ =~= whole);
        let mut i: usize = n;
        while i > 0
            invariant
                i <= n,
                n == rpo@.len(),
                reversed@.len() == n - i,
                forall|j: int| 0 <= j < n - i ==> reversed@[j] == rpo@[n - 1 - j],
            decreases i,
        {
            i = i - 1;
            reversed.push(rpo[i]);
        }
        assert(reversed@ =~= whole.reverse());
        reversed
    }
}

} // verus!

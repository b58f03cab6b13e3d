//! Structured control flow from the flow graph.
use std::collections::{HashSet, VecDeque};

use vstd::prelude::*;

use super::model::{block_with, ends_without, entry_of, is_end, join_of, post_dominates};
use super::plan::{Shape, Step};
use crate::analysis::graph::{lemma_reaches_self, lemma_reaches_step, reaches, Graph};
use crate::analysis::{Cfg, FunctionAnalysis};
use crate::finite::{lemma_outside32, lemma_outside32_subset, outside32};
use crate::ir::{blocks_model, BasicBlock, BlockModel, IrFunction, Stmt};
use crate::listing::{lemma_push_contains, members_of};

verus! {

broadcast use vstd::std_specs::hash::group_hash_axioms;

/// The graph without one of its nodes.
pub open spec fn cut(g: Graph, j: Option<u32>) -> Graph {
    Graph {
        edges: g.edges.filter(|e: (u32, u32)| Some(e.0) != j && Some(e.1) != j),
        ..g
    }
}

fn same(a: u32, b: Option<u32>) -> (yes: bool)
    ensures
        yes == (Some(a) == b),
{
    match b {
        Some(x) => x == a,
        None => false,
    }
}

proof fn lemma_reaches_inside(g: Graph, set: Set<u32>, p: Seq<u32>)
    requires
        g.is_path(p),
        set.contains(p[0]),
        forall|b: u32, c: u32| set.contains(b) && #[trigger] g.edge(b, c) ==> set.contains(c),
    ensures
        set.contains(p.last()),
    decreases p.len(),
{
    if p.len() > 1 {
        let q = p.drop_last();
        assert forall|i: int| 0 <= i < q.len() - 1 implies #[trigger] g.step(q, i) by {
            assert(g.step(p, i));
        }
        lemma_reaches_inside(g, set, q);
        assert(g.step(p, p.len() - 2));
    }
}

/// The nodes that can be reached from `start`, itself among them, in the graph without the node
/// `without`.
fn reachable_from(cfg: &Cfg, start: u32, without: Option<u32>) -> (visited: HashSet<u32>)
    ensures
        forall|b: u32| #[trigger]
            visited@.contains(b) <==> reaches(cut(cfg.graph(), without), start, b),
{
    let ghost g = cut(cfg.graph(), without);
    let mut visited: HashSet<u32> = HashSet::new();
    let mut queue: VecDeque<u32> = VecDeque::new();
    queue.push_back(start);
    proof {
        lemma_reaches_self(g, start);
        assert(queue@[0] == start);
    }
    while queue.len() > 0
        invariant
            g == cut(cfg.graph(), without),
            visited@.contains(start) || queue@.contains(start),
            forall|b: u32| #[trigger] visited@.contains(b) ==> reaches(g, start, b),
            forall|i: int| 0 <= i < queue@.len() ==> reaches(g, start, #[trigger] queue@[i]),
            forall|b: u32, c: u32|
                visited@.contains(b) && #[trigger] g.edge(b, c) ==> visited@.contains(c)
                    || queue@.contains(c),
        decreases outside32(visited@), queue@.len(),
    {
        let ghost before = queue@;
        let ghost seen = visited@;
        let n = match queue.pop_front() {
            Some(n) => n,
            None => 0,
        };
        assert(before[0] == n);
        assert forall|x: u32| before.contains(x) implies x == n || queue@.contains(x) by {
            let i = choose|i: int| 0 <= i < before.len() && before[i] == x;
            if i > 0 {
                assert(queue@[i - 1] == x);
            }
        }
        if !visited.contains(&n) {
            proof {
                lemma_outside32(visited@, n);
            }
            visited.insert(n);
            let ghost rest = queue@;
            let succs = cfg.successors(n);
            let m = succs.len();
            let mut i: usize = 0;
            while i < m
                invariant
                    i <= m,
                    m == succs@.len(),
                    g == cut(cfg.graph(), without),
                    succs@ == cfg.succ_list(n),
                    reaches(g, start, n),
                    forall|x: u32| rest.contains(x) ==> #[trigger] queue@.contains(x),
                    forall|j: int|
                        0 <= j < i && g.edge(n, #[trigger] succs@[j]) ==> queue@.contains(
                            succs@[j],
                        ),
                    forall|j: int|
                        0 <= j < queue@.len() ==> reaches(g, start, #[trigger] queue@[j]),
                decreases m - i,
            {
                let s = succs[i];
                if !same(s, without) && !same(n, without) {
                    let ghost q = queue@;
                    queue.push_back(s);
                    proof {
                        lemma_push_contains(q, s);
                        assert(cfg.succ_list(n).contains(succs@[i as int]));
                        assert(cfg.graph().edge(n, s));
                        assert(g.edge(n, s));
                        lemma_reaches_step(g, start, n, s);
                    }
                }
                i = i + 1;
            }
            assert forall|b: u32, c: u32|
                visited@.contains(b) && #[trigger] g.edge(b, c) implies visited@.contains(c)
                || queue@.contains(c) by {
                if b == n {
                    assert(cfg.graph().edge(n, c));
                    assert(cfg.succ_list(n).contains(c));
                    let j = choose|j: int| 0 <= j < m && succs@[j] == c;
                    assert(g.edge(n, succs@[j]));
                    assert(queue@.contains(succs@[j]));
                } else {
                    assert(seen.contains(b));
                    if before.contains(c) && c != n {
                        assert(rest.contains(c));
                    }
                }
            }
        }
    }
    assert forall|b: u32| reaches(g, start, b) implies visited@.contains(b) by {
        let p = choose|p: Seq<u32>| #[trigger] g.is_path(p) && p[0] == start && p.last() == b;
        assert forall|b: u32, c: u32|
            visited@.contains(b) && #[trigger] g.edge(b, c) implies visited@.contains(c) by {
            assert(!queue@.contains(c));
        }
        assert(!queue@.contains(start));
        lemma_reaches_inside(g, visited@, p);
    }
    visited
}

/// A path in the graph without a node is a path in the graph that does not pass the node.
proof fn lemma_cut_path(g: Graph, j: u32, p: Seq<u32>)
    requires
        p.len() > 0,
        p[0] != j,
    ensures
        cut(g, Some(j)).is_path(p) <==> g.is_path(p) && !p.contains(j),
    decreases p.len(),
{
    let c = cut(g, Some(j));
    if c.is_path(p) {
        assert forall|i: int| 0 <= i < p.len() - 1 implies #[trigger] g.step(p, i) by {
            assert(c.step(p, i));
        }
        assert forall|i: int| 0 <= i < p.len() implies p[i] != j by {
            if i > 0 {
                assert(c.step(p, i - 1));
            }
        }
    }
    if g.is_path(p) && !p.contains(j) {
        assert forall|i: int| 0 <= i < p.len() - 1 implies #[trigger] c.step(p, i) by {
            assert(g.step(p, i));
            assert(p[i] != j && p[i + 1] != j);
        }
    }
}

proof fn lemma_cut_nothing(g: Graph)
    ensures
        cut(g, None) == g,
{
    assert(cut(g, None).edges =~= g.edges);
}

/// Does every path from `a` to a block without successors pass through `j`?
pub fn is_post_dominator(cfg: &Cfg, j: u32, a: u32) -> (yes: bool)
    ensures
        yes == post_dominates(cfg.graph(), j, a),
{
    let ghost g = cfg.graph();
    if a == j {
        assert forall|p: Seq<u32>| !#[trigger] ends_without(g, p, a, j) by {
            if ends_without(g, p, a, j) {
                assert(p.contains(p[0]));
            }
        }
        return true;
    }
    let visited = reachable_from(cfg, a, Some(j));
    let list = members_of(&visited);
    let n = list.len();
    let mut i: usize = 0;
    while i < n
        invariant
            i <= n,
            n == list@.len(),
            g == cfg.graph(),
            a != j,
            forall|x: u32| #[trigger] list@.contains(x) <==> visited@.contains(x),
            forall|b: u32| #[trigger]
                visited@.contains(b) <==> reaches(cut(g, Some(j)), a, b),
            forall|k: int| 0 <= k < i ==> !is_end(g, #[trigger] list@[k]),
        decreases n - i,
    {
        let x = list[i];
        let succs = cfg.successors(x);
        if succs.len() == 0 {
            proof {
                assert(list@.contains(x));
                let c = cut(g, Some(j));
                let p = choose|p: Seq<u32>| #[trigger] c.is_path(p) && p[0] == a && p.last() == x;
                lemma_cut_path(g, j, p);
                assert(is_end(g, x)) by {
                    assert forall|b: u32| !#[trigger] g.edge(x, b) by {
                        assert(!cfg.succ_list(x).contains(b));
                    }
                }
                assert(ends_without(g, p, a, j));
            }
            return false;
        }
        assert(!is_end(g, x)) by {
            assert(cfg.succ_list(x).contains(succs@[0]));
            assert(g.edge(x, succs@[0]));
        }
        i = i + 1;
    }
    assert forall|p: Seq<u32>| !#[trigger] ends_without(g, p, a, j) by {
        if ends_without(g, p, a, j) {
            lemma_cut_path(g, j, p);
            assert(reaches(cut(g, Some(j)), a, p.last()));
            assert(list@.contains(p.last()));
            let k = choose|k: int| 0 <= k < list@.len() && list@[k] == p.last();
            assert(!is_end(g, list@[k]));
        }
    }
    true
}

/// Find the join (post-dominator) of two branches: the first in reverse post-order that both reach
pub fn find_join(analysis: &FunctionAnalysis, a: u32, b: u32) -> (join: Option<u32>)
    ensures
        join == join_of(analysis.cfg.graph(), analysis.dom.rpo@, a, b),
{
    let ghost g = analysis.cfg.graph();
    let ghost order = analysis.dom.rpo@;
    proof {
        lemma_cut_nothing(g);
    }
    let ra = reachable_from(&analysis.cfg, a, None);
    let rb = reachable_from(&analysis.cfg, b, None);
    let n = analysis.dom.rpo.len();
    let mut i: usize = 0;
    assert(order.skip(0) =~= order);
    while i < n
        invariant
            i <= n,
            n == order.len(),
            order == analysis.dom.rpo@,
            g == analysis.cfg.graph(),
            forall|x: u32| #[trigger] ra@.contains(x) <==> reaches(g, a, x),
            forall|x: u32| #[trigger] rb@.contains(x) <==> reaches(g, b, x),
            join_of(g, order, a, b) == join_of(g, order.skip(i as int), a, b),
        decreases n - i,
    {
        let id = analysis.dom.rpo[i];
        assert(order.skip(i as int)[0] == id);
        if ra.contains(&id) && rb.contains(&id) && is_post_dominator(&analysis.cfg, id, a)
            && is_post_dominator(&analysis.cfg, id, b) {
            return Some(id);
        }
        assert(order.skip(i as int).skip(1) =~= order.skip(i + 1));
        i = i + 1;
    }
    None
}

/// The first block with the given id.
pub(crate) fn get_block(func: &IrFunction, id: u32) -> (block: Option<&BasicBlock>)
    ensures
        block is Some <==> block_with(func@.blocks, id) is Some,
        block matches Some(b) ==> block_with(func@.blocks, id) == Some(b@),
{
    let ghost blocks = func@.blocks;
    let n = func.blocks.len();
    let mut i: usize = 0;
    assert(blocks.skip(0) =~= blocks);
    while i < n
        invariant
            i <= n,
            n == blocks.len(),
            blocks == blocks_model(func.blocks@),
            block_with(blocks, id) == block_with(blocks.skip(i as int), id),
        decreases n - i,
    {
        assert(blocks.skip(i as int)[0] == func.blocks@[i as int]@);
        if func.blocks[i].id == id {
            return Some(&func.blocks[i]);
        }
        assert(blocks.skip(i as int).skip(1) =~= blocks.skip(i + 1));
        i = i + 1;
    }
    None
}

/// The id of the first block, or 0 where there is none.
pub(crate) fn entry_id(func: &IrFunction) -> (id: u32)
    ensures
        id == entry_of(func@.blocks),
{
    if func.blocks.len() > 0 {
        func.blocks[0].id
    } else {
        0
    }
}

/// What the structure of a function depends on.
pub open spec fn shape(func: IrFunction, analysis: FunctionAnalysis) -> Shape {
    Shape { blocks: func@.blocks, analysis }
}

/// The steps and blocks after a part of the structure.
pub open spec fn extends(
    steps0: Seq<Step>,
    emitted0: Set<u32>,
    steps: Seq<Step>,
    emitted: Set<u32>,
    more: (Seq<Step>, Set<u32>),
) -> bool {
    steps == steps0 + more.0 && emitted == emitted0.union(more.1)
}

/// Adds the structure of a region of blocks to the steps.
/// `follow` is the "continuation" block id that follows this region; `inner` is the header of the
/// innermost loop around it.
pub(crate) fn emit_region(
    func: &IrFunction,
    analysis: &FunctionAnalysis,
    begin: u32,
    from: u32,
    follow: Option<u32>,
    inner: Option<u32>,
    emitted: &mut HashSet<u32>,
    steps: &mut Vec<Step>,
)
    ensures
        extends(
            old(steps)@,
            old(emitted)@,
            final(steps)@,
            final(emitted)@,
            shape(*func, *analysis).region(old(emitted)@, begin, from, follow, inner),
        ),
    decreases outside32(old(emitted)@), 0nat,
{
    let ghost sh = shape(*func, *analysis);
    let ghost whole = sh.region(emitted@, begin, from, follow, inner);
    let ghost all_steps = steps@ + whole.0;
    let ghost all_blocks = emitted@.union(whole.1);
    let mut start = begin;
    let mut cur = from;
    loop
        invariant_except_break
            all_steps == steps@ + sh.region(emitted@, start, cur, follow, inner).0,
            all_blocks == emitted@.union(sh.region(emitted@, start, cur, follow, inner).1),
        invariant
            sh == shape(*func, *analysis),
            outside32(emitted@) <= outside32(old(emitted)@),
        ensures
            all_steps == steps@,
            all_blocks == emitted@,
        decreases outside32(emitted@),
    {
        let ghost before = emitted@;
        let ghost steps0 = steps@;
        let ghost rest = sh.region(before, start, cur, follow, inner);
        if emitted.contains(&cur) || same(cur, follow) {
            if !same(cur, follow) {
                steps.push(Step::Goto(cur));
            }
            assert(steps@ =~= steps0 + rest.0);
            assert(emitted@ =~= before.union(rest.1));
            break;
        }
        let block = match get_block(func, cur) {
            Some(b) => b,
            None => {
                assert(steps@ =~= steps0 + rest.0);
                assert(emitted@ =~= before.union(rest.1));
                break;
            },
        };
        emitted.insert(cur);
        let ghost seen = emitted@;
        proof {
            lemma_outside32(before, cur);
        }
        let ghost part = sh.turn(seen, start, cur, block@, follow, inner);
        let next = if analysis.loops.is_loop_header(cur) {
            emit_loop(func, analysis, start, cur, block, emitted, steps)
        } else {
            steps.push(Step::Block { id: cur, led: cur != start });
            let next = emit_end(func, analysis, start, cur, block, follow, inner, emitted, steps);
            assert(steps@ =~= steps0 + part.steps);
            next
        };
        assert(steps@ == steps0 + part.steps);
        assert(emitted@ == seen.union(part.more));
        assert(next == part.next);
        proof {
            lemma_outside32_subset(seen, emitted@);
        }
        match next {
            Some((first, id)) => {
                proof {
                    let on = sh.region(emitted@, first, id, follow, inner);
                    assert(steps0 + (part.steps + on.0) =~= steps@ + on.0);
                    assert(before.union(part.more.insert(cur).union(on.1)) =~= emitted@.union(
                        on.1,
                    ));
                }
                start = first;
                cur = id;
            },
            None => {
                assert(before.union(part.more.insert(cur)) =~= emitted@);
                break;
            },
        }
    }
}

/// Adds what comes after the statements of a block, as far as it stands for itself; the result says
/// where the region goes on.
fn emit_end(
    func: &IrFunction,
    analysis: &FunctionAnalysis,
    start: u32,
    cur: u32,
    block: &BasicBlock,
    follow: Option<u32>,
    inner: Option<u32>,
    emitted: &mut HashSet<u32>,
    steps: &mut Vec<Step>,
) -> (next: Option<(u32, u32)>)
    ensures
        ({
            let part = shape(*func, *analysis).leave(
                old(emitted)@,
                start,
                cur,
                block@,
                follow,
                inner,
            );
            &&& final(steps)@ == old(steps)@ + part.steps
            &&& final(emitted)@ == old(emitted)@.union(part.more)
            &&& next == part.next
        }),
    decreases outside32(old(emitted)@), 2nat,
{
    let ghost part = shape(*func, *analysis).leave(emitted@, start, cur, block@, follow, inner);
    let ghost steps0 = steps@;
    let ghost before = emitted@;
    match block.terminator() {
        Some(Stmt::Jump(id)) => {
            let next = *id;
            if analysis.loops.is_back_edge(cur, next) && !same(next, follow) {
                steps.push(Step::BackEdge);
            }
            assert(steps@ =~= steps0 + part.steps);
            assert(emitted@ =~= before.union(part.more));
            Some((start, next))
        },
        Some(Stmt::Branch { cond, true_id, false_id }) => emit_branch(
            func,
            analysis,
            start,
            cur,
            follow,
            inner,
            *true_id,
            *false_id,
            emitted,
            steps,
        ),
        _ => {
            assert(steps@ =~= steps0 + part.steps);
            assert(emitted@ =~= before.union(part.more));
            None
        },
    }
}

/// Adds the structure of a branch; the result says where the region goes on.
fn emit_branch(
    func: &IrFunction,
    analysis: &FunctionAnalysis,
    start: u32,
    cur: u32,
    follow: Option<u32>,
    inner: Option<u32>,
    t: u32,
    f: u32,
    emitted: &mut HashSet<u32>,
    steps: &mut Vec<Step>,
) -> (next: Option<(u32, u32)>)
    ensures
        ({
            let part = shape(*func, *analysis).branch(
                old(emitted)@,
                start,
                cur,
                follow,
                inner,
                t,
                f,
            );
            &&& final(steps)@ == old(steps)@ + part.steps
            &&& final(emitted)@ == old(emitted)@.union(part.more)
            &&& next == part.next
        }),
    decreases outside32(old(emitted)@), 1nat,
{
    let ghost sh = shape(*func, *analysis);
    let ghost part = sh.branch(emitted@, start, cur, follow, inner, t, f);
    let ghost steps0 = steps@;
    let ghost before = emitted@;
    if analysis.loops.is_back_edge(cur, t) && emitted.contains(&t) {
        if same(t, inner) {
            steps.push(Step::ContinueIf { id: cur, negated: false });
        } else {
            steps.push(Step::GotoIf { id: cur, negated: false, target: t });
        }
        assert(steps@ =~= steps0 + part.steps);
        assert(emitted@ =~= before.union(part.more));
        return Some((start, f));
    }
    if analysis.loops.is_back_edge(cur, f) && emitted.contains(&f) {
        if same(f, inner) {
            steps.push(Step::ContinueIf { id: cur, negated: true });
        } else {
            steps.push(Step::GotoIf { id: cur, negated: true, target: f });
        }
        assert(steps@ =~= steps0 + part.steps);
        assert(emitted@ =~= before.union(part.more));
        return Some((start, t));
    }
    let join = find_join(analysis, t, f);
    let after = match join {
        Some(j) => Some(j),
        None => follow,
    };
    steps.push(Step::If(cur));
    emit_region(func, analysis, t, t, after, inner, emitted, steps);
    let ghost left = sh.region(before, t, t, after, inner);
    let ghost seen1 = emitted@;
    proof {
        lemma_outside32_subset(before, seen1);
    }
    if !same(f, after) {
        steps.push(Step::Else);
        emit_region(func, analysis, f, f, after, inner, emitted, steps);
    }
    let ghost right = if Some(f) != after {
        let (r, m) = sh.region(seen1, f, f, after, inner);
        (seq![Step::Else] + r, m)
    } else {
        (Seq::empty(), Set::empty())
    };
    steps.push(Step::Close);
    assert(steps@ =~= steps0 + (seq![Step::If(cur)] + left.0 + right.0 + seq![Step::Close]));
    assert(emitted@ =~= before.union(left.1.union(right.1)));
    match join {
        Some(j) => Some((start, j)),
        None => None,
    }
}

/// Adds a while-loop; the result says where the region goes on.
fn emit_loop(
    func: &IrFunction,
    analysis: &FunctionAnalysis,
    start: u32,
    header: u32,
    block: &BasicBlock,
    emitted: &mut HashSet<u32>,
    steps: &mut Vec<Step>,
) -> (next: Option<(u32, u32)>)
    requires
        analysis.loops.loops@.contains_key(header),
    ensures
        ({
            let part = shape(*func, *analysis).whole_loop(old(emitted)@, start, header, block@);
            &&& final(steps)@ == old(steps)@ + part.steps
            &&& final(emitted)@ == old(emitted)@.union(part.more)
            &&& next == part.next
        }),
    decreases outside32(old(emitted)@), 3nat,
{
    let ghost sh = shape(*func, *analysis);
    let ghost steps0 = steps@;
    let ghost before = emitted@;
    let ghost open = seq![Step::While { id: header, led: header != start }];
    steps.push(Step::While { id: header, led: header != start });
    match leaving(analysis, header, block) {
        Some((body, exit, negated)) => {
            steps.push(Step::BreakIf { id: header, negated });
            emit_region(func, analysis, body, body, Some(header), Some(header), emitted, steps);
            steps.push(Step::Close);
            proof {
                let inside = sh.region(before, body, body, Some(header), Some(header));
                assert(steps@ =~= steps0 + (open + seq![
                    Step::BreakIf { id: header, negated },
                ] + inside.0 + seq![Step::Close]));
            }
            Some((exit, exit))
        },
        None => {
            let next = emit_end(
                func,
                analysis,
                header,
                header,
                block,
                Some(header),
                Some(header),
                emitted,
                steps,
            );
            let ghost inside = sh.leave(
                before,
                header,
                header,
                block@,
                Some(header),
                Some(header),
            );
            let ghost seen = emitted@;
            let ghost mid = steps@;
            proof {
                lemma_outside32_subset(before, seen);
            }
            if let Some((first, id)) = next {
                emit_region(
                    func,
                    analysis,
                    first,
                    id,
                    Some(header),
                    Some(header),
                    emitted,
                    steps,
                );
            }
            let ghost on = match inside.next {
                Some((first, id)) => sh.region(seen, first, id, Some(header), Some(header)),
                None => (Seq::empty(), Set::empty()),
            };
            assert(steps@ =~= mid + on.0);
            steps.push(Step::Close);
            assert(steps@ =~= steps0 + (open + inside.steps + on.0
                + seq![Step::Close]));
            assert(emitted@ =~= before.union(inside.more.union(on.1)));
            None
        },
    }
}

/// The branch of a header that stays in the loop, the one that leaves it, and whether it leaves
/// where the condition does not hold.
fn leaving(analysis: &FunctionAnalysis, header: u32, block: &BasicBlock) -> (way: Option<
    (u32, u32, bool),
>)
    requires
        analysis.loops.loops@.contains_key(header),
    ensures
        forall|blocks: Seq<BlockModel>|
            way == #[trigger] (Shape { blocks, analysis: *analysis }).exit_of(header, block@),
{
    match block.terminator() {
        Some(Stmt::Branch { cond, true_id, false_id }) => {
            let (t, f) = (*true_id, *false_id);
            match analysis.loops.loops.get(&header) {
                Some(members) => {
                    let stays = members.contains(&t);
                    if stays == members.contains(&f) {
                        None
                    } else if stays {
                        Some((t, f, true))
                    } else {
                        Some((f, t, false))
                    }
                },
                None => None,
            }
        },
        _ => None,
    }
}

} // verus!

//! The C code of a function depends on the function and the names alone.
use vstd::prelude::*;

use super::model::{
    block_with, definitions, entry_of, file_text, function_body, function_text, opening,
    param_names, param_regs, plan_of, Context, Emission, Names,
};
use super::plan::{targets, Shape, Step};
use crate::analysis::cfg::{flow_edges, targets_from};
use crate::analysis::loops::{back_edges_from, back_edges_of, is_header, returns_to};
use crate::analysis::order::unseen;
use crate::analysis::{Cfg, DomTree, FunctionAnalysis};
use crate::finite::{lemma_outside32, lemma_outside32_subset, outside32};
use crate::ir::{BlockModel, FunctionModel, StmtModel};

verus! {

/// The two analyses say the same of what code generation looks at.
pub open spec fn agree(a1: FunctionAnalysis, a2: FunctionAnalysis) -> bool {
    &&& forall|id: u32| #[trigger] a1.cfg.pred_list(id) == a2.cfg.pred_list(id)
    &&& a1.cfg.graph() == a2.cfg.graph()
    &&& a1.dom.rpo@ == a2.dom.rpo@
    &&& a1.loops.back_edges@ == a2.loops.back_edges@
    &&& forall|id: u32| #[trigger]
        a1.loops.loops@.contains_key(id) <==> a2.loops.loops@.contains_key(id)
    &&& forall|id: u32| #[trigger]
        a1.loops.loops@.contains_key(id) ==> a1.loops.loops@[id]@ == a2.loops.loops@[id]@
}

proof fn lemma_same_order(c1: Cfg, c2: Cfg, stack: Seq<(u32, bool)>, visited: Set<u32>)
    requires
        forall|id: u32| #[trigger] c1.succ_list(id) == c2.succ_list(id),
    ensures
        c1.finish_order(stack, visited) == c2.finish_order(stack, visited),
    decreases outside32(visited), stack.len(),
{
    if stack.len() > 0 {
        let (id, done) = stack.last();
        let rest = stack.drop_last();
        if done || visited.contains(id) {
            lemma_same_order(c1, c2, rest, visited);
        } else {
            let seen = visited.insert(id);
            lemma_outside32(visited, id);
            assert(c1.succ_list(id) == c2.succ_list(id));
            lemma_same_order(c1, c2, rest.push((id, true)) + unseen(c1.succ_list(id), seen), seen);
        }
    }
}

proof fn lemma_same_back_edges_from(d1: DomTree, d2: DomTree, src: u32, targets: Seq<u32>)
    requires
        forall|a: u32, b: u32| #[trigger] d1.is_above(a, b) == d2.is_above(a, b),
    ensures
        back_edges_from(d1, src, targets) == back_edges_from(d2, src, targets),
    decreases targets.len(),
{
    if targets.len() > 0 {
        lemma_same_back_edges_from(d1, d2, src, targets.drop_last());
        assert(d1.is_above(targets.last(), src) == d2.is_above(targets.last(), src));
    }
}

proof fn lemma_same_back_edges(c1: Cfg, c2: Cfg, d1: DomTree, d2: DomTree, ids: Seq<u32>)
    requires
        forall|id: u32| #[trigger] c1.succ_list(id) == c2.succ_list(id),
        forall|a: u32, b: u32| #[trigger] d1.is_above(a, b) == d2.is_above(a, b),
    ensures
        back_edges_of(c1, d1, ids) == back_edges_of(c2, d2, ids),
    decreases ids.len(),
{
    if ids.len() > 0 {
        lemma_same_back_edges(c1, c2, d1, d2, ids.drop_last());
        assert(c1.succ_list(ids.last()) == c2.succ_list(ids.last()));
        lemma_same_back_edges_from(d1, d2, ids.last(), c1.succ_list(ids.last()));
    }
}

/// Two analyses of the same blocks agree.
pub proof fn lemma_analyses_agree(
    a1: FunctionAnalysis,
    a2: FunctionAnalysis,
    blocks: Seq<BlockModel>,
)
    requires
        a1.describes(blocks),
        a2.describes(blocks),
    ensures
        agree(a1, a2),
{
    let edges = flow_edges(blocks);
    assert forall|id: u32| #[trigger] a1.cfg.succ_list(id) == a2.cfg.succ_list(id) by {
        assert(a1.cfg.succ_list(id) == targets_from(edges, id));
        assert(a2.cfg.succ_list(id) == targets_from(edges, id));
    }
    assert(forall|id: u32| #[trigger] a1.cfg.pred_list(id) == a2.cfg.pred_list(id));
    let g = a1.cfg.graph();
    assert(g.edges =~= a2.cfg.graph().edges) by {
        assert forall|e: (u32, u32)| g.edges.contains(e) <==> a2.cfg.graph().edges.contains(e) by {
            assert(a1.cfg.succ_list(e.0) == a2.cfg.succ_list(e.0));
        }
    }
    assert(g == a2.cfg.graph());
    lemma_same_order(a1.cfg, a2.cfg, seq![(a1.cfg.entry, false)], Set::empty());
    assert forall|a: u32, b: u32| #[trigger] a1.dom.is_above(a, b) == a2.dom.is_above(a, b) by {
        a1.dom.lemma_above_is_dominance(a1.cfg, a, b);
        a2.dom.lemma_above_is_dominance(a2.cfg, a, b);
    }
    lemma_same_back_edges(a1.cfg, a2.cfg, a1.dom, a2.dom, a1.cfg.block_ids@);
    let back = a1.loops.back_edges@;
    assert(back == a2.loops.back_edges@);
    assert forall|id: u32| #[trigger]
        a1.loops.loops@.contains_key(id) <==> a2.loops.loops@.contains_key(id) by {
        assert(a1.loops.loops@.contains_key(id) <==> is_header(back, id));
        assert(a2.loops.loops@.contains_key(id) <==> is_header(back, id));
    }
    assert forall|id: u32| #[trigger] a1.loops.loops@.contains_key(id) implies a1.loops.loops@[id]@
        == a2.loops.loops@[id]@ by {
        assert(a2.loops.loops@.contains_key(id));
        assert forall|b: u32| a1.loops.loops@[id]@.contains(b)
            <==> a2.loops.loops@[id]@.contains(b) by {
            assert(a1.loops.loops@[id]@.contains(b) <==> b == id || returns_to(g, back, id, b));
            assert(a2.loops.loops@[id]@.contains(b) <==> b == id || returns_to(g, back, id, b));
        }
        assert(a1.loops.loops@[id]@ =~= a2.loops.loops@[id]@);
    }
}

/// The same blocks, and analyses that agree.
spec fn alike(s1: Shape, s2: Shape) -> bool {
    s1.blocks == s2.blocks && agree(s1.analysis, s2.analysis)
}

proof fn lemma_same_facts(s1: Shape, s2: Shape)
    requires
        alike(s1, s2),
    ensures
        forall|a: u32, b: u32| #[trigger] s1.back_edge(a, b) == s2.back_edge(a, b),
        forall|a: u32| #[trigger] s1.header(a) == s2.header(a),
        forall|a: u32, b: u32| #[trigger] s1.join(a, b) == s2.join(a, b),
        forall|a: u32, b: BlockModel|
            s1.header(a) ==> #[trigger] s1.exit_of(a, b) == s2.exit_of(a, b),
{
    assert forall|a: u32| #[trigger] s1.header(a) == s2.header(a) by {
        assert(s1.analysis.loops.loops@.contains_key(a)
            <==> s2.analysis.loops.loops@.contains_key(a));
    }
    assert forall|a: u32, b: BlockModel| s1.header(a) implies #[trigger] s1.exit_of(a, b)
        == s2.exit_of(a, b) by {
        assert(s1.analysis.loops.loops@.contains_key(a));
        assert(s1.analysis.loops.loops@[a]@ == s2.analysis.loops.loops@[a]@);
    }
}

proof fn lemma_same_region(
    s1: Shape,
    s2: Shape,
    emitted: Set<u32>,
    start: u32,
    cur: u32,
    follow: Option<u32>,
    inner: Option<u32>,
)
    requires
        alike(s1, s2),
    ensures
        s1.region(emitted, start, cur, follow, inner) == s2.region(
            emitted,
            start,
            cur,
            follow,
            inner,
        ),
    decreases outside32(emitted), 0nat,
{
    if !emitted.contains(cur) && Some(cur) != follow {
        if let Some(block) = block_with(s1.blocks, cur) {
            let seen = emitted.insert(cur);
            lemma_outside32(emitted, cur);
            lemma_same_turn(s1, s2, seen, start, cur, block, follow, inner);
            let part = s1.turn(seen, start, cur, block, follow, inner);
            lemma_outside32_subset(seen, seen.union(part.more));
            if let Some((first, next)) = part.next {
                lemma_same_region(s1, s2, seen.union(part.more), first, next, follow, inner);
            }
        }
    }
}

proof fn lemma_same_turn(
    s1: Shape,
    s2: Shape,
    seen: Set<u32>,
    start: u32,
    cur: u32,
    block: BlockModel,
    follow: Option<u32>,
    inner: Option<u32>,
)
    requires
        alike(s1, s2),
    ensures
        s1.turn(seen, start, cur, block, follow, inner) == s2.turn(
            seen,
            start,
            cur,
            block,
            follow,
            inner,
        ),
    decreases outside32(seen), 3nat,
{
    lemma_same_facts(s1, s2);
    assert(s1.header(cur) == s2.header(cur));
    if s1.header(cur) {
        assert(s1.exit_of(cur, block) == s2.exit_of(cur, block));
        match s1.exit_of(cur, block) {
            Some((body, exit, negated)) => {
                lemma_same_region(s1, s2, seen, body, body, Some(cur), Some(cur));
            },
            None => {
                lemma_same_leave(s1, s2, seen, cur, cur, block, Some(cur), Some(cur));
                let part = s1.leave(seen, cur, cur, block, Some(cur), Some(cur));
                lemma_outside32_subset(seen, seen.union(part.more));
                if let Some((first, next)) = part.next {
                    lemma_same_region(
                        s1,
                        s2,
                        seen.union(part.more),
                        first,
                        next,
                        Some(cur),
                        Some(cur),
                    );
                }
            },
        }
    } else {
        lemma_same_leave(s1, s2, seen, start, cur, block, follow, inner);
    }
}

proof fn lemma_same_leave(
    s1: Shape,
    s2: Shape,
    seen: Set<u32>,
    start: u32,
    cur: u32,
    block: BlockModel,
    follow: Option<u32>,
    inner: Option<u32>,
)
    requires
        alike(s1, s2),
    ensures
        s1.leave(seen, start, cur, block, follow, inner) == s2.leave(
            seen,
            start,
            cur,
            block,
            follow,
            inner,
        ),
    decreases outside32(seen), 2nat,
{
    lemma_same_facts(s1, s2);
    match block.terminator() {
        Some(StmtModel::Jump(next)) => {
            assert(s1.back_edge(cur, next) == s2.back_edge(cur, next));
        },
        Some(StmtModel::Branch { cond, true_id, false_id }) => {
            let (t, f) = (true_id, false_id);
            assert(s1.back_edge(cur, t) == s2.back_edge(cur, t));
            assert(s1.back_edge(cur, f) == s2.back_edge(cur, f));
            if !(s1.back_edge(cur, t) && seen.contains(t)) && !(s1.back_edge(cur, f)
                && seen.contains(f)) {
                let join = s1.join(t, f);
                assert(join == s2.join(t, f));
                let after = match join {
                    Some(j) => Some(j),
                    None => follow,
                };
                lemma_same_region(s1, s2, seen, t, t, after, inner);
                let seen1 = seen.union(s1.region(seen, t, t, after, inner).1);
                lemma_outside32_subset(seen, seen1);
                lemma_same_region(s1, s2, seen1, f, f, after, inner);
            }
        },
        _ => {},
    }
}

proof fn lemma_same_steps(c1: Context, c2: Context, em: Emission, steps: Seq<Step>)
    requires
        c1.names == c2.names,
        c1.blocks == c2.blocks,
        c1.labels == c2.labels,
        agree(c1.analysis, c2.analysis),
    ensures
        c1.steps(em, steps) == c2.steps(em, steps),
    decreases steps.len(),
{
    if steps.len() > 0 {
        lemma_same_steps(c1, c2, em, steps.drop_last());
        match steps.last() {
            Step::Block { id, led } => {
                assert(c1.analysis.cfg.pred_list(id) == c2.analysis.cfg.pred_list(id));
            },
            Step::While { id, led } => {
                assert(c1.analysis.cfg.pred_list(id) == c2.analysis.cfg.pred_list(id));
            },
            _ => {},
        }
    }
}

/// Whatever analysis of a function is used, its C code is the same.
pub proof fn lemma_function_text_determined(
    func: FunctionModel,
    a1: FunctionAnalysis,
    a2: FunctionAnalysis,
    funcs: Map<u64, Seq<char>>,
)
    requires
        a1.describes(func.blocks),
        a2.describes(func.blocks),
    ensures
        function_text(func, a1, funcs) == function_text(func, a2, funcs),
{
    lemma_analyses_agree(a1, a2, func.blocks);
    let blocks = func.blocks;
    let names = Names { params: param_names(param_regs(blocks)), funcs };
    let entry = entry_of(blocks);
    let s1 = Shape { blocks, analysis: a1 };
    let s2 = Shape { blocks, analysis: a2 };
    lemma_same_region(s1, s2, Set::empty(), entry, entry, None, None);
    let plan = plan_of(blocks, a1);
    assert(plan == plan_of(blocks, a2));
    let c1 = Context { names, blocks, analysis: a1, labels: targets(plan) };
    let c2 = Context { names, blocks, analysis: a2, labels: targets(plan) };
    lemma_same_steps(c1, c2, opening(func), plan);
    assert(function_body(func, a1, funcs) == function_body(func, a2, funcs));
}

/// Whatever analyses of the functions are used, the C file is the same.
pub proof fn lemma_file_text_determined(
    funcs: Seq<FunctionModel>,
    as1: Seq<FunctionAnalysis>,
    as2: Seq<FunctionAnalysis>,
    names: Map<u64, Seq<char>>,
)
    requires
        as1.len() == funcs.len(),
        as2.len() == funcs.len(),
        forall|i: int| 0 <= i < funcs.len() ==> (#[trigger] as1[i]).describes(funcs[i].blocks),
        forall|i: int| 0 <= i < funcs.len() ==> (#[trigger] as2[i]).describes(funcs[i].blocks),
    ensures
        file_text(funcs, as1, names) == file_text(funcs, as2, names),
{
    lemma_definitions_determined(funcs, as1, as2, names);
}

proof fn lemma_definitions_determined(
    funcs: Seq<FunctionModel>,
    as1: Seq<FunctionAnalysis>,
    as2: Seq<FunctionAnalysis>,
    names: Map<u64, Seq<char>>,
)
    requires
        funcs.len() <= as1.len(),
        funcs.len() <= as2.len(),
        forall|i: int| 0 <= i < funcs.len() ==> (#[trigger] as1[i]).describes(funcs[i].blocks),
        forall|i: int| 0 <= i < funcs.len() ==> (#[trigger] as2[i]).describes(funcs[i].blocks),
    ensures
        definitions(funcs, as1, names) == definitions(funcs, as2, names),
    decreases funcs.len(),
{
    if funcs.len() > 0 {
        let n = funcs.len() - 1;
        let rest = funcs.drop_last();
        assert forall|i: int| 0 <= i < rest.len() implies (#[trigger] as1[i]).describes(
            rest[i].blocks,
        ) by {
            assert(rest[i] == funcs[i]);
        }
        assert forall|i: int| 0 <= i < rest.len() implies (#[trigger] as2[i]).describes(
            rest[i].blocks,
        ) by {
            assert(rest[i] == funcs[i]);
        }
        lemma_definitions_determined(rest, as1, as2, names);
        assert(as1[n].describes(funcs[n].blocks));
        assert(as2[n].describes(funcs[n].blocks));
        lemma_function_text_determined(funcs.last(), as1[n], as2[n], names);
    }
}

} // verus!

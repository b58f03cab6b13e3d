//! What holds of the lines of the C code of a function.
use vstd::prelude::*;

use super::complete::{count, distinct, lemma_jumps_find_labels, lemma_written_once};
use super::laws::{has_block, lemma_steps_go_on};
use super::lines::{
    all_in_one_line, complete, hits, label_line, lemma_close, lemma_label_injective,
    lemma_opened_line, lemma_set_apart, lemma_shapes, lemma_steps, lemma_unhandled_injective,
    lines, remarked, remarks, set_apart, steps_hits, stmts_of, tally, tame, unbroken, unhandled,
};
use super::model::{
    function_body, function_text, goto, opening, padding, param_name, param_names, param_regs,
    params_text, plan_of, sanitize, Context, Emission, Names,
};
use super::plan::{jumped_to, targets, Step};
use super::reached::lemma_written_iff_reachable;
use crate::analysis::graph::Graph;
use crate::analysis::FunctionAnalysis;
use crate::ir::{BlockModel, FunctionModel, StmtModel};

verus! {

/// What stays the same while the function is emitted.
pub open spec fn context_of(
    func: FunctionModel,
    analysis: FunctionAnalysis,
    funcs: Map<u64, Seq<char>>,
) -> Context {
    Context {
        names: Names { params: param_names(param_regs(func.blocks)), funcs },
        blocks: func.blocks,
        analysis,
        labels: targets(plan_of(func.blocks, analysis)),
    }
}

/// The names, and the texts of the instructions that are not lifted, hold no line breaks.
pub open spec fn printable(func: FunctionModel, funcs: Map<u64, Seq<char>>) -> bool {
    &&& unbroken(func.name)
    &&& forall|a: u64| #[trigger] funcs.contains_key(a) ==> unbroken(funcs[a])
    &&& all_in_one_line(func.blocks)
}

proof fn lemma_param_name(i: int)
    ensures
        unbroken(param_name(i)),
        param_name(i).len() > 0,
        param_name(i)[0] == 'p',
{
    reveal_strlit("param_rdi");
    reveal_strlit("param_rsi");
    reveal_strlit("param_rdx");
    reveal_strlit("param_rcx");
    reveal_strlit("param_r8");
    reveal_strlit("param_r9");
}

proof fn lemma_params(n: nat)
    ensures
        unbroken(params_text(n)),
    decreases n,
{
    if n > 0 {
        reveal_strlit("uint64_t ");
        reveal_strlit(", ");
        lemma_params((n - 1) as nat);
        lemma_param_name(n - 1);
        lemma_param_name(0);
    }
}

proof fn lemma_param_names(regs: Seq<u32>)
    ensures
        forall|r: u32| #[trigger]
            param_names(regs).contains_key(r) ==> unbroken(param_names(regs)[r]) && param_names(
                regs,
            )[r].len() > 0 && param_names(regs)[r][0] == 'p',
    decreases regs.len(),
{
    if regs.len() > 0 {
        let before = param_names(regs.drop_last());
        let all = param_names(regs);
        lemma_param_names(regs.drop_last());
        lemma_param_name(regs.len() - 1);
        assert forall|r: u32| #[trigger] all.contains_key(r) implies unbroken(all[r])
            && all[r].len() > 0 && all[r][0] == 'p' by {
            if r != regs.last() {
                assert(before.contains_key(r));
            }
        }
    }
}

proof fn lemma_opening(func: FunctionModel)
    requires
        unbroken(func.name),
    ensures
        complete(opening(func).text),
        forall|want: Seq<char>| set_apart(want) ==> #[trigger] hits(opening(func), want) == 0,
{
    let none = Emission { text: Seq::empty(), indent: 0, declared: Set::empty() };
    let count = param_regs(func.blocks).len();
    let c = "uint64_t "@ + sanitize(func.name) + "("@ + params_text(count) + ") {"@;
    reveal_strlit("uint64_t ");
    reveal_strlit("(");
    reveal_strlit(") {");
    reveal_strlit(") {\n");
    reveal_strlit("\n");
    lemma_params(count);
    assert(unbroken(sanitize(func.name))) by {
        assert forall|i: int| 0 <= i < sanitize(func.name).len() implies #[trigger] sanitize(
            func.name,
        )[i] != '\n' by {
            assert(func.name[i] != '\n');
        }
    }
    lemma_opened_line(none, c);
    assert(padding(0) =~= Seq::empty());
    assert(none.line(c).text =~= opening(func).text);
    assert(forall|want: Seq<char>| #[trigger]
        hits(opening(func), want) == hits(none.line(c), want));
    assert(forall|want: Seq<char>| #[trigger] hits(none, want) == 0);
}

/// The lines of a function, but for the plain ones, are those of its structure.
proof fn lemma_function_lines(
    func: FunctionModel,
    analysis: FunctionAnalysis,
    funcs: Map<u64, Seq<char>>,
    want: Seq<char>,
)
    requires
        printable(func, funcs),
        set_apart(want),
    ensures
        tally(lines(function_text(func, analysis, funcs)), want) == steps_hits(
            context_of(func, analysis, funcs),
            plan_of(func.blocks, analysis),
            want,
        ),
{
    let cx = context_of(func, analysis, funcs);
    let plan = plan_of(func.blocks, analysis);
    lemma_param_names(param_regs(func.blocks));
    assert(tame(cx.names));
    lemma_opening(func);
    lemma_steps(cx, opening(func), plan);
    let body = function_body(func, analysis, funcs);
    assert(body == cx.steps(opening(func), plan));
    let outside = Emission { indent: 0, ..body };
    assert(hits(outside, want) == hits(body, want));
    lemma_close(outside);
    assert(hits(outside.line("}"@), want) == hits(outside, want));
}

/// No remark on an instruction is a label or a jump.
proof fn lemma_not_remarked(stmts: Seq<StmtModel>, id: u32)
    ensures
        remarked(stmts, label_line(id)) == 0,
        remarked(stmts, goto(id)) == 0,
    decreases stmts.len(),
{
    if stmts.len() > 0 {
        lemma_not_remarked(stmts.drop_last(), id);
        if let StmtModel::Unhandled(what) = stmts.last() {
            lemma_shapes(id, what);
        }
    }
}

proof fn lemma_label_hits(cx: Context, steps: Seq<Step>, id: u32)
    ensures
        steps_hits(cx, steps, label_line(id)) <= count(steps, id),
        cx.labels.contains(id) ==> steps_hits(cx, steps, label_line(id)) == count(steps, id),
    decreases steps.len(),
{
    if steps.len() > 0 {
        lemma_label_hits(cx, steps.drop_last(), id);
        lemma_shapes(id, Seq::empty());
        match steps.last() {
            Step::Block { id: k, led } => {
                lemma_not_remarked(stmts_of(cx.blocks, k), id);
                lemma_label_injective(k, id);
            },
            Step::While { id: k, led } => {
                lemma_not_remarked(stmts_of(cx.blocks, k), id);
                lemma_label_injective(k, id);
            },
            Step::Goto(k) => {
                lemma_shapes(k, Seq::empty());
            },
            _ => {},
        }
    }
}

proof fn lemma_goto_hits(cx: Context, steps: Seq<Step>, id: u32)
    ensures
        steps_hits(cx, steps, goto(id)) > 0 ==> jumped_to(steps, id),
    decreases steps.len(),
{
    if steps.len() > 0 {
        let rest = steps.drop_last();
        lemma_goto_hits(cx, rest, id);
        if jumped_to(rest, id) {
            let i = choose|i: int| 0 <= i < rest.len() && (#[trigger] rest[i]).target() == Some(id);
            assert(steps[i].target() == Some(id));
        }
        lemma_shapes(id, Seq::empty());
        match steps.last() {
            Step::Block { id: k, led } => {
                lemma_not_remarked(stmts_of(cx.blocks, k), id);
                lemma_shapes(k, Seq::empty());
            },
            Step::While { id: k, led } => {
                lemma_not_remarked(stmts_of(cx.blocks, k), id);
                lemma_shapes(k, Seq::empty());
            },
            Step::Goto(k) => {
                lemma_label_injective(k, id);
                if k == id {
                    assert(steps[steps.len() - 1].target() == Some(id));
                }
            },
            _ => {},
        }
    }
}

/// Every block to which the code of a function jumps, under a condition or without one, has exactly
/// one line with its label; and no block has more than one.
pub proof fn lemma_label_lines(
    func: FunctionModel,
    analysis: FunctionAnalysis,
    funcs: Map<u64, Seq<char>>,
    id: u32,
)
    requires
        printable(func, funcs),
    ensures
        tally(lines(function_text(func, analysis, funcs)), label_line(id)) <= 1,
        targets(plan_of(func.blocks, analysis)).contains(id) ==> tally(
            lines(function_text(func, analysis, funcs)),
            label_line(id),
        ) == 1,
{
    let plan = plan_of(func.blocks, analysis);
    lemma_set_apart(id, Seq::empty());
    lemma_function_lines(func, analysis, funcs, label_line(id));
    lemma_label_hits(context_of(func, analysis, funcs), plan, id);
    lemma_written_once(func.blocks, analysis, Seq::empty(), id);
    lemma_jumps_find_labels(func.blocks, analysis, id);
}

/// For every line `goto block_N;` of the code of a function there is exactly one line `block_N:`.
pub proof fn lemma_goto_lines(
    func: FunctionModel,
    analysis: FunctionAnalysis,
    funcs: Map<u64, Seq<char>>,
    id: u32,
)
    requires
        printable(func, funcs),
        tally(lines(function_text(func, analysis, funcs)), goto(id)) > 0,
    ensures
        tally(lines(function_text(func, analysis, funcs)), label_line(id)) == 1,
{
    lemma_set_apart(id, Seq::empty());
    lemma_function_lines(func, analysis, funcs, goto(id));
    lemma_goto_hits(context_of(func, analysis, funcs), plan_of(func.blocks, analysis), id);
    lemma_label_lines(func, analysis, funcs, id);
}

/// How many statements of the blocks that can be reached add the line.
pub open spec fn remarked_in(g: Graph, blocks: Seq<BlockModel>, want: Seq<char>) -> nat
    decreases blocks.len(),
{
    if blocks.len() == 0 {
        0
    } else {
        remarked_in(g, blocks.drop_last(), want) + if g.reachable(blocks.last().id) {
            remarked(blocks.last().stmts, want)
        } else {
            0
        }
    }
}

/// How many statements of the blocks add the line, each block counted as often as it is written.
spec fn weighed(blocks: Seq<BlockModel>, steps: Seq<Step>, want: Seq<char>) -> nat
    decreases blocks.len(),
{
    if blocks.len() == 0 {
        0
    } else {
        weighed(blocks.drop_last(), steps, want) + count(steps, blocks.last().id) * remarked(
            blocks.last().stmts,
            want,
        )
    }
}

/// The last of several blocks.
proof fn lemma_stmts_last(blocks: Seq<BlockModel>, id: u32)
    requires
        distinct(blocks),
        blocks.len() > 0,
    ensures
        distinct(blocks.drop_last()),
        stmts_of(blocks, id) == if blocks.last().id == id {
            blocks.last().stmts
        } else {
            stmts_of(blocks.drop_last(), id)
        },
        blocks.last().id == id ==> stmts_of(blocks.drop_last(), id) == Seq::<StmtModel>::empty(),
    decreases blocks.len(),
{
    let before = blocks.drop_last();
    assert forall|i: int, j: int| 0 <= i < j < before.len() implies (#[trigger] before[i]).id != (
    #[trigger] before[j]).id by {
        assert(blocks[i].id != blocks[j].id);
    }
    if blocks.len() == 1 {
        assert(blocks.skip(1) =~= Seq::empty());
        assert(before =~= Seq::empty());
        assert(blocks.last() == blocks[0]);
        assert(stmts_of(Seq::empty(), id) == Seq::<StmtModel>::empty());
    } else {
        let rest = blocks.skip(1);
        assert forall|i: int, j: int| 0 <= i < j < rest.len() implies (#[trigger] rest[i]).id != (
        #[trigger] rest[j]).id by {
            assert(blocks[i + 1].id != blocks[j + 1].id);
        }
        lemma_stmts_last(rest, id);
        assert(rest.drop_last() =~= before.skip(1));
        assert(blocks[0].id != blocks[blocks.len() - 1].id);
        assert(before[0] == blocks[0]);
        assert(rest.last() == blocks.last());
        if blocks[0].id != id {
            assert(stmts_of(blocks, id) == stmts_of(rest, id));
            assert(stmts_of(before, id) == stmts_of(before.skip(1), id));
        }
    }
}

/// One more step counts the statements of the block that it writes.
proof fn lemma_weighed_push(blocks: Seq<BlockModel>, steps: Seq<Step>, want: Seq<char>)
    requires
        distinct(blocks),
        steps.len() > 0,
    ensures
        weighed(blocks, steps, want) == weighed(blocks, steps.drop_last(), want) + (
        match steps.last().writes() {
            Some(id) => remarked(stmts_of(blocks, id), want),
            None => 0,
        }),
    decreases blocks.len(),
{
    if blocks.len() > 0 {
        let last = blocks.last();
        let before = steps.drop_last();
        let c = count(before, last.id);
        let r = remarked(last.stmts, want);
        lemma_weighed_push(blocks.drop_last(), steps, want);
        assert((c + 1) * r == c * r + r) by (nonlinear_arith);
        if let Some(id) = steps.last().writes() {
            lemma_stmts_last(blocks, id);
        }
    } else if let Some(id) = steps.last().writes() {
        assert(remarked(stmts_of(blocks, id), want) == 0);
    }
}

proof fn lemma_unhandled_hits(cx: Context, steps: Seq<Step>, what: Seq<char>)
    requires
        distinct(cx.blocks),
    ensures
        steps_hits(cx, steps, unhandled(what)) == weighed(cx.blocks, steps, unhandled(what)),
    decreases steps.len(),
{
    let want = unhandled(what);
    if steps.len() == 0 {
        lemma_weighed_none(cx.blocks, steps, want);
    } else {
        lemma_unhandled_hits(cx, steps.drop_last(), what);
        lemma_weighed_push(cx.blocks, steps, want);
        match steps.last() {
            Step::Block { id, led } => lemma_shapes(id, what),
            Step::While { id, led } => lemma_shapes(id, what),
            Step::Goto(id) => lemma_shapes(id, what),
            _ => lemma_shapes(0, what),
        }
    }
}

proof fn lemma_weighed_none(blocks: Seq<BlockModel>, steps: Seq<Step>, want: Seq<char>)
    requires
        steps.len() == 0,
    ensures
        weighed(blocks, steps, want) == 0,
    decreases blocks.len(),
{
    if blocks.len() > 0 {
        let r = remarked(blocks.last().stmts, want);
        lemma_weighed_none(blocks.drop_last(), steps, want);
        assert(0 * r == 0) by (nonlinear_arith);
    }
}

/// Each block counts once where it can be reached.
proof fn lemma_weighed_reached(
    all: Seq<BlockModel>,
    analysis: FunctionAnalysis,
    n: int,
    want: Seq<char>,
)
    requires
        analysis.describes(all),
        distinct(all),
        0 <= n <= all.len(),
    ensures
        weighed(all.take(n), plan_of(all, analysis), want) == remarked_in(
            analysis.cfg.graph(),
            all.take(n),
            want,
        ),
    decreases n,
{
    if n > 0 {
        let part = all.take(n);
        assert(part.drop_last() =~= all.take(n - 1));
        lemma_weighed_reached(all, analysis, n - 1, want);
        assert(all[n - 1].id == part.last().id);
        assert(has_block(all, part.last().id));
        lemma_written_iff_reachable(all, analysis, part.last().id);
        let r = remarked(part.last().stmts, want);
        assert(1 * r == r && 0 * r == 0) by (nonlinear_arith);
    }
}

/// The code of a function has as many lines `/* unhandled: what */` as the blocks that can be
/// reached have such statements: every block that can be reached is in the text, none twice, and no
/// other block is.
pub proof fn lemma_unhandled_lines(
    func: FunctionModel,
    analysis: FunctionAnalysis,
    funcs: Map<u64, Seq<char>>,
    what: Seq<char>,
)
    requires
        printable(func, funcs),
        analysis.describes(func.blocks),
        distinct(func.blocks),
    ensures
        tally(lines(function_text(func, analysis, funcs)), unhandled(what)) == remarked_in(
            analysis.cfg.graph(),
            func.blocks,
            unhandled(what),
        ),
{
    let n = func.blocks.len() as int;
    lemma_set_apart(0, what);
    lemma_function_lines(func, analysis, funcs, unhandled(what));
    lemma_unhandled_hits(
        context_of(func, analysis, funcs),
        plan_of(func.blocks, analysis),
        what,
    );
    lemma_weighed_reached(func.blocks, analysis, n, unhandled(what));
    assert(func.blocks.take(n) =~= func.blocks);
}

/// A statement names the instruction `what` exactly where it adds that line.
pub proof fn lemma_remarks(s: StmtModel, what: Seq<char>)
    ensures
        remarks(s, unhandled(what)) <==> s == StmtModel::Unhandled(what),
{
    if let StmtModel::Unhandled(other) = s {
        if unhandled(other) == unhandled(what) {
            lemma_unhandled_injective(other, what);
        }
    }
}

/// The step that writes the block.
proof fn lemma_writer(steps: Seq<Step>, id: u32) -> (i: int)
    requires
        count(steps, id) == 1,
    ensures
        0 <= i < steps.len(),
        steps[i].writes() == Some(id),
        forall|j: int|
            0 <= j < steps.len() && j != i ==> (#[trigger] steps[j]).writes() != Some(id),
    decreases steps.len(),
{
    let rest = steps.drop_last();
    if steps.last().writes() == Some(id) {
        lemma_no_writer(rest, id);
        assert forall|j: int| 0 <= j < steps.len() && j != steps.len() - 1 implies (
        #[trigger] steps[j]).writes() != Some(id) by {
            assert(rest[j].writes() != Some(id));
        }
        steps.len() - 1
    } else {
        let i = lemma_writer(rest, id);
        assert forall|j: int| 0 <= j < steps.len() && j != i implies (#[trigger] steps[j]).writes()
            != Some(id) by {
            if j < rest.len() {
                assert(rest[j].writes() != Some(id));
            }
        }
        i
    }
}

proof fn lemma_no_writer(steps: Seq<Step>, id: u32)
    requires
        count(steps, id) == 0,
    ensures
        forall|j: int| 0 <= j < steps.len() ==> (#[trigger] steps[j]).writes() != Some(id),
    decreases steps.len(),
{
    if steps.len() > 0 {
        let rest = steps.drop_last();
        lemma_no_writer(rest, id);
        assert forall|j: int| 0 <= j < steps.len() implies (#[trigger] steps[j]).writes() != Some(
            id,
        ) by {
            if j < rest.len() {
                assert(rest[j].writes() != Some(id));
            }
        }
    }
}

proof fn lemma_steps_add(cx: Context, em: Emission, a: Seq<Step>, b: Seq<Step>)
    ensures
        cx.steps(em, a + b) == cx.steps(cx.steps(em, a), b),
    decreases b.len(),
{
    if b.len() == 0 {
        assert(a + b =~= a);
    } else {
        assert((a + b).drop_last() =~= a + b.drop_last());
        lemma_steps_add(cx, em, a, b.drop_last());
    }
}

/// The text of a block that can be reached stands in one place of the code of its function: behind
/// the text of the steps before the one step that writes it.
pub proof fn lemma_block_in_text(
    func: FunctionModel,
    analysis: FunctionAnalysis,
    funcs: Map<u64, Seq<char>>,
    id: u32,
) -> (i: int)
    requires
        analysis.describes(func.blocks),
        distinct(func.blocks),
        has_block(func.blocks, id),
        analysis.cfg.graph().reachable(id),
    ensures
        ({
            let cx = context_of(func, analysis, funcs);
            let plan = plan_of(func.blocks, analysis);
            &&& 0 <= i < plan.len()
            &&& plan[i].writes() == Some(id)
            &&& forall|j: int|
                0 <= j < plan.len() && j != i ==> (#[trigger] plan[j]).writes() != Some(id)
            &&& cx.step(cx.steps(opening(func), plan.take(i)), plan[i]).text.is_prefix_of(
                function_text(func, analysis, funcs),
            )
        }),
{
    let cx = context_of(func, analysis, funcs);
    let plan = plan_of(func.blocks, analysis);
    lemma_written_iff_reachable(func.blocks, analysis, id);
    let i = lemma_writer(plan, id);
    let here = cx.steps(opening(func), plan.take(i + 1));
    assert(plan.take(i + 1).drop_last() =~= plan.take(i));
    lemma_steps_add(cx, opening(func), plan.take(i + 1), plan.skip(i + 1));
    assert(plan.take(i + 1) + plan.skip(i + 1) =~= plan);
    lemma_steps_go_on(cx, here, plan.skip(i + 1));
    let body = function_body(func, analysis, funcs);
    let outside = Emission { indent: 0, ..body };
    assert(here.text.is_prefix_of(outside.text));
    let whole = outside.line("}"@).text;
    assert(here.text =~= whole.subrange(0, here.text.len() as int)) by {
        assert(here.text =~= outside.text.subrange(0, here.text.len() as int));
    }
    i
}

} // verus!

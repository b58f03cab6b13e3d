//! The lines of the structure of a function, of the function and of the file.
use vstd::prelude::*;

use super::model::{
    block_with, cond_of, declarations, definitions, ends_without, expr_text, file_text,
    function_body, function_text, goto, join_of, label, padding, param_names, param_regs,
    params_text, plan_of, post_dominates, sanitize, Context, Emission, Names,
};
use super::plan::{targets, Step};
use super::reading::{lemma_read, plain_names, read, tree};
use crate::analysis::graph::{reaches, Graph};
use crate::analysis::FunctionAnalysis;
use crate::ir::{BlockModel, Expr, FunctionModel, StmtModel};
use crate::text::{alphanumeric, decimal};

verus! {

/// Block `k` is the first one with its id.
pub open spec fn is_first(blocks: Seq<BlockModel>, k: int) -> bool {
    &&& 0 <= k < blocks.len()
    &&& forall|i: int| 0 <= i < k ==> (#[trigger] blocks[i]).id != blocks[k].id
}

/// A block is found by its id: the first one that has it; none where no block has.
pub proof fn lemma_found(blocks: Seq<BlockModel>, id: u32)
    ensures
        forall|k: int| #[trigger]
            is_first(blocks, k) && blocks[k].id == id ==> block_with(blocks, id) == Some(blocks[k]),
        (forall|k: int| 0 <= k < blocks.len() ==> (#[trigger] blocks[k]).id != id) ==> block_with(
            blocks,
            id,
        ) is None,
    decreases blocks.len(),
{
    if blocks.len() > 0 {
        let rest = blocks.skip(1);
        lemma_found(rest, id);
        assert forall|k: int| #[trigger] is_first(blocks, k) && blocks[k].id == id implies block_with(
            blocks,
            id,
        ) == Some(blocks[k]) by {
            if k > 0 {
                assert(blocks[0].id != blocks[k].id);
                assert(rest[k - 1] == blocks[k]);
                assert forall|i: int| 0 <= i < k - 1 implies (#[trigger] rest[i]).id != rest[k
                    - 1].id by {
                    assert(rest[i] == blocks[i + 1]);
                }
                assert(is_first(rest, k - 1));
            }
        }
        if forall|k: int| 0 <= k < blocks.len() ==> (#[trigger] blocks[k]).id != id {
            assert(blocks[0].id != id);
            assert forall|k: int| 0 <= k < rest.len() implies (#[trigger] rest[k]).id != id by {
                assert(rest[k] == blocks[k + 1]);
            }
        }
    }
}

/// The condition of a block is that of the branch at its end.
pub proof fn lemma_condition(blocks: Seq<BlockModel>, k: int)
    requires
        is_first(blocks, k),
    ensures
        blocks[k].stmts.len() > 0 ==> (
        blocks[k].stmts.last() matches StmtModel::Branch { cond, true_id, false_id } ==> cond_of(
            blocks,
            blocks[k].id,
        ) == Some(cond)),
        blocks[k].stmts.len() == 0 || !(blocks[k].stmts.last() is Branch) ==> cond_of(
            blocks,
            blocks[k].id,
        ) is None,
{
    lemma_found(blocks, blocks[k].id);
}

/// The lines of the steps that open, close and pass on without a condition.
pub proof fn lemma_plain_steps(cx: Context, em: Emission, id: u32)
    requires
        em.indent > 0,
    ensures
        ({
            let here = em.text + padding(em.indent);
            let out = em.text + padding((em.indent - 1) as nat);
            let jump = cx.step(em, Step::Goto(id));
            let back = cx.step(em, Step::BackEdge);
            let other = cx.step(em, Step::Else);
            let close = cx.step(em, Step::Close);
            &&& jump.text == here + ("goto block_"@ + decimal(id as nat) + ";\n"@) && jump.indent
                == em.indent
            &&& back.text == here + "/* back edge */\n"@ && back.indent == em.indent
            &&& other.text == out + "} else {\n"@ && other.indent == em.indent
            &&& close.text == out + "}\n"@ && close.indent == em.indent - 1
            &&& jump.declared == em.declared && back.declared == em.declared && other.declared
                == em.declared && close.declared == em.declared
        }),
{
    reveal_strlit("goto ");
    reveal_strlit("block_");
    reveal_strlit(";");
    reveal_strlit("\n");
    reveal_strlit("goto block_");
    reveal_strlit(";\n");
    reveal_strlit("/* back edge */");
    reveal_strlit("/* back edge */\n");
    reveal_strlit("} else {");
    reveal_strlit("} else {\n");
    reveal_strlit("}");
    reveal_strlit("}\n");
    let here = em.text + padding(em.indent);
    let out = em.text + padding((em.indent - 1) as nat);
    assert(cx.step(em, Step::Goto(id)).text =~= here + ("goto block_"@ + decimal(id as nat)
        + ";\n"@));
    assert(cx.step(em, Step::BackEdge).text =~= here + "/* back edge */\n"@);
    assert(cx.step(em, Step::Else).text =~= out + "} else {\n"@);
    assert(cx.step(em, Step::Close).text =~= out + "}\n"@);
}

/// What a step under a condition does where it holds.
pub open spec fn consequence(step: Step) -> Seq<char> {
    match step {
        Step::GotoIf { target, .. } => ") { goto block_"@ + decimal(target as nat) + "; }"@,
        Step::ContinueIf { .. } => ") { continue; }"@,
        Step::BreakIf { .. } => ") { break; }"@,
        _ => ") {"@,
    }
}

/// The block whose condition a step asks for, and whether it asks for the opposite.
pub open spec fn asks(step: Step) -> Option<(u32, bool)> {
    match step {
        Step::GotoIf { id, negated, .. } => Some((id, negated)),
        Step::ContinueIf { id, negated } => Some((id, negated)),
        Step::BreakIf { id, negated } => Some((id, negated)),
        Step::If(id) => Some((id, false)),
        _ => None,
    }
}

/// The line of a step under a condition says the condition of its block, or its opposite, and what
/// is done where it holds.
pub proof fn lemma_condition_line(cx: Context, em: Emission, step: Step, cond: Expr) -> (x: Seq<
    char,
>)
    requires
        plain_names(cx.names),
        asks(step) matches Some((id, negated)) && cond_of(cx.blocks, id) == Some(cond),
    ensures
        ({
            let ready = em.declare_all(cx.names, cond);
            let after = cx.step(em, step);
            &&& asks(step) matches Some((id, negated)) && after.text == ready.text + padding(
                ready.indent,
            ) + (if negated {
                "if (!"@
            } else {
                "if ("@
            }) + x + "\n"@
            &&& read(x) == Some((tree(cx.names, cond), consequence(step)))
            &&& after.declared == ready.declared
            &&& after.indent == ready.indent + (if step is If {
                1int
            } else {
                0int
            })
        }),
{
    reveal_strlit(") { goto ");
    reveal_strlit("block_");
    reveal_strlit(") { goto block_");
    reveal_strlit("; }");
    reveal_strlit(") { continue; }");
    reveal_strlit(") { break; }");
    reveal_strlit(") {");
    let x = expr_text(cx.names, cond) + consequence(step);
    lemma_read(cx.names, cond, consequence(step));
    let ready = em.declare_all(cx.names, cond);
    let after = cx.step(em, step);
    if let Step::GotoIf { id, negated, target } = step {
        assert(") { goto "@ + label(target) + "; }"@ =~= consequence(step));
    }
    if let Some((id, negated)) = asks(step) {
        let head = if negated {
            "if (!"@
        } else {
            "if ("@
        };
        assert(after.text =~= ready.text + padding(ready.indent) + head + x + "\n"@);
    }
    x
}

/// A block is written with its statements behind its label, where it has one: it has one if the
/// code jumps there, or control comes from the block before it and it is the first block or one
/// with several predecessors. A loop is opened before its statements.
pub proof fn lemma_block_steps(cx: Context, em: Emission, id: u32, led: bool)
    requires
        em.indent > 0,
    ensures
        ({
            let wanted = cx.labels.contains(id) || led && (cx.analysis.cfg.pred_list(id).len() > 1
                || (if cx.blocks.len() > 0 {
                cx.blocks[0].id == id
            } else {
                id == 0
            }));
            let named = Emission {
                text: if wanted {
                    em.text + padding((em.indent - 1) as nat) + ("block_"@ + decimal(id as nat)
                        + ":\n"@)
                } else {
                    em.text
                },
                ..em
            };
            let opened = Emission {
                text: named.text + padding(em.indent) + "while (1) {\n"@,
                indent: em.indent + 1,
                ..em
            };
            &&& cx.step(em, Step::Block { id, led }) == (match block_with(cx.blocks, id) {
                Some(b) => named.stmts(cx.names, b.stmts),
                None => named,
            })
            &&& cx.step(em, Step::While { id, led }) == (match block_with(cx.blocks, id) {
                Some(b) => opened.stmts(cx.names, b.stmts),
                None => opened,
            })
        }),
{
    reveal_strlit("block_");
    reveal_strlit(":");
    reveal_strlit("\n");
    reveal_strlit(":\n");
    reveal_strlit("while (1) {");
    reveal_strlit("while (1) {\n");
    let named = cx.at_block(em, id, led);
    if cx.labelled(id, led) {
        assert(named.text =~= em.text + padding((em.indent - 1) as nat) + ("block_"@ + decimal(
            id as nat,
        ) + ":\n"@));
    }
    let opened = named.line("while (1) {"@).deeper();
    assert(opened.text =~= named.text + padding(em.indent) + "while (1) {\n"@);
}

/// Statements and steps follow each other in order.
pub proof fn lemma_in_order(cx: Context, em: Emission, stmts: Seq<StmtModel>, steps: Seq<Step>)
    ensures
        em.stmts(cx.names, Seq::empty()) == em,
        stmts.len() > 0 ==> em.stmts(cx.names, stmts) == em.stmts(
            cx.names,
            stmts.drop_last(),
        ).stmt(cx.names, stmts.last()),
        cx.steps(em, Seq::empty()) == em,
        steps.len() > 0 ==> cx.steps(em, steps) == cx.step(
            cx.steps(em, steps.drop_last()),
            steps.last(),
        ),
        padding(0).len() == 0,
        padding(em.indent + 1) == padding(em.indent) + "    "@,
{
}

/// The parameter list: the type and name of each parameter, with commas between them.
pub proof fn lemma_parameter_list(n: nat)
    ensures
        params_text(0).len() == 0,
        params_text(1) == "uint64_t param_rdi"@,
        params_text(2) == params_text(1) + ", uint64_t param_rsi"@,
        params_text(3) == params_text(2) + ", uint64_t param_rdx"@,
        params_text(4) == params_text(3) + ", uint64_t param_rcx"@,
        params_text(5) == params_text(4) + ", uint64_t param_r8"@,
        params_text(6) == params_text(5) + ", uint64_t param_r9"@,
{
    reveal_strlit("uint64_t ");
    reveal_strlit(", ");
    reveal_strlit("param_rdi");
    reveal_strlit("param_rsi");
    reveal_strlit("param_rdx");
    reveal_strlit("param_rcx");
    reveal_strlit("param_r8");
    reveal_strlit("param_r9");
    reveal_strlit("uint64_t param_rdi");
    reveal_strlit(", uint64_t param_rsi");
    reveal_strlit(", uint64_t param_rdx");
    reveal_strlit(", uint64_t param_rcx");
    reveal_strlit(", uint64_t param_r8");
    reveal_strlit(", uint64_t param_r9");
    reveal_with_fuel(params_text, 7);
    assert(params_text(1) =~= "uint64_t param_rdi"@);
    assert(params_text(2) =~= params_text(1) + ", uint64_t param_rsi"@);
    assert(params_text(3) =~= params_text(2) + ", uint64_t param_rdx"@);
    assert(params_text(4) =~= params_text(3) + ", uint64_t param_rcx"@);
    assert(params_text(5) =~= params_text(4) + ", uint64_t param_r8"@);
    assert(params_text(6) =~= params_text(5) + ", uint64_t param_r9"@);
}

/// A function: its type, its name as a C identifier and its parameters; one level deeper the steps
/// of its structure, with its parameters declared and named; and a closing brace.
pub proof fn lemma_function_layout(
    func: FunctionModel,
    analysis: FunctionAnalysis,
    funcs: Map<u64, Seq<char>>,
)
    ensures
        ({
            let regs = param_regs(func.blocks);
            let plan = plan_of(func.blocks, analysis);
            let first = Emission {
                text: "uint64_t "@ + sanitize(func.name) + "("@ + params_text(regs.len())
                    + ") {\n"@,
                indent: 1,
                declared: regs.to_set(),
            };
            let cx = Context {
                names: Names { params: param_names(regs), funcs },
                blocks: func.blocks,
                analysis,
                labels: targets(plan),
            };
            function_text(func, analysis, funcs) == cx.steps(first, plan).text + "}\n"@
        }),
{
    reveal_strlit("}");
    reveal_strlit("\n");
    reveal_strlit("}\n");
    let body = function_body(func, analysis, funcs);
    assert(body.text + padding(0) + "}"@ + "\n"@ =~= body.text + "}\n"@);
}

/// A name as a C identifier: letters, digits and underscores stay, anything else becomes an
/// underscore.
pub proof fn lemma_identifier(name: Seq<char>)
    ensures
        sanitize(name).len() == name.len(),
        forall|i: int|
            0 <= i < name.len() ==> #[trigger] sanitize(name)[i] == (if alphanumeric(name[i])
                || name[i] == '_' {
                name[i]
            } else {
                '_'
            }),
{
}

proof fn lemma_definitions_more(
    funcs: Seq<FunctionModel>,
    analyses: Seq<FunctionAnalysis>,
    a: FunctionAnalysis,
    names: Map<u64, Seq<char>>,
)
    requires
        funcs.len() <= analyses.len(),
    ensures
        definitions(funcs, analyses.push(a), names) == definitions(funcs, analyses, names),
    decreases funcs.len(),
{
    if funcs.len() > 0 {
        lemma_definitions_more(funcs.drop_last(), analyses, a, names);
        assert(analyses.push(a)[funcs.len() - 1] == analyses[funcs.len() - 1]);
    }
}

/// The file: a remark and the headers, a declaration for each function in order, an empty line, and
/// the code of each function in order with an empty line behind it.
pub proof fn lemma_file_layout(
    funcs: Seq<FunctionModel>,
    analyses: Seq<FunctionAnalysis>,
    names: Map<u64, Seq<char>>,
    f: FunctionModel,
    a: FunctionAnalysis,
)
    requires
        funcs.len() == analyses.len(),
    ensures
        file_text(funcs, analyses, names)
            == "/* Generated by simple-decompiler */\n#include <stdint.h>\n#include <stddef.h>\n\n"@
            + declarations(funcs) + "\n"@ + definitions(funcs, analyses, names),
        declarations(Seq::empty()).len() == 0,
        declarations(funcs.push(f)) == declarations(funcs) + ("uint64_t "@ + sanitize(f.name)
            + "();\n"@),
        definitions(Seq::empty(), Seq::empty(), names).len() == 0,
        definitions(funcs.push(f), analyses.push(a), names) == definitions(funcs, analyses, names)
            + function_text(f, a, names) + "\n"@,
{
    assert(funcs.push(f).drop_last() =~= funcs);
    lemma_definitions_more(funcs, analyses, a, names);
    assert(analyses.push(a)[funcs.len() as int] == a);
}

/// Every walk from `a` that ends where no edge leaves meets `j`.
pub open spec fn always_met(g: Graph, a: u32, j: u32) -> bool {
    forall|p: Seq<u32>|
        #[trigger] g.is_path(p) && p[0] == a && (forall|b: u32| !#[trigger] g.edge(p.last(), b))
            ==> p.contains(j)
}

/// Two branches can join at `j`: both lead there, and neither ends without it.
pub open spec fn can_join(g: Graph, a: u32, b: u32, j: u32) -> bool {
    reaches(g, a, j) && reaches(g, b, j) && always_met(g, a, j) && always_met(g, b, j)
}

proof fn lemma_always_met(g: Graph, a: u32, j: u32)
    ensures
        post_dominates(g, j, a) <==> always_met(g, a, j),
{
    if post_dominates(g, j, a) {
        assert forall|p: Seq<u32>|
            #[trigger] g.is_path(p) && p[0] == a && (forall|b: u32| !#[trigger]
                g.edge(p.last(), b)) implies p.contains(j) by {
            assert(!ends_without(g, p, a, j));
        }
    }
    if always_met(g, a, j) {
        assert forall|p: Seq<u32>| !#[trigger] ends_without(g, p, a, j) by {
            if ends_without(g, p, a, j) {
                assert(g.is_path(p));
            }
        }
    }
}

/// Two branches join at the first block of the order at which they can; nowhere where there is
/// none.
pub proof fn lemma_first_join(g: Graph, order: Seq<u32>, a: u32, b: u32) -> (k: int)
    ensures
        join_of(g, order, a, b) matches Some(j) ==> {
            &&& 0 <= k < order.len() && order[k] == j && can_join(g, a, b, j)
            &&& forall|i: int| 0 <= i < k ==> !can_join(g, a, b, #[trigger] order[i])
        },
        join_of(g, order, a, b) is None ==> forall|i: int|
            0 <= i < order.len() ==> !can_join(g, a, b, #[trigger] order[i]),
    decreases order.len(),
{
    if order.len() == 0 {
        0
    } else {
        lemma_always_met(g, a, order[0]);
        lemma_always_met(g, b, order[0]);
        if can_join(g, a, b, order[0]) {
            0
        } else {
            let rest = order.skip(1);
            let k = lemma_first_join(g, rest, a, b);
            if join_of(g, order, a, b) is Some {
                assert(rest[k] == order[k + 1]);
                assert forall|i: int| 0 <= i < k + 1 implies !can_join(
                    g,
                    a,
                    b,
                    #[trigger] order[i],
                ) by {
                    if i > 0 {
                        assert(rest[i - 1] == order[i]);
                    }
                }
            } else {
                assert forall|i: int| 0 <= i < order.len() implies !can_join(
                    g,
                    a,
                    b,
                    #[trigger] order[i],
                ) by {
                    if i > 0 {
                        assert(rest[i - 1] == order[i]);
                    }
                }
            }
            k + 1
        }
    }
}

} // verus!

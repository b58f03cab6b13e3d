//! What holds of all C code that is generated.
use vstd::prelude::*;

use super::model::{
    block_with, cond_of, expr_text, goto, join_of, label, post_dominates, sanitize, test_text,
    Context, Emission, Names,
};
use super::plan::Step;
use crate::analysis::graph::{reaches, Graph};
use crate::ir::reads::{regs_of, regs_of_all};
use crate::ir::{BlockModel, Expr, StmtModel, VReg, Width};
use crate::text::alphanumeric;

verus! {

/// The registers that the text of a statement mentions. A jump or a branch has no text of its own.
pub open spec fn mentioned(s: StmtModel) -> Set<u32> {
    match s {
        StmtModel::Assign(dst, e) => regs_of(e).insert(dst.0),
        StmtModel::Store { addr, val, .. } => regs_of(addr).union(regs_of(val)),
        StmtModel::Call { dst, func, args } => {
            let read = regs_of(func).union(regs_of_all(args));
            match dst {
                Some(d) => read.insert(d.0),
                None => read,
            }
        },
        StmtModel::Return(Some(e)) => regs_of(e),
        StmtModel::IndirectJump(e) => regs_of(e),
        _ => Set::empty(),
    }
}

/// The second emission goes on from the first: text and declarations are kept.
pub open spec fn goes_on(a: Emission, b: Emission) -> bool {
    a.text.is_prefix_of(b.text) && a.declared.subset_of(b.declared)
}

pub proof fn lemma_goes_on_trans(a: Emission, b: Emission, c: Emission)
    requires
        goes_on(a, b),
        goes_on(b, c),
    ensures
        goes_on(a, c),
{
    assert(a.text =~= c.text.subrange(0, a.text.len() as int)) by {
        assert forall|i: int| 0 <= i < a.text.len() implies a.text[i] == c.text[i] by {
            assert(a.text[i] == b.text[i]);
            assert(b.text[i] == c.text[i]);
        }
    }
}

proof fn lemma_line_goes_on(em: Emission, content: Seq<char>)
    ensures
        goes_on(em, em.line(content)),
{
    assert(em.text =~= em.line(content).text.subrange(0, em.text.len() as int));
}

proof fn lemma_declare_goes_on(em: Emission, names: Names, vr: VReg, w: Width)
    ensures
        goes_on(em, em.declare(names, vr, w)),
        em.declare(names, vr, w).declared.contains(vr.0),
{
    lemma_line_goes_on(em, w.c_name() + " "@ + names.reg(vr) + ";"@);
    assert(em.text =~= em.text.subrange(0, em.text.len() as int));
}

/// After its declarations every register of an expression is declared.
pub proof fn lemma_declares_expr(em: Emission, names: Names, e: Expr)
    ensures
        goes_on(em, em.declare_all(names, e)),
        regs_of(e).subset_of(em.declare_all(names, e).declared),
    decreases e,
{
    match e {
        Expr::Reg(vr, w) => {
            lemma_declare_goes_on(em, names, vr, w);
        },
        Expr::BinOp(_, l, r) => {
            let mid = em.declare_all(names, *l);
            lemma_declares_expr(em, names, *l);
            lemma_declares_expr(mid, names, *r);
            lemma_goes_on_trans(em, mid, mid.declare_all(names, *r));
        },
        Expr::UnOp(_, inner) => {
            lemma_declares_expr(em, names, *inner);
        },
        Expr::Load(addr, _) => {
            lemma_declares_expr(em, names, *addr);
        },
        _ => {
            assert(em.text =~= em.text.subrange(0, em.text.len() as int));
        },
    }
}

proof fn lemma_declares_exprs(em: Emission, names: Names, es: Seq<Expr>)
    ensures
        goes_on(em, em.declare_each(names, es)),
        regs_of_all(es).subset_of(em.declare_each(names, es).declared),
    decreases es.len(),
{
    if es.len() == 0 {
        assert(em.text =~= em.text.subrange(0, em.text.len() as int));
    } else {
        let mid = em.declare_each(names, es.drop_last());
        lemma_declares_exprs(em, names, es.drop_last());
        lemma_declares_expr(mid, names, es.last());
        lemma_goes_on_trans(em, mid, mid.declare_all(names, es.last()));
    }
}

/// A statement leaves the text before it and the declarations as they are, and every register that
/// it mentions is declared.
pub proof fn lemma_declares_stmt(em: Emission, names: Names, s: StmtModel)
    ensures
        goes_on(em, em.stmt(names, s)),
        mentioned(s).subset_of(em.stmt(names, s).declared),
{
    assert(em.text =~= em.text.subrange(0, em.text.len() as int));
    match s {
        StmtModel::Assign(dst, e) => {
            let a = em.declare(names, dst, e.value_width());
            let b = a.declare_all(names, e);
            lemma_declare_goes_on(em, names, dst, e.value_width());
            lemma_declares_expr(a, names, e);
            lemma_goes_on_trans(em, a, b);
            lemma_line_goes_on(b, names.reg(dst) + " = "@ + expr_text(names, e) + ";"@);
            lemma_goes_on_trans(em, b, em.stmt(names, s));
        },
        StmtModel::Store { addr, val, width } => {
            let a = em.declare_all(names, addr);
            let b = a.declare_all(names, val);
            lemma_declares_expr(em, names, addr);
            lemma_declares_expr(a, names, val);
            lemma_goes_on_trans(em, a, b);
            lemma_line_goes_on(
                b,
                "*("@ + width.c_name() + " *)"@ + expr_text(names, addr) + " = "@ + expr_text(
                    names,
                    val,
                ) + ";"@,
            );
            lemma_goes_on_trans(em, b, em.stmt(names, s));
        },
        StmtModel::Call { dst, func, args } => {
            let a = em.declare_all(names, func);
            let b = a.declare_each(names, args);
            lemma_declares_expr(em, names, func);
            lemma_declares_exprs(a, names, args);
            lemma_goes_on_trans(em, a, b);
            let call = expr_text(names, func) + "("@ + super::model::args_text(names, args)
                + ")"@;
            match dst {
                Some(d) => {
                    let c = b.declare(names, d, Width::W64);
                    lemma_declare_goes_on(b, names, d, Width::W64);
                    lemma_goes_on_trans(em, b, c);
                    lemma_line_goes_on(c, names.reg(d) + " = "@ + call + ";"@);
                    lemma_goes_on_trans(em, c, em.stmt(names, s));
                },
                None => {
                    lemma_line_goes_on(b, call + ";"@);
                    lemma_goes_on_trans(em, b, em.stmt(names, s));
                },
            }
        },
        StmtModel::Return(Some(e)) => {
            let a = em.declare_all(names, e);
            lemma_declares_expr(em, names, e);
            lemma_line_goes_on(a, "return "@ + expr_text(names, e) + ";"@);
            lemma_goes_on_trans(em, a, em.stmt(names, s));
        },
        StmtModel::Return(None) => {
            lemma_line_goes_on(em, "return;"@);
        },
        StmtModel::IndirectJump(e) => {
            let a = em.declare_all(names, e);
            lemma_declares_expr(em, names, e);
            lemma_line_goes_on(a, "goto *((void *)"@ + expr_text(names, e) + ");"@);
            lemma_goes_on_trans(em, a, em.stmt(names, s));
        },
        StmtModel::Unhandled(what) => {
            lemma_line_goes_on(em, "/* unhandled: "@ + what + " */"@);
        },
        _ => {},
    }
}

/// Some block has the id.
pub open spec fn has_block(blocks: Seq<BlockModel>, id: u32) -> bool {
    exists|i: int| 0 <= i < blocks.len() && (#[trigger] blocks[i]).id == id
}

pub proof fn lemma_block_with(blocks: Seq<BlockModel>, id: u32)
    ensures
        block_with(blocks, id) is Some <==> has_block(blocks, id),
        block_with(blocks, id) matches Some(b) ==> b.id == id,
    decreases blocks.len(),
{
    if blocks.len() > 0 {
        let rest = blocks.skip(1);
        lemma_block_with(rest, id);
        if blocks[0].id == id {
            assert(has_block(blocks, id));
        } else {
            if has_block(rest, id) {
                let i = choose|i: int| 0 <= i < rest.len() && (#[trigger] rest[i]).id == id;
                assert(blocks[i + 1].id == id);
            }
            if has_block(blocks, id) {
                let i = choose|i: int| 0 <= i < blocks.len() && (#[trigger] blocks[i]).id == id;
                assert(rest[i - 1].id == id);
            }
        }
    }
}

proof fn lemma_level_declare_all(em: Emission, names: Names, e: Expr)
    ensures
        em.declare_all(names, e).indent == em.indent,
    decreases e,
{
    match e {
        Expr::BinOp(_, l, r) => {
            lemma_level_declare_all(em, names, *l);
            lemma_level_declare_all(em.declare_all(names, *l), names, *r);
        },
        Expr::UnOp(_, inner) => {
            lemma_level_declare_all(em, names, *inner);
        },
        Expr::Load(addr, _) => {
            lemma_level_declare_all(em, names, *addr);
        },
        _ => {},
    }
}

proof fn lemma_level_declare_each(em: Emission, names: Names, es: Seq<Expr>)
    ensures
        em.declare_each(names, es).indent == em.indent,
    decreases es.len(),
{
    if es.len() > 0 {
        lemma_level_declare_each(em, names, es.drop_last());
        lemma_level_declare_all(em.declare_each(names, es.drop_last()), names, es.last());
    }
}

proof fn lemma_level_stmt(em: Emission, names: Names, s: StmtModel)
    ensures
        em.stmt(names, s).indent == em.indent,
{
    match s {
        StmtModel::Assign(dst, e) => {
            lemma_level_declare_all(em.declare(names, dst, e.value_width()), names, e);
        },
        StmtModel::Store { addr, val, width } => {
            lemma_level_declare_all(em, names, addr);
            lemma_level_declare_all(em.declare_all(names, addr), names, val);
        },
        StmtModel::Call { dst, func, args } => {
            lemma_level_declare_all(em, names, func);
            lemma_level_declare_each(em.declare_all(names, func), names, args);
        },
        StmtModel::Return(Some(e)) => {
            lemma_level_declare_all(em, names, e);
        },
        StmtModel::IndirectJump(e) => {
            lemma_level_declare_all(em, names, e);
        },
        _ => {},
    }
}

proof fn lemma_level_stmts(em: Emission, names: Names, stmts: Seq<StmtModel>)
    ensures
        em.stmts(names, stmts).indent == em.indent,
    decreases stmts.len(),
{
    if stmts.len() > 0 {
        lemma_level_stmts(em, names, stmts.drop_last());
        lemma_level_stmt(em.stmts(names, stmts.drop_last()), names, stmts.last());
    }
}

pub proof fn lemma_level_body(cx: Context, em: Emission, id: u32)
    ensures
        cx.body(em, id).indent == em.indent,
{
    if let Some(block) = block_with(cx.blocks, id) {
        lemma_level_stmts(em, cx.names, block.stmts);
    }
}

pub proof fn lemma_level_test(
    cx: Context,
    em: Emission,
    id: u32,
    negated: bool,
    rest: Seq<char>,
)
    ensures
        cx.test(em, id, negated, rest).indent == em.indent,
{
    if let Some(cond) = cond_of(cx.blocks, id) {
        lemma_level_declare_all(em, cx.names, cond);
    }
}

/// The join of two branches can be reached from both and post-dominates both.
pub proof fn lemma_join(g: Graph, order: Seq<u32>, a: u32, b: u32)
    ensures
        join_of(g, order, a, b) matches Some(j) ==> reaches(g, a, j) && reaches(g, b, j)
            && post_dominates(g, j, a) && post_dominates(g, j, b) && order.contains(j),
    decreases order.len(),
{
    if order.len() > 0 {
        lemma_join(g, order.skip(1), a, b);
        assert(order.contains(order[0]));
        if let Some(j) = join_of(g, order.skip(1), a, b) {
            let i = choose|i: int| 0 <= i < order.skip(1).len() && order.skip(1)[i] == j;
            assert(order[i + 1] == j);
        }
    }
}

proof fn lemma_goes_on_refl(em: Emission)
    ensures
        goes_on(em, em),
        goes_on(em, em.deeper()),
        goes_on(em, em.shallower()),
{
    assert(em.text =~= em.text.subrange(0, em.text.len() as int));
}

proof fn lemma_stmts_go_on(em: Emission, names: Names, stmts: Seq<StmtModel>)
    ensures
        goes_on(em, em.stmts(names, stmts)),
    decreases stmts.len(),
{
    lemma_goes_on_refl(em);
    if stmts.len() > 0 {
        let mid = em.stmts(names, stmts.drop_last());
        lemma_stmts_go_on(em, names, stmts.drop_last());
        lemma_declares_stmt(mid, names, stmts.last());
        lemma_goes_on_trans(em, mid, em.stmts(names, stmts));
    }
}

proof fn lemma_body_goes_on(cx: Context, em: Emission, id: u32)
    ensures
        goes_on(em, cx.body(em, id)),
{
    lemma_goes_on_refl(em);
    if let Some(block) = block_with(cx.blocks, id) {
        lemma_stmts_go_on(em, cx.names, block.stmts);
    }
}

proof fn lemma_test_goes_on(cx: Context, em: Emission, id: u32, negated: bool, rest: Seq<char>)
    ensures
        goes_on(em, cx.test(em, id, negated, rest)),
{
    lemma_goes_on_refl(em);
    if let Some(cond) = cond_of(cx.blocks, id) {
        let mid = em.declare_all(cx.names, cond);
        lemma_declares_expr(em, cx.names, cond);
        lemma_line_goes_on(mid, test_text(negated) + expr_text(cx.names, cond) + rest);
        lemma_goes_on_trans(em, mid, cx.test(em, id, negated, rest));
    }
}

proof fn lemma_label_goes_on(cx: Context, em: Emission, id: u32, led: bool)
    ensures
        goes_on(em, cx.at_block(em, id, led)),
{
    lemma_goes_on_refl(em);
    lemma_line_goes_on(em.shallower(), label(id) + ":"@);
    lemma_goes_on_trans(em, em.shallower(), em.shallower().line(label(id) + ":"@));
}

proof fn lemma_step_goes_on(cx: Context, em: Emission, step: Step)
    ensures
        goes_on(em, cx.step(em, step)),
{
    let last = cx.step(em, step);
    match step {
        Step::Block { id, led } => {
            let at = cx.at_block(em, id, led);
            lemma_label_goes_on(cx, em, id, led);
            lemma_body_goes_on(cx, at, id);
            lemma_goes_on_trans(em, at, last);
        },
        Step::While { id, led } => {
            let at = cx.at_block(em, id, led);
            let open = at.line("while (1) {"@).deeper();
            lemma_label_goes_on(cx, em, id, led);
            lemma_line_goes_on(at, "while (1) {"@);
            lemma_goes_on_trans(em, at, open);
            lemma_body_goes_on(cx, open, id);
            lemma_goes_on_trans(em, open, last);
        },
        Step::BackEdge => lemma_line_goes_on(em, "/* back edge */"@),
        Step::Goto(id) => lemma_line_goes_on(em, goto(id)),
        Step::GotoIf { id, negated, target } => {
            lemma_test_goes_on(cx, em, id, negated, ") { goto "@ + label(target) + "; }"@);
        },
        Step::ContinueIf { id, negated } => {
            lemma_test_goes_on(cx, em, id, negated, ") { continue; }"@);
        },
        Step::BreakIf { id, negated } => {
            lemma_test_goes_on(cx, em, id, negated, ") { break; }"@);
        },
        Step::If(id) => {
            lemma_test_goes_on(cx, em, id, false, ") {"@);
        },
        Step::Else => {
            lemma_goes_on_refl(em);
            lemma_line_goes_on(em.shallower(), "} else {"@);
            lemma_goes_on_trans(em, em.shallower(), last);
        },
        Step::Close => {
            lemma_goes_on_refl(em);
            lemma_line_goes_on(em.shallower(), "}"@);
            lemma_goes_on_trans(em, em.shallower(), last);
        },
    }
}

/// The steps of the structure leave the text before them and the declarations as they are.
pub proof fn lemma_steps_go_on(cx: Context, em: Emission, steps: Seq<Step>)
    ensures
        goes_on(em, cx.steps(em, steps)),
    decreases steps.len(),
{
    lemma_goes_on_refl(em);
    if steps.len() > 0 {
        let mid = cx.steps(em, steps.drop_last());
        lemma_steps_go_on(cx, em, steps.drop_last());
        lemma_step_goes_on(cx, mid, steps.last());
        lemma_goes_on_trans(em, mid, cx.steps(em, steps));
    }
}

proof fn lemma_declared_stays(em: Emission, names: Names, e: Expr)
    requires
        regs_of(e).subset_of(em.declared),
    ensures
        em.declare_all(names, e) == em,
    decreases e,
{
    match e {
        Expr::BinOp(_, l, r) => {
            assert(regs_of(*l).subset_of(regs_of(e)));
            assert(regs_of(*r).subset_of(regs_of(e)));
            lemma_declared_stays(em, names, *l);
            lemma_declared_stays(em, names, *r);
        },
        Expr::UnOp(_, inner) => {
            lemma_declared_stays(em, names, *inner);
        },
        Expr::Load(addr, _) => {
            lemma_declared_stays(em, names, *addr);
        },
        Expr::Reg(vr, _) => {
            assert(regs_of(e).contains(vr.0));
        },
        _ => {},
    }
}

/// An expression that is written a second time needs no further declaration.
pub proof fn lemma_declared_once(em: Emission, names: Names, e: Expr)
    ensures
        em.declare_all(names, e).declare_all(names, e) == em.declare_all(names, e),
{
    lemma_declares_expr(em, names, e);
    lemma_declared_stays(em.declare_all(names, e), names, e);
}

/// A name as a C identifier has as many characters as the name, all of them letters, digits or
/// underscores, and is its own C identifier.
pub proof fn lemma_sanitize(name: Seq<char>)
    ensures
        sanitize(name).len() == name.len(),
        forall|i: int|
            0 <= i < name.len() ==> alphanumeric(#[trigger] sanitize(name)[i]) || sanitize(name)[i]
                == '_',
        sanitize(sanitize(name)) == sanitize(name),
{
    assert(sanitize(sanitize(name)) =~= sanitize(name));
}

} // verus!

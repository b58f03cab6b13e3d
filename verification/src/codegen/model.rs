//! What the C code of a function is: the text that each statement, block and region gives.
use vstd::prelude::*;

use super::plan::{targets, Shape, Step};
use crate::analysis::graph::{reaches, Graph};
use crate::analysis::FunctionAnalysis;
use crate::ir::{BinOp, BlockModel, Expr, FunctionModel, StmtModel, UnOp, VReg, Width};
use crate::text::{alphanumeric, decimal, hexadecimal, signed_decimal};

verus! {

/// The names that expressions refer to: those of parameters and those of functions.
#[verifier::ext_equal]
pub ghost struct Names {
    pub params: Map<u32, Seq<char>>,
    pub funcs: Map<u64, Seq<char>>,
}

impl Names {
    /// The C name of a register: that of a parameter, or `v` and the number.
    pub open spec fn reg(self, vr: VReg) -> Seq<char> {
        if self.params.contains_key(vr.0) {
            self.params[vr.0]
        } else {
            vr.name()
        }
    }

    /// The C name of an address: that of the function there, or the number.
    pub open spec fn addr(self, a: u64) -> Seq<char> {
        if self.funcs.contains_key(a) {
            self.funcs[a]
        } else {
            "0x"@ + hexadecimal(a as nat) + "ULL"@
        }
    }
}

/// How far the emission has come: the text so far, the indentation, the registers declared.
#[verifier::ext_equal]
pub ghost struct Emission {
    pub text: Seq<char>,
    pub indent: nat,
    pub declared: Set<u32>,
}

/// Four blanks for each level.
pub open spec fn padding(levels: nat) -> Seq<char>
    decreases levels,
{
    if levels == 0 {
        Seq::empty()
    } else {
        padding((levels - 1) as nat) + "    "@
    }
}

impl Emission {
    /// After one more line.
    pub open spec fn line(self, content: Seq<char>) -> Emission {
        Emission { text: self.text + padding(self.indent) + content + "\n"@, ..self }
    }

    /// One level deeper.
    pub open spec fn deeper(self) -> Emission {
        Emission { indent: self.indent + 1, ..self }
    }

    /// One level less deep; the outermost level stays.
    pub open spec fn shallower(self) -> Emission {
        Emission {
            indent: if self.indent > 0 {
                (self.indent - 1) as nat
            } else {
                0
            },
            ..self
        }
    }

    /// After the declaration of a register, where it has not been declared before.
    pub open spec fn declare(self, names: Names, vr: VReg, w: Width) -> Emission {
        if self.declared.contains(vr.0) {
            self
        } else {
            Emission {
                declared: self.declared.insert(vr.0),
                ..self.line(w.c_name() + " "@ + names.reg(vr) + ";"@)
            }
        }
    }

    /// After the declarations of the registers of an expression, from left to right.
    pub open spec fn declare_all(self, names: Names, e: Expr) -> Emission
        decreases e,
    {
        match e {
            Expr::Reg(vr, w) => self.declare(names, vr, w),
            Expr::BinOp(_, l, r) => self.declare_all(names, *l).declare_all(names, *r),
            Expr::UnOp(_, inner) => self.declare_all(names, *inner),
            Expr::Load(addr, _) => self.declare_all(names, *addr),
            Expr::Const(..) => self,
            Expr::StackSlot(..) => self,
            Expr::Addr(_) => self,
        }
    }

    /// After the declarations of the registers of several expressions.
    pub open spec fn declare_each(self, names: Names, es: Seq<Expr>) -> Emission
        decreases es.len(),
    {
        if es.len() == 0 {
            self
        } else {
            self.declare_each(names, es.drop_last()).declare_all(names, es.last())
        }
    }

    /// After a statement. A jump or a branch gives no text of its own.
    pub open spec fn stmt(self, names: Names, s: StmtModel) -> Emission {
        match s {
            StmtModel::Nop => self,
            StmtModel::Jump(_) => self,
            StmtModel::Branch { .. } => self,
            StmtModel::Assign(dst, e) => self.declare(names, dst, e.value_width()).declare_all(
                names,
                e,
            ).line(names.reg(dst) + " = "@ + expr_text(names, e) + ";"@),
            StmtModel::Store { addr, val, width } => self.declare_all(names, addr).declare_all(
                names,
                val,
            ).line(
                "*("@ + width.c_name() + " *)"@ + expr_text(names, addr) + " = "@ + expr_text(
                    names,
                    val,
                ) + ";"@,
            ),
            StmtModel::Call { dst, func, args } => {
                let ready = self.declare_all(names, func).declare_each(names, args);
                let call = expr_text(names, func) + "("@ + args_text(names, args) + ")"@;
                match dst {
                    Some(d) => ready.declare(names, d, Width::W64).line(
                        names.reg(d) + " = "@ + call + ";"@,
                    ),
                    None => ready.line(call + ";"@),
                }
            },
            StmtModel::Return(Some(e)) => self.declare_all(names, e).line(
                "return "@ + expr_text(names, e) + ";"@,
            ),
            StmtModel::Return(None) => self.line("return;"@),
            StmtModel::IndirectJump(e) => self.declare_all(names, e).line(
                "goto *((void *)"@ + expr_text(names, e) + ");"@,
            ),
            StmtModel::Unhandled(what) => self.line("/* unhandled: "@ + what + " */"@),
        }
    }

    /// After the statements of a block.
    pub open spec fn stmts(self, names: Names, stmts: Seq<StmtModel>) -> Emission
        decreases stmts.len(),
    {
        if stmts.len() == 0 {
            self
        } else {
            self.stmts(names, stmts.drop_last()).stmt(names, stmts.last())
        }
    }
}

/// The C text of an expression.
pub open spec fn expr_text(names: Names, e: Expr) -> Seq<char>
    decreases e,
{
    match e {
        Expr::Const(v, w) => signed_decimal(v as int) + (match w {
            Width::W64 => "ULL"@,
            Width::W32 => "U"@,
            Width::W16 => ""@,
            Width::W8 => ""@,
        }),
        Expr::Reg(vr, _) => names.reg(vr),
        Expr::BinOp(op, l, r) => binop_text(
            op,
            l.value_width(),
            expr_text(names, *l),
            expr_text(names, *r),
        ),
        Expr::UnOp(op, inner) => unop_text(op, expr_text(names, *inner)),
        Expr::Load(addr, w) => "(*("@ + w.c_name() + " *)"@ + expr_text(names, *addr) + ")"@,
        Expr::StackSlot(off, _) => if off > 0 {
            "local_"@ + decimal(off as nat)
        } else {
            "arg_"@ + decimal((-off) as nat)
        },
        Expr::Addr(a) => names.addr(a),
    }
}

/// The C text of a binary operation on operands of the given width. Signed operations cast their
/// operands; an arithmetic shift casts the left one.
pub open spec fn binop_text(op: BinOp, w: Width, l: Seq<char>, r: Seq<char>) -> Seq<char> {
    match op {
        BinOp::SDiv | BinOp::SMod | BinOp::Slt | BinOp::Sle => "(("@ + w.c_name_signed() + ")"@ + l
            + " "@ + op.c_op() + " ("@ + w.c_name_signed() + ")"@ + r + ")"@,
        BinOp::AShr => "(("@ + w.c_name_signed() + ")"@ + l + " >> "@ + r + ")"@,
        _ => "("@ + l + " "@ + op.c_op() + " "@ + r + ")"@,
    }
}

/// The C text of a unary operation.
pub open spec fn unop_text(op: UnOp, inner: Seq<char>) -> Seq<char> {
    match op {
        UnOp::Neg => "(-"@ + inner + ")"@,
        UnOp::Not => "(~"@ + inner + ")"@,
        UnOp::ZExt(w) => "(("@ + w.c_name() + ")"@ + inner + ")"@,
        UnOp::SExt(w) => "(("@ + w.c_name_signed() + ")"@ + inner + ")"@,
        UnOp::Trunc(w) => "(("@ + w.c_name() + ")"@ + inner + ")"@,
    }
}

/// The C text of an argument list.
pub open spec fn args_text(names: Names, args: Seq<Expr>) -> Seq<char>
    decreases args.len(),
{
    if args.len() == 0 {
        Seq::empty()
    } else if args.len() == 1 {
        expr_text(names, args[0])
    } else {
        args_text(names, args.drop_last()) + ", "@ + expr_text(names, args.last())
    }
}

/// The first block with the given id.
pub open spec fn block_with(blocks: Seq<BlockModel>, id: u32) -> Option<BlockModel>
    decreases blocks.len(),
{
    if blocks.len() == 0 {
        None
    } else if blocks[0].id == id {
        Some(blocks[0])
    } else {
        block_with(blocks.skip(1), id)
    }
}

/// The id of the first block, or 0 where there is none.
pub open spec fn entry_of(blocks: Seq<BlockModel>) -> u32 {
    if blocks.len() > 0 {
        blocks[0].id
    } else {
        0
    }
}

/// No edge leaves the node.
pub open spec fn is_end(g: Graph, a: u32) -> bool {
    forall|b: u32| !#[trigger] g.edge(a, b)
}

/// `p` leads from `a` to a node that no edge leaves, and does not pass through `j`.
pub open spec fn ends_without(g: Graph, p: Seq<u32>, a: u32, j: u32) -> bool {
    g.is_path(p) && p[0] == a && is_end(g, p.last()) && !p.contains(j)
}

/// Every path from `a` to a node that no edge leaves passes through `j`.
pub open spec fn post_dominates(g: Graph, j: u32, a: u32) -> bool {
    forall|p: Seq<u32>| !#[trigger] ends_without(g, p, a, j)
}

/// Where two branches join: the first node of the list that both nodes reach and that
/// post-dominates both.
pub open spec fn join_of(g: Graph, order: Seq<u32>, a: u32, b: u32) -> Option<u32>
    decreases order.len(),
{
    if order.len() == 0 {
        None
    } else if reaches(g, a, order[0]) && reaches(g, b, order[0]) && post_dominates(g, order[0], a)
        && post_dominates(g, order[0], b) {
        Some(order[0])
    } else {
        join_of(g, order.skip(1), a, b)
    }
}

/// What stays the same while a function is emitted. `labels` are the blocks to whose labels the
/// code jumps.
pub ghost struct Context {
    pub names: Names,
    pub blocks: Seq<BlockModel>,
    pub analysis: FunctionAnalysis,
    pub labels: Set<u32>,
}

/// The label of a block.
pub open spec fn label(id: u32) -> Seq<char> {
    "block_"@ + decimal(id as nat)
}

/// A jump to the label of a block.
pub open spec fn goto(id: u32) -> Seq<char> {
    "goto "@ + label(id) + ";"@
}

/// The condition of the branch at the end of a block.
pub open spec fn cond_of(blocks: Seq<BlockModel>, id: u32) -> Option<Expr> {
    match block_with(blocks, id) {
        Some(block) => match block.terminator() {
            Some(StmtModel::Branch { cond, true_id, false_id }) => Some(cond),
            _ => None,
        },
        None => None,
    }
}

/// The opening of a condition.
pub open spec fn test_text(negated: bool) -> Seq<char> {
    if negated {
        "if (!"@
    } else {
        "if ("@
    }
}

impl Context {
    /// A block that control can come to from several places, and the first block, has a label where
    /// it does not begin a region; a block to which the code jumps has one anyway.
    pub open spec fn labelled(self, id: u32, led: bool) -> bool {
        self.labels.contains(id) || (led && (self.analysis.cfg.pred_list(id).len() > 1 || id
            == entry_of(self.blocks)))
    }

    /// After the label of a block, where it gets one. The label stands one level less deep.
    pub open spec fn at_block(self, em: Emission, id: u32, led: bool) -> Emission {
        if self.labelled(id, led) {
            em.shallower().line(label(id) + ":"@).deeper()
        } else {
            em
        }
    }

    /// After the statements of a block.
    pub open spec fn body(self, em: Emission, id: u32) -> Emission {
        match block_with(self.blocks, id) {
            Some(block) => em.stmts(self.names, block.stmts),
            None => em,
        }
    }

    /// After a line with the condition of a block, after the declarations that it needs.
    pub open spec fn test(
        self,
        em: Emission,
        id: u32,
        negated: bool,
        rest: Seq<char>,
    ) -> Emission {
        match cond_of(self.blocks, id) {
            Some(cond) => em.declare_all(self.names, cond).line(
                test_text(negated) + expr_text(self.names, cond) + rest,
            ),
            None => em,
        }
    }

    /// After one step of the structure.
    pub open spec fn step(self, em: Emission, step: Step) -> Emission {
        match step {
            Step::Block { id, led } => self.body(self.at_block(em, id, led), id),
            Step::While { id, led } => self.body(
                self.at_block(em, id, led).line("while (1) {"@).deeper(),
                id,
            ),
            Step::BackEdge => em.line("/* back edge */"@),
            Step::Goto(id) => em.line(goto(id)),
            Step::GotoIf { id, negated, target } => self.test(
                em,
                id,
                negated,
                ") { goto "@ + label(target) + "; }"@,
            ),
            Step::ContinueIf { id, negated } => self.test(em, id, negated, ") { continue; }"@),
            Step::BreakIf { id, negated } => self.test(em, id, negated, ") { break; }"@),
            Step::If(id) => self.test(em, id, false, ") {"@).deeper(),
            Step::Else => em.shallower().line("} else {"@).deeper(),
            Step::Close => em.shallower().line("}"@),
        }
    }

    /// After the steps of the structure.
    pub open spec fn steps(self, em: Emission, steps: Seq<Step>) -> Emission
        decreases steps.len(),
    {
        if steps.len() == 0 {
            em
        } else {
            self.step(self.steps(em, steps.drop_last()), steps.last())
        }
    }
}

/// The structure of a function.
pub open spec fn plan_of(blocks: Seq<BlockModel>, analysis: FunctionAnalysis) -> Seq<Step> {
    let entry = entry_of(blocks);
    (Shape { blocks, analysis }).region(Set::empty(), entry, entry, None, None).0
}

/// The emission of the blocks of a function.
pub open spec fn blocks_emitted(
    em: Emission,
    names: Names,
    blocks: Seq<BlockModel>,
    analysis: FunctionAnalysis,
) -> Emission {
    let plan = plan_of(blocks, analysis);
    (Context { names, blocks, analysis, labels: targets(plan) }).steps(em, plan)
}

/// The registers that an expression reads and that have not been written, added to those read
/// before; each once, in the order of the first reading.
pub open spec fn reads_of_expr(e: Expr, reads: Seq<u32>, written: Set<u32>) -> Seq<u32>
    decreases e,
{
    match e {
        Expr::Reg(vr, _) => if !written.contains(vr.0) && !reads.contains(vr.0) {
            reads.push(vr.0)
        } else {
            reads
        },
        Expr::BinOp(_, l, r) => reads_of_expr(*r, reads_of_expr(*l, reads, written), written),
        Expr::UnOp(_, inner) => reads_of_expr(*inner, reads, written),
        Expr::Load(addr, _) => reads_of_expr(*addr, reads, written),
        Expr::Const(..) => reads,
        Expr::StackSlot(..) => reads,
        Expr::Addr(_) => reads,
    }
}

/// The same for several expressions.
pub open spec fn reads_of_exprs(es: Seq<Expr>, reads: Seq<u32>, written: Set<u32>) -> Seq<u32>
    decreases es.len(),
{
    if es.len() == 0 {
        reads
    } else {
        reads_of_expr(es.last(), reads_of_exprs(es.drop_last(), reads, written), written)
    }
}

/// The same for a statement.
pub open spec fn reads_of_stmt(s: StmtModel, reads: Seq<u32>, written: Set<u32>) -> Seq<u32> {
    match s {
        StmtModel::Assign(_, e) => reads_of_expr(e, reads, written),
        StmtModel::Store { addr, val, .. } => reads_of_expr(
            val,
            reads_of_expr(addr, reads, written),
            written,
        ),
        StmtModel::Call { func, args, .. } => reads_of_exprs(
            args,
            reads_of_expr(func, reads, written),
            written,
        ),
        StmtModel::Return(Some(e)) => reads_of_expr(e, reads, written),
        StmtModel::Branch { cond, .. } => reads_of_expr(cond, reads, written),
        _ => reads,
    }
}

/// The registers written so far and by the statement.
pub open spec fn writes_of_stmt(s: StmtModel, written: Set<u32>) -> Set<u32> {
    match s {
        StmtModel::Assign(dst, _) => written.insert(dst.0),
        StmtModel::Call { dst: Some(dst), .. } => written.insert(dst.0),
        _ => written,
    }
}

/// The registers that the statements write.
pub open spec fn writes_of_stmts(stmts: Seq<StmtModel>) -> Set<u32>
    decreases stmts.len(),
{
    if stmts.len() == 0 {
        Set::empty()
    } else {
        writes_of_stmt(stmts.last(), writes_of_stmts(stmts.drop_last()))
    }
}

/// The registers that the statements read before they write them.
pub open spec fn reads_of_stmts(stmts: Seq<StmtModel>) -> Seq<u32>
    decreases stmts.len(),
{
    if stmts.len() == 0 {
        Seq::empty()
    } else {
        let before = stmts.drop_last();
        reads_of_stmt(stmts.last(), reads_of_stmts(before), writes_of_stmts(before))
    }
}

/// The name of the `i`-th parameter, after the register that carries it.
pub open spec fn param_name(i: int) -> Seq<char> {
    if i == 0 {
        "param_rdi"@
    } else if i == 1 {
        "param_rsi"@
    } else if i == 2 {
        "param_rdx"@
    } else if i == 3 {
        "param_rcx"@
    } else if i == 4 {
        "param_r8"@
    } else {
        "param_r9"@
    }
}

/// The registers that become parameters: the first six that the first block reads before it writes
/// them.
pub open spec fn param_regs(blocks: Seq<BlockModel>) -> Seq<u32> {
    if blocks.len() == 0 {
        Seq::empty()
    } else {
        let reads = reads_of_stmts(blocks[0].stmts);
        if reads.len() > 6 {
            reads.take(6)
        } else {
            reads
        }
    }
}

/// The names of the parameters.
pub open spec fn param_names(regs: Seq<u32>) -> Map<u32, Seq<char>>
    decreases regs.len(),
{
    if regs.len() == 0 {
        Map::empty()
    } else {
        param_names(regs.drop_last()).insert(regs.last(), param_name(regs.len() - 1))
    }
}

/// The parameter list of a function with the given number of parameters.
pub open spec fn params_text(count: nat) -> Seq<char>
    decreases count,
{
    if count == 0 {
        Seq::empty()
    } else if count == 1 {
        "uint64_t "@ + param_name(0)
    } else {
        params_text((count - 1) as nat) + ", "@ + ("uint64_t "@ + param_name(count - 1))
    }
}

/// A letter, digit or underscore stays; any other character becomes an underscore.
pub open spec fn sanitize_char(c: char) -> char {
    if alphanumeric(c) || c == '_' {
        c
    } else {
        '_'
    }
}

/// A name as a C identifier.
pub open spec fn sanitize(name: Seq<char>) -> Seq<char> {
    name.map_values(|c: char| sanitize_char(c))
}

/// The emission of a function before its first block.
pub open spec fn opening(func: FunctionModel) -> Emission {
    let regs = param_regs(func.blocks);
    Emission {
        text: "uint64_t "@ + sanitize(func.name) + "("@ + params_text(regs.len()) + ") {\n"@,
        indent: 1,
        declared: regs.to_set(),
    }
}

/// The emission of a function up to its closing brace.
pub open spec fn function_body(
    func: FunctionModel,
    analysis: FunctionAnalysis,
    funcs: Map<u64, Seq<char>>,
) -> Emission {
    blocks_emitted(
        opening(func),
        Names { params: param_names(param_regs(func.blocks)), funcs },
        func.blocks,
        analysis,
    )
}

/// The C code of a function.
pub open spec fn function_text(
    func: FunctionModel,
    analysis: FunctionAnalysis,
    funcs: Map<u64, Seq<char>>,
) -> Seq<char> {
    (Emission { indent: 0, ..function_body(func, analysis, funcs) }).line("}"@).text
}

/// The forward declarations of the functions.
pub open spec fn declarations(funcs: Seq<FunctionModel>) -> Seq<char>
    decreases funcs.len(),
{
    if funcs.len() == 0 {
        Seq::empty()
    } else {
        declarations(funcs.drop_last()) + ("uint64_t "@ + sanitize(funcs.last().name) + "();\n"@)
    }
}

/// The C code of the functions one after the other, each with an empty line after it. A function
/// without an analysis is left out.
pub open spec fn definitions(
    funcs: Seq<FunctionModel>,
    analyses: Seq<FunctionAnalysis>,
    names: Map<u64, Seq<char>>,
) -> Seq<char>
    decreases funcs.len(),
{
    if funcs.len() == 0 {
        Seq::empty()
    } else if analyses.len() < funcs.len() {
        definitions(funcs.drop_last(), analyses, names)
    } else {
        definitions(funcs.drop_last(), analyses, names) + function_text(
            funcs.last(),
            analyses[funcs.len() - 1],
            names,
        ) + "\n"@
    }
}

/// The C file for the functions.
pub open spec fn file_text(
    funcs: Seq<FunctionModel>,
    analyses: Seq<FunctionAnalysis>,
    names: Map<u64, Seq<char>>,
) -> Seq<char> {
    "/* Generated by simple-decompiler */\n#include <stdint.h>\n#include <stddef.h>\n\n"@
        + declarations(funcs) + "\n"@ + definitions(funcs, analyses, names)
}

} // verus!

//! C code from the intermediate representation.
use std::collections::{HashMap, HashSet};

use vstd::prelude::*;

use self::laws::{lemma_level_body, lemma_level_test};
use self::model::{
    args_text, blocks_emitted, declarations, definitions, expr_text, file_text, function_body,
    function_text, goto, label, opening, padding, param_name, param_names, param_regs, params_text,
    plan_of, reads_of_expr, reads_of_exprs, reads_of_stmt, reads_of_stmts, sanitize, sanitize_char,
    writes_of_stmt, writes_of_stmts, Context, Emission, Names,
};
use self::plan::{jumped_to, targets, Step};
use crate::analysis::FunctionAnalysis;
use crate::ir::{
    stmts_model, BasicBlock, BinOp, Expr, FunctionModel, IrFunction, Stmt, UnOp, VReg, Width,
};
use crate::listing::lemma_push_contains;
use crate::text::{decimal_of_i64, decimal_of_u32, decimal_of_u64, hex_of_u64};

pub mod complete;
pub mod determined;
pub mod faithful;
pub mod flow;
pub mod laws;
pub mod layout;
pub mod lines;
pub mod model;
pub mod params;
pub mod plan;
pub mod printed;
pub mod reached;
pub mod reading;
pub mod region;
pub mod sentences;
pub mod shapes;

verus! {

broadcast use vstd::std_specs::hash::group_hash_axioms;

pub struct CGenerator {
    output: String,
    indent: u128,
    /// Register number → C variable name, for the parameters
    var_names: HashMap<u32, String>,
    /// Numbers of the registers already declared
    declared: HashSet<u32>,
    /// Name context (for external function names)
    func_names: HashMap<u64, String>,
}

/// A map to texts, each as its characters.
pub open spec fn texts<K>(m: Map<K, String>) -> Map<K, Seq<char>> {
    m.map_values(|s: String| s@)
}

impl CGenerator {
    /// The names of parameters and functions.
    pub closed spec fn names(self) -> Names {
        Names { params: texts(self.var_names@), funcs: texts(self.func_names@) }
    }

    /// The text so far, its indentation and the registers declared.
    pub closed spec fn emission(self) -> Emission {
        Emission { text: self.output@, indent: self.indent as nat, declared: self.declared@ }
    }

    pub fn new(func_names: HashMap<u64, String>) -> (gen: Self)
        ensures
            gen.emission() == (Emission { text: Seq::empty(), indent: 0, declared: Set::empty() }),
            gen.names() == (Names { params: Map::empty(), funcs: texts(func_names@) }),
    {
        let gen = Self {
            output: String::new(),
            indent: 0,
            var_names: HashMap::new(),
            declared: HashSet::new(),
            func_names,
        };
        assert(gen.names() =~= (Names { params: Map::empty(), funcs: texts(func_names@) }));
        assert(gen.emission() =~= (Emission {
            text: Seq::empty(),
            indent: 0,
            declared: Set::empty(),
        }));
        gen
    }

    fn writeln(&mut self, line: &str)
        ensures
            final(self).emission() == old(self).emission().line(line@),
            final(self).names() == old(self).names(),
    {
        let ghost before = self.output@;
        let n = self.indent;
        let mut pad: String = String::new();
        let mut i: u128 = 0;
        while i < n
            invariant
                i <= n,
                pad@ == padding(i as nat),
            decreases n - i,
        {
            pad.append("    ");
            i = i + 1;
        }
        self.output.append(pad.as_str());
        self.output.append(line);
        self.output.append("\n");
    }

    /// One level deeper.
    fn indent_more(&mut self)
        requires
            old(self).emission().indent < u128::MAX,
        ensures
            final(self).emission() == old(self).emission().deeper(),
            final(self).names() == old(self).names(),
    {
        self.indent = self.indent + 1;
    }

    /// One level less deep; the outermost level stays.
    fn indent_less(&mut self)
        ensures
            final(self).emission() == old(self).emission().shallower(),
            final(self).names() == old(self).names(),
    {
        if self.indent > 0 {
            self.indent = self.indent - 1;
        }
    }

    fn var_name(&self, vr: VReg) -> (name: String)
        ensures
            name@ == self.names().reg(vr),
    {
        match self.var_names.get(&vr.0) {
            Some(n) => n.clone(),
            None => vr.to_text(),
        }
    }

    fn ensure_declared(&mut self, vr: VReg, width: Width) -> (name: String)
        ensures
            name@ == old(self).names().reg(vr),
            final(self).emission() == old(self).emission().declare(old(self).names(), vr, width),
            final(self).names() == old(self).names(),
    {
        let name = self.var_name(vr);
        if !self.declared.contains(&vr.0) {
            let mut line = width.c_type().to_string();
            line.append(" ");
            line.append(name.as_str());
            line.append(";");
            self.writeln(line.as_str());
            self.declared.insert(vr.0);
        }
        name
    }

    /// The C text of an expression, after the declarations that its registers still need.
    pub fn expr_to_c(&mut self, expr: &Expr) -> (text: String)
        ensures
            text@ == expr_text(old(self).names(), *expr),
            final(self).emission() == old(self).emission().declare_all(old(self).names(), *expr),
            final(self).names() == old(self).names(),
        decreases expr,
    {
        match expr {
            Expr::Const(v, w) => {
                let mut text = decimal_of_i64(*v);
                match w {
                    Width::W64 => text.append("ULL"),
                    Width::W32 => text.append("U"),
                    _ => text.append(""),
                }
                text
            },
            Expr::Reg(vr, w) => self.ensure_declared(*vr, *w),
            Expr::BinOp(op, l, r) => {
                let ls = self.expr_to_c(l);
                let rs = self.expr_to_c(r);
                binop_to_c(*op, l.width(), ls.as_str(), rs.as_str())
            },
            Expr::UnOp(op, inner) => {
                let is = self.expr_to_c(inner);
                unop_to_c(*op, is.as_str())
            },
            Expr::Load(addr, w) => {
                let as_ = self.expr_to_c(addr);
                let mut text = "(*(".to_string();
                text.append(w.c_type());
                text.append(" *)");
                text.append(as_.as_str());
                text.append(")");
                text
            },
            Expr::StackSlot(off, _w) => {
                if *off > 0 {
                    let mut text = "local_".to_string();
                    text.append(decimal_of_u64(*off as u64).as_str());
                    text
                } else {
                    let mut text = "arg_".to_string();
                    let magnitude: u64 = (-(*off as i64)) as u64;
                    text.append(decimal_of_u64(magnitude).as_str());
                    text
                }
            },
            Expr::Addr(a) => {
                match self.func_names.get(a) {
                    Some(name) => name.clone(),
                    None => {
                        let mut text = "0x".to_string();
                        text.append(hex_of_u64(*a).as_str());
                        text.append("ULL");
                        text
                    },
                }
            },
        }
    }

    /// The texts of the arguments, separated by commas.
    fn args_to_c(&mut self, args: &Vec<Expr>) -> (text: String)
        ensures
            text@ == args_text(old(self).names(), args@),
            final(self).emission() == old(self).emission().declare_each(old(self).names(), args@),
            final(self).names() == old(self).names(),
    {
        let ghost names = self.names();
        let ghost em = self.emission();
        let mut text = String::new();
        let n = args.len();
        let mut i: usize = 0;
        while i < n
            invariant
                i <= n,
                n == args@.len(),
                self.names() == names,
                self.emission() == em.declare_each(names, args@.take(i as int)),
                text@ == args_text(names, args@.take(i as int)),
            decreases n - i,
        {
            assert(args@.take(i + 1).drop_last() =~= args@.take(i as int));
            let arg = self.expr_to_c(&args[i]);
            if i > 0 {
                text.append(", ");
                text.append(arg.as_str());
            } else {
                text = arg;
            }
            i = i + 1;
        }
        assert(args@.take(n as int) =~= args@);
        text
    }

    fn emit_stmt(&mut self, stmt: &Stmt)
        ensures
            final(self).emission() == old(self).emission().stmt(old(self).names(), stmt@),
            final(self).names() == old(self).names(),
    {
        match stmt {
            Stmt::Nop => {},
            Stmt::Assign(dst, expr) => {
                let w = expr.width();
                let name = self.ensure_declared(*dst, w);
                let val = self.expr_to_c(expr);
                let mut line = name;
                line.append(" = ");
                line.append(val.as_str());
                line.append(";");
                self.writeln(line.as_str());
            },
            Stmt::Store { addr, val, width } => {
                let as_ = self.expr_to_c(addr);
                let vs = self.expr_to_c(val);
                let mut line = "*(".to_string();
                line.append(width.c_type());
                line.append(" *)");
                line.append(as_.as_str());
                line.append(" = ");
                line.append(vs.as_str());
                line.append(";");
                self.writeln(line.as_str());
            },
            Stmt::Call { dst, func, args } => {
                let mut call = self.expr_to_c(func);
                let list = self.args_to_c(args);
                call.append("(");
                call.append(list.as_str());
                call.append(")");
                match dst {
                    Some(d) => {
                        let mut line = self.ensure_declared(*d, Width::W64);
                        line.append(" = ");
                        line.append(call.as_str());
                        line.append(";");
                        self.writeln(line.as_str());
                    },
                    None => {
                        call.append(";");
                        self.writeln(call.as_str());
                    },
                }
            },
            Stmt::Return(val) => {
                match val {
                    Some(v) => {
                        let vs = self.expr_to_c(v);
                        let mut line = "return ".to_string();
                        line.append(vs.as_str());
                        line.append(";");
                        self.writeln(line.as_str());
                    },
                    None => {
                        self.writeln("return;");
                    },
                }
            },
            Stmt::Jump(_) => {},
            Stmt::Branch { .. } => {},
            Stmt::IndirectJump(expr) => {
                let es = self.expr_to_c(expr);
                let mut line = "goto *((void *)".to_string();
                line.append(es.as_str());
                line.append(");");
                self.writeln(line.as_str());
            },
            Stmt::Unhandled(s) => {
                let mut line = "/* unhandled: ".to_string();
                line.append(s.as_str());
                line.append(" */");
                self.writeln(line.as_str());
            },
        }
    }

    /// Emit the statements of a block; jumps and branches are left to the structure around it
    fn emit_block_body(&mut self, block: &BasicBlock)
        ensures
            final(self).emission() == old(self).emission().stmts(old(self).names(), block@.stmts),
            final(self).names() == old(self).names(),
    {
        let ghost names = self.names();
        let ghost em = self.emission();
        let ghost stmts = block@.stmts;
        let n = block.stmts.len();
        let mut i: usize = 0;
        while i < n
            invariant
                i <= n,
                n == block.stmts@.len(),
                stmts == stmts_model(block.stmts@),
                self.names() == names,
                self.emission() == em.stmts(names, stmts.take(i as int)),
            decreases n - i,
        {
            assert(stmts.take(i + 1).drop_last() =~= stmts.take(i as int));
            self.emit_stmt(&block.stmts[i]);
            i = i + 1;
        }
        assert(stmts.take(n as int) =~= stmts);
    }
}

/// `prefix`, the condition, `suffix`.
fn around(prefix: &str, cond: &str, suffix: &str) -> (text: String)
    ensures
        text@ == prefix@ + cond@ + suffix@,
{
    let mut text = prefix.to_string();
    text.append(cond);
    text.append(suffix);
    text
}

fn label_text(id: u32) -> (text: String)
    ensures
        text@ == label(id),
{
    let mut text = "block_".to_string();
    text.append(decimal_of_u32(id).as_str());
    text
}

fn goto_text(id: u32) -> (text: String)
    ensures
        text@ == goto(id),
{
    let mut text = "goto ".to_string();
    text.append(label_text(id).as_str());
    text.append(";");
    text
}

/// The blocks to whose labels the steps jump.
fn collect_targets(steps: &Vec<Step>) -> (ids: HashSet<u32>)
    ensures
        ids@ == targets(steps@),
{
    let mut ids: HashSet<u32> = HashSet::new();
    let n = steps.len();
    let mut i: usize = 0;
    while i < n
        invariant
            i <= n,
            n == steps@.len(),
            forall|id: u32| #[trigger] ids@.contains(id) <==> jumped_to(steps@.take(i as int), id),
        decreases n - i,
    {
        let ghost before = steps@.take(i as int);
        let ghost after = steps@.take(i + 1);
        let ghost ids0 = ids@;
        let step = steps[i];
        match step {
            Step::Goto(id) => {
                ids.insert(id);
            },
            Step::GotoIf { target, .. } => {
                ids.insert(target);
            },
            _ => {},
        }
        assert forall|id: u32| #[trigger] ids@.contains(id) <==> jumped_to(after, id) by {
            assert(ids0.contains(id) <==> jumped_to(before, id));
            assert(after[i as int] == step);
            if jumped_to(before, id) {
                let k = choose|k: int|
                    0 <= k < before.len() && (#[trigger] before[k]).target() == Some(id);
                assert(after[k] == before[k]);
            }
            if jumped_to(after, id) {
                let k = choose|k: int|
                    0 <= k < after.len() && (#[trigger] after[k]).target() == Some(id);
                if k < i {
                    assert(before[k] == after[k]);
                }
            }
        }
        i = i + 1;
    }
    assert(steps@.take(n as int) =~= steps@);
    assert(ids@ =~= targets(steps@));
    ids
}

impl CGenerator {
    /// What stays the same while the function is emitted.
    pub open spec fn context(
        self,
        func: IrFunction,
        analysis: FunctionAnalysis,
        labels: Set<u32>,
    ) -> Context {
        Context { names: self.names(), blocks: func@.blocks, analysis, labels }
    }

    /// The label of a block, where it gets one.
    fn emit_label(
        &mut self,
        func: &IrFunction,
        analysis: &FunctionAnalysis,
        labels: &HashSet<u32>,
        id: u32,
        led: bool,
    )
        requires
            old(self).emission().indent < u128::MAX,
        ensures
            final(self).emission() == old(self).context(*func, *analysis, labels@).at_block(
                old(self).emission(),
                id,
                led,
            ),
            final(self).names() == old(self).names(),
    {
        let many = analysis.cfg.predecessors(id).len() > 1 || id == region::entry_id(func);
        if labels.contains(&id) || (led && many) {
            self.indent_less();
            let mut text = label_text(id);
            text.append(":");
            self.writeln(text.as_str());
            self.indent_more();
        }
    }

    /// The statements of the block with the given id.
    fn emit_body(&mut self, func: &IrFunction, id: u32, cx: Ghost<Context>)
        requires
            cx@.names == old(self).names(),
            cx@.blocks == func@.blocks,
        ensures
            final(self).emission() == cx@.body(old(self).emission(), id),
            final(self).names() == old(self).names(),
    {
        if let Some(block) = region::get_block(func, id) {
            self.emit_block_body(block);
        }
    }

    /// A line with the condition of a block.
    fn emit_test(
        &mut self,
        func: &IrFunction,
        id: u32,
        negated: bool,
        rest: &str,
        cx: Ghost<Context>,
    )
        requires
            cx@.names == old(self).names(),
            cx@.blocks == func@.blocks,
        ensures
            final(self).emission() == cx@.test(old(self).emission(), id, negated, rest@),
            final(self).names() == old(self).names(),
    {
        if let Some(block) = region::get_block(func, id) {
            if let Some(Stmt::Branch { cond, true_id, false_id }) = block.terminator() {
                let text = self.expr_to_c(cond);
                let prefix = if negated {
                    "if (!"
                } else {
                    "if ("
                };
                self.writeln(around(prefix, text.as_str(), rest).as_str());
            }
        }
    }

    /// One step of the structure.
    fn emit_step(
        &mut self,
        func: &IrFunction,
        analysis: &FunctionAnalysis,
        labels: &HashSet<u32>,
        step: Step,
    )
        requires
            old(self).emission().indent < u128::MAX - 1,
        ensures
            final(self).emission() == old(self).context(*func, *analysis, labels@).step(
                old(self).emission(),
                step,
            ),
            final(self).emission().indent <= old(self).emission().indent + 2,
            final(self).names() == old(self).names(),
    {
        let ghost cx = self.context(*func, *analysis, labels@);
        let ghost em = self.emission();
        match step {
            Step::Block { id, led } => {
                self.emit_label(func, analysis, labels, id, led);
                proof {
                    lemma_level_body(cx, self.emission(), id);
                }
                self.emit_body(func, id, Ghost(cx));
            },
            Step::While { id, led } => {
                self.emit_label(func, analysis, labels, id, led);
                self.writeln("while (1) {");
                self.indent_more();
                proof {
                    lemma_level_body(cx, self.emission(), id);
                }
                self.emit_body(func, id, Ghost(cx));
            },
            Step::BackEdge => self.writeln("/* back edge */"),
            Step::Goto(id) => self.writeln(goto_text(id).as_str()),
            Step::GotoIf { id, negated, target } => {
                let rest = around(") { goto ", label_text(target).as_str(), "; }");
                proof {
                    lemma_level_test(cx, em, id, negated, rest@);
                }
                self.emit_test(func, id, negated, rest.as_str(), Ghost(cx));
            },
            Step::ContinueIf { id, negated } => {
                proof {
                    lemma_level_test(cx, em, id, negated, ") { continue; }"@);
                }
                self.emit_test(func, id, negated, ") { continue; }", Ghost(cx));
            },
            Step::BreakIf { id, negated } => {
                proof {
                    lemma_level_test(cx, em, id, negated, ") { break; }"@);
                }
                self.emit_test(func, id, negated, ") { break; }", Ghost(cx));
            },
            Step::If(id) => {
                proof {
                    lemma_level_test(cx, em, id, false, ") {"@);
                }
                self.emit_test(func, id, false, ") {", Ghost(cx));
                self.indent_more();
            },
            Step::Else => {
                self.indent_less();
                self.writeln("} else {");
                self.indent_more();
            },
            Step::Close => {
                self.indent_less();
                self.writeln("}");
            },
        }
    }

    /// Structured code emission: the structure of the function, and the code that it gives
    pub fn emit_function(&mut self, func: &IrFunction, analysis: &FunctionAnalysis)
        requires
            old(self).emission().indent <= u64::MAX,
        ensures
            final(self).names() == old(self).names(),
            final(self).emission() == blocks_emitted(
                old(self).emission(),
                old(self).names(),
                func@.blocks,
                *analysis,
            ),
    {
        let entry = region::entry_id(func);
        let mut emitted: HashSet<u32> = HashSet::new();
        let mut steps: Vec<Step> = Vec::new();
        assert(emitted@ =~= Set::empty());
        region::emit_region(func, analysis, entry, entry, None, None, &mut emitted, &mut steps);
        assert(steps@ =~= plan_of(func@.blocks, *analysis));
        let labels = collect_targets(&steps);
        let ghost cx = self.context(*func, *analysis, labels@);
        let ghost em = self.emission();
        let n = steps.len();
        let mut i: usize = 0;
        while i < n
            invariant
                i <= n,
                n == steps@.len(),
                cx == old(self).context(*func, *analysis, labels@),
                self.names() == old(self).names(),
                self.emission() == cx.steps(em, steps@.take(i as int)),
                self.emission().indent <= u64::MAX + 2 * i,
            decreases n - i,
        {
            assert(steps@.take(i + 1).drop_last() =~= steps@.take(i as int));
            self.emit_step(func, analysis, &labels, steps[i]);
            i = i + 1;
        }
        assert(steps@.take(n as int) =~= steps@);
    }
}

impl CGenerator {
    pub fn generate_function(&mut self, func: &IrFunction, analysis: &FunctionAnalysis) -> (code:
        String)
        ensures
            code@ == function_text(func@, *analysis, old(self).names().funcs),
            final(self).names() == (Names {
                params: param_names(param_regs(func@.blocks)),
                funcs: old(self).names().funcs,
            }),
            final(self).emission() == (Emission {
                indent: 0,
                ..function_body(func@, *analysis, old(self).names().funcs)
            }).line("}"@),
    {
        let ghost funcs = self.names().funcs;
        let regs = params_of(func);
        let mut names: HashMap<u32, String> = HashMap::new();
        let mut declared: HashSet<u32> = HashSet::new();
        let mut list = String::new();
        let n = regs.len();
        let mut i: usize = 0;
        assert(texts(names@) =~= param_names(regs@.take(0)));
        assert(declared@ =~= regs@.take(0).to_set());
        while i < n
            invariant
                i <= n,
                n <= 6,
                n == regs@.len(),
                texts(names@) == param_names(regs@.take(i as int)),
                declared@ == regs@.take(i as int).to_set(),
                list@ == params_text(i as nat),
            decreases n - i,
        {
            let name = parameter(i);
            let mut param = "uint64_t ".to_string();
            param.append(name);
            if i > 0 {
                list.append(", ");
                list.append(param.as_str());
            } else {
                list = param;
            }
            let ghost before = texts(names@);
            let ghost part = regs@.take(i as int);
            let ghost next = regs@.take(i + 1);
            names.insert(regs[i], name.to_string());
            declared.insert(regs[i]);
            proof {
                assert(next.drop_last() =~= part);
                assert(texts(names@) =~= before.insert(regs@[i as int], name@));
                assert(next =~= part.push(regs@[i as int]));
                lemma_push_contains(part, regs@[i as int]);
                assert(declared@ =~= next.to_set());
            }
            i = i + 1;
        }
        assert(regs@.take(n as int) =~= regs@);

        let mut output = "uint64_t ".to_string();
        output.append(sanitize_name(func.name.as_str()).as_str());
        output.append("(");
        output.append(list.as_str());
        output.append(") {\n");
        self.output = output;
        self.indent = 1;
        self.var_names = names;
        self.declared = declared;
        assert(self.emission() =~= opening(func@));
        assert(self.names() =~= (Names { params: param_names(param_regs(func@.blocks)), funcs }));

        self.emit_function(func, analysis);
        assert(self.emission() == function_body(func@, *analysis, funcs));
        self.indent = 0;
        self.writeln("}");
        self.output.clone()
    }
}

/// The name of the `i`-th parameter.
fn parameter(i: usize) -> (name: &'static str)
    ensures
        name@ == param_name(i as int),
{
    match i {
        0 => "param_rdi",
        1 => "param_rsi",
        2 => "param_rdx",
        3 => "param_rcx",
        4 => "param_r8",
        _ => "param_r9",
    }
}

/// The registers that become parameters: read in the first block before written, at most six.
fn params_of(func: &IrFunction) -> (regs: Vec<u32>)
    ensures
        regs@ == param_regs(func@.blocks),
        regs@.len() <= 6,
{
    let mut reads: Vec<u32> = Vec::new();
    if func.blocks.len() > 0 {
        let entry = &func.blocks[0];
        let ghost stmts = entry@.stmts;
        assert(func@.blocks[0] == entry@);
        let mut written: HashSet<u32> = HashSet::new();
        let n = entry.stmts.len();
        let mut i: usize = 0;
        assert(written@ =~= writes_of_stmts(stmts.take(0)));
        while i < n
            invariant
                i <= n,
                n == entry.stmts@.len(),
                stmts == stmts_model(entry.stmts@),
                reads@ == reads_of_stmts(stmts.take(i as int)),
                written@ == writes_of_stmts(stmts.take(i as int)),
            decreases n - i,
        {
            assert(stmts.take(i + 1).drop_last() =~= stmts.take(i as int));
            collect_reads(&entry.stmts[i], &mut reads, &written);
            collect_writes(&entry.stmts[i], &mut written);
            i = i + 1;
        }
        assert(stmts.take(n as int) =~= stmts);
    }
    if reads.len() > 6 {
        reads.truncate(6);
    }
    reads
}

/// A name as a C identifier: what is no letter, digit or underscore becomes an underscore.
pub fn sanitize_name(name: &str) -> (clean: String)
    ensures
        clean@ == sanitize(name@),
{
    let mut clean = String::new();
    let it = name.chars();
    let ghost chars = name@;
    for c in iter: it
        invariant
            iter.seq() == chars,
            clean@.len() == iter.index(),
            forall|i: int| 0 <= i < clean@.len() ==> clean@[i] == sanitize_char(chars[i]),
    {
        if c.is_alphanumeric() || c == '_' {
            clean.push(c);
        } else {
            clean.push('_');
        }
    }
    assert(clean@ =~= sanitize(name@));
    clean
}

fn collect_reads(stmt: &Stmt, reads: &mut Vec<u32>, written: &HashSet<u32>)
    ensures
        final(reads)@ == reads_of_stmt(stmt@, old(reads)@, written@),
{
    match stmt {
        Stmt::Assign(_, expr) => collect_expr_reads(expr, reads, written),
        Stmt::Store { addr, val, .. } => {
            collect_expr_reads(addr, reads, written);
            collect_expr_reads(val, reads, written);
        },
        Stmt::Call { func, args, .. } => {
            collect_expr_reads(func, reads, written);
            let ghost base = reads@;
            let n = args.len();
            let mut i: usize = 0;
            while i < n
                invariant
                    i <= n,
                    n == args@.len(),
                    reads@ == reads_of_exprs(args@.take(i as int), base, written@),
                decreases n - i,
            {
                assert(args@.take(i + 1).drop_last() =~= args@.take(i as int));
                collect_expr_reads(&args[i], reads, written);
                i = i + 1;
            }
            assert(args@.take(n as int) =~= args@);
        },
        Stmt::Return(Some(e)) => collect_expr_reads(e, reads, written),
        Stmt::Branch { cond, .. } => collect_expr_reads(cond, reads, written),
        _ => {},
    }
}

fn collect_expr_reads(expr: &Expr, reads: &mut Vec<u32>, written: &HashSet<u32>)
    ensures
        final(reads)@ == reads_of_expr(*expr, old(reads)@, written@),
    decreases expr,
{
    match expr {
        Expr::Reg(vr, _) => {
            if !written.contains(&vr.0) && !listed(reads, vr.0) {
                reads.push(vr.0);
            }
        },
        Expr::BinOp(_, l, r) => {
            collect_expr_reads(l, reads, written);
            collect_expr_reads(r, reads, written);
        },
        Expr::UnOp(_, inner) => collect_expr_reads(inner, reads, written),
        Expr::Load(addr, _) => collect_expr_reads(addr, reads, written),
        _ => {},
    }
}

fn listed(list: &Vec<u32>, x: u32) -> (yes: bool)
    ensures
        yes == list@.contains(x),
{
    let n = list.len();
    let mut i: usize = 0;
    while i < n
        invariant
            i <= n,
            n == list@.len(),
            forall|j: int| 0 <= j < i ==> list@[j] != x,
        decreases n - i,
    {
        if list[i] == x {
            assert(list@[i as int] == x);
            return true;
        }
        i = i + 1;
    }
    false
}

fn collect_writes(stmt: &Stmt, written: &mut HashSet<u32>)
    ensures
        final(written)@ == writes_of_stmt(stmt@, old(written)@),
{
    match stmt {
        Stmt::Assign(dst, _) => {
            written.insert(dst.0);
        },
        Stmt::Call { dst: Some(dst), .. } => {
            written.insert(dst.0);
        },
        _ => {},
    }
}

/// The functions of a list, each as a mathematical value.
pub open spec fn functions_model(functions: Seq<IrFunction>) -> Seq<FunctionModel> {
    functions.map_values(|f: IrFunction| f@)
}

/// Generate C code for all functions
pub fn generate(
    functions: &[IrFunction],
    analyses: &[FunctionAnalysis],
    symbol_names: &HashMap<u64, String>,
) -> (code: String)
    ensures
        code@ == file_text(functions_model(functions@), analyses@, texts(symbol_names@)),
{
    let ghost funcs = functions_model(functions@);
    let ghost names = texts(symbol_names@);
    let mut out =
        "/* Generated by simple-decompiler */\n#include <stdint.h>\n#include <stddef.h>\n\n".to_string();
    let ghost header = out@;

    let n = functions.len();
    let mut i: usize = 0;
    assert(out@ =~= header + declarations(funcs.take(0)));
    while i < n
        invariant
            i <= n,
            n == functions@.len(),
            funcs == functions_model(functions@),
            out@ == header + declarations(funcs.take(i as int)),
        decreases n - i,
    {
        let ghost before = out@;
        let mut line = "uint64_t ".to_string();
        line.append(sanitize_name(functions[i].name.as_str()).as_str());
        line.append("();\n");
        out.append(line.as_str());
        proof {
            assert(funcs.take(i + 1).drop_last() =~= funcs.take(i as int));
            assert(out@ =~= header + (declarations(funcs.take(i as int)) + line@));
        }
        i = i + 1;
    }
    assert(funcs.take(n as int) =~= funcs);
    out.append("\n");
    let ghost head = out@;

    let m = analyses.len();
    let mut i: usize = 0;
    assert(out@ =~= head + definitions(funcs.take(0), analyses@, names));
    while i < n
        invariant
            i <= n,
            n == functions@.len(),
            m == analyses@.len(),
            funcs == functions_model(functions@),
            names == texts(symbol_names@),
            out@ == head + definitions(funcs.take(i as int), analyses@, names),
        decreases n - i,
    {
        let ghost part = definitions(funcs.take(i as int), analyses@, names);
        assert(funcs.take(i + 1).drop_last() =~= funcs.take(i as int));
        if i < m {
            let mut gen = CGenerator::new(symbol_names.clone());
            let code = gen.generate_function(&functions[i], &analyses[i]);
            out.append(code.as_str());
            out.append("\n");
            assert(out@ =~= head + (part + code@ + "\n"@));
        }
        i = i + 1;
    }
    assert(funcs.take(n as int) =~= funcs);
    out
}

fn binop_to_c(op: BinOp, w: Width, l: &str, r: &str) -> (text: String)
    ensures
        text@ == model::binop_text(op, w, l@, r@),
{
    match op {
        BinOp::SDiv | BinOp::SMod | BinOp::Slt | BinOp::Sle => {
            let mut text = "((".to_string();
            text.append(w.c_type_signed());
            text.append(")");
            text.append(l);
            text.append(" ");
            text.append(op.symbol());
            text.append(" (");
            text.append(w.c_type_signed());
            text.append(")");
            text.append(r);
            text.append(")");
            text
        },
        BinOp::AShr => {
            let mut text = "((".to_string();
            text.append(w.c_type_signed());
            text.append(")");
            text.append(l);
            text.append(" >> ");
            text.append(r);
            text.append(")");
            text
        },
        _ => {
            let mut text = "(".to_string();
            text.append(l);
            text.append(" ");
            text.append(op.symbol());
            text.append(" ");
            text.append(r);
            text.append(")");
            text
        },
    }
}

fn unop_to_c(op: UnOp, inner: &str) -> (text: String)
    ensures
        text@ == model::unop_text(op, inner@),
{
    let mut text = match op {
        UnOp::Neg => "(-".to_string(),
        UnOp::Not => "(~".to_string(),
        UnOp::ZExt(w) => cast_to_c(w.c_type()),
        UnOp::SExt(w) => cast_to_c(w.c_type_signed()),
        UnOp::Trunc(w) => cast_to_c(w.c_type()),
    };
    text.append(inner);
    text.append(")");
    text
}

fn cast_to_c(ty: &str) -> (text: String)
    ensures
        text@ == "(("@ + ty@ + ")"@,
{
    let mut text = "((".to_string();
    text.append(ty);
    text.append(")");
    text
}

} // verus!

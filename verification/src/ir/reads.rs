//! Every register that a lifted function reads has a number below its counter.
use vstd::prelude::*;

use super::blocks::lemma_place;
use super::meaning::{
    all_closed, arg_reg, closed, comparison, first_group, fresh_lift, last_group, lifted, place,
    signed64, size_width, Grouping, Lift,
};
use super::single::lemma_instr_grows;
use super::{BinOp, BlockModel, Expr, StmtModel, UnOp, VReg, Width};
use crate::binary::Arch;
use crate::disasm::kinds::{bits_of, canonical};
use crate::disasm::model::{CodeModel, ItemModel};
use crate::x86::{Instr, Mnemonic, OpKind, Register};

verus! {

/// The registers that an expression reads.
pub open spec fn regs_of(e: Expr) -> Set<u32>
    decreases e,
{
    match e {
        Expr::Reg(vr, _) => set![vr.0],
        Expr::BinOp(_, l, r) => regs_of(*l).union(regs_of(*r)),
        Expr::UnOp(_, inner) => regs_of(*inner),
        Expr::Load(addr, _) => regs_of(*addr),
        Expr::Const(..) => Set::empty(),
        Expr::StackSlot(..) => Set::empty(),
        Expr::Addr(_) => Set::empty(),
    }
}

/// The registers that several expressions read.
pub open spec fn regs_of_all(es: Seq<Expr>) -> Set<u32>
    decreases es.len(),
{
    if es.len() == 0 {
        Set::empty()
    } else {
        regs_of_all(es.drop_last()).union(regs_of(es.last()))
    }
}

/// The registers that a statement reads.
pub open spec fn read_by(s: StmtModel) -> Set<u32> {
    match s {
        StmtModel::Assign(_, e) => regs_of(e),
        StmtModel::Store { addr, val, width } => regs_of(addr).union(regs_of(val)),
        StmtModel::Call { dst, func, args } => regs_of(func).union(regs_of_all(args)),
        StmtModel::Return(Some(e)) => regs_of(e),
        StmtModel::Branch { cond, true_id, false_id } => regs_of(cond),
        StmtModel::IndirectJump(e) => regs_of(e),
        _ => Set::empty(),
    }
}

/// All numbers of the set are below `n`.
pub open spec fn below(regs: Set<u32>, n: nat) -> bool {
    forall|r: u32| #[trigger] regs.contains(r) ==> r < n
}

/// The expression reads registers that have been taken only; as long as the numbers suffice.
spec fn fine(l: Lift, e: Expr) -> bool {
    l.next <= 0x1_0000_0000 ==> below(regs_of(e), l.next)
}

/// So do all statements, and so is all that the lifting keeps.
spec fn taken(l: Lift) -> bool {
    l.next <= 0x1_0000_0000 ==> {
        &&& forall|k: u16| #[trigger] l.regs.contains_key(k) ==> l.regs[k] < l.next
        &&& forall|i: int| 0 <= i < l.out.len() ==> below(read_by(#[trigger] l.out[i]), l.next)
        &&& (match l.flags {
            Some((result, a, b)) => fine(l, result) && fine(l, a) && fine(l, b),
            None => true,
        })
    }
}

proof fn lemma_push(a: Lift, s: StmtModel)
    requires
        taken(a),
        a.next <= 0x1_0000_0000 ==> below(read_by(s), a.next),
    ensures
        taken(a.push(s)),
{
    let b = a.push(s);
    if b.next <= 0x1_0000_0000 {
        assert forall|i: int| 0 <= i < b.out.len() implies below(
            read_by(#[trigger] b.out[i]),
            b.next,
        ) by {
            if i < a.out.len() {
                assert(b.out[i] == a.out[i]);
            }
        }
    }
}

proof fn lemma_took(a: Lift)
    requires
        taken(a),
    ensures
        taken(a.took()),
{
    let b = a.took();
    if b.next <= 0x1_0000_0000 {
        assert forall|i: int| 0 <= i < b.out.len() implies below(
            read_by(#[trigger] b.out[i]),
            b.next,
        ) by {
            assert(below(read_by(a.out[i]), a.next));
        }
    }
}

proof fn lemma_assign(a: Lift, e: Expr)
    requires
        taken(a),
        fine(a, e),
    ensures
        taken(a.assign(e)),
        a.assign(e).next == a.next + 1,
        forall|w: Width| #[trigger] fine(a.assign(e), Expr::Reg(a.vreg(), w)),
{
    lemma_took(a);
    lemma_push(a.took(), StmtModel::Assign(a.vreg(), e));
}

proof fn lemma_bind(a: Lift, r: Register, v: VReg)
    requires
        taken(a),
        a.next <= 0x1_0000_0000 ==> v.0 < a.next,
    ensures
        taken(a.bind(r, v)),
{
}

proof fn lemma_read_reg(a: Lift, r: Register, width: Width)
    requires
        taken(a),
    ensures
        taken(a.read_reg(r, width).0),
        fine(a.read_reg(r, width).0, a.read_reg(r, width).1),
        a.next <= a.read_reg(r, width).0.next,
{
    let s = a.seen(r);
    let key = canonical(r).number();
    lemma_took(a);
    assert(taken(s));
    assert(s.regs.contains_key(key));
    let vr = VReg(s.regs[key]);
    assert(fine(s, Expr::Reg(vr, a.w())));
    assert(fine(s, Expr::Reg(vr, width)));
    let e = Expr::UnOp(UnOp::Trunc(width), Box::new(Expr::Reg(vr, a.w())));
    assert(fine(s, e));
    lemma_assign(s, e);
    assert(fine(s.assign(e), Expr::Reg(s.vreg(), width)));
}

proof fn lemma_write_reg(a: Lift, r: Register, val: Expr)
    requires
        taken(a),
        fine(a, val),
    ensures
        taken(a.write_reg(r, val)),
        a.next <= a.write_reg(r, val).next,
{
    let (s, full) = match val.value_width() {
        Width::W64 => (a, val),
        Width::W32 => (
            a.assign(Expr::UnOp(UnOp::ZExt(Width::W64), Box::new(val))),
            Expr::Reg(a.vreg(), Width::W64),
        ),
        _ => (
            a.assign(Expr::UnOp(UnOp::ZExt(a.w()), Box::new(val))),
            Expr::Reg(a.vreg(), a.w()),
        ),
    };
    let e1 = Expr::UnOp(UnOp::ZExt(Width::W64), Box::new(val));
    let e2 = Expr::UnOp(UnOp::ZExt(a.w()), Box::new(val));
    assert(fine(a, e1) && fine(a, e2));
    lemma_assign(a, e1);
    lemma_assign(a, e2);
    assert(fine(s, full));
    lemma_assign(s, full);
    lemma_bind(s.assign(full), canonical(r), s.vreg());
}

proof fn lemma_plus(a: Lift, sum: Option<Expr>, part: Expr)
    requires
        taken(a),
        fine(a, part),
        sum matches Some(x) ==> fine(a, x),
    ensures
        taken(a.plus(sum, part).0),
        fine(a.plus(sum, part).0, a.plus(sum, part).1),
        a.next <= a.plus(sum, part).0.next,
{
    if let Some(x) = sum {
        let e = Expr::BinOp(BinOp::Add, Box::new(x), Box::new(part));
        assert(fine(a, e));
        lemma_assign(a, e);
        assert(fine(a.assign(e), Expr::Reg(a.vreg(), a.w())));
    }
}

proof fn lemma_mem_index(a: Lift, instr: Instr)
    requires
        taken(a),
    ensures
        taken(a.mem_index(instr).0),
        fine(a.mem_index(instr).0, a.mem_index(instr).1),
        a.next <= a.mem_index(instr).0.next,
{
    let (s, e) = a.read_reg(instr.memory.index, a.w());
    lemma_read_reg(a, instr.memory.index, a.w());
    let k = Expr::Const(instr.memory.scale as i64, a.w());
    let m = Expr::BinOp(BinOp::Mul, Box::new(e), Box::new(k));
    assert(fine(s, m)) by {
        reveal_with_fuel(regs_of, 2);
    }
    lemma_assign(s, m);
    assert(fine(s.assign(m), Expr::Reg(s.vreg(), a.w())));
}

proof fn lemma_mem_addr(a: Lift, instr: Instr)
    requires
        taken(a),
    ensures
        taken(a.mem_addr(instr).0),
        fine(a.mem_addr(instr).0, a.mem_addr(instr).1),
        a.next <= a.mem_addr(instr).0.next,
{
    let (s, base) = a.mem_base(instr);
    lemma_read_reg(a, instr.memory.base, a.w());
    assert(taken(s) && a.next <= s.next);
    assert(base matches Some(x) ==> fine(s, x));
    let (t, sum) = if instr.memory.index != Register::NoRegister {
        let (u, scaled) = s.mem_index(instr);
        let (v, e) = u.plus(base, scaled);
        (v, Some(e))
    } else {
        (s, base)
    };
    if instr.memory.index != Register::NoRegister {
        let (u, scaled) = s.mem_index(instr);
        lemma_mem_index(s, instr);
        lemma_plus(u, base, scaled);
    }
    let disp = Expr::Const(signed64(instr.memory.displacement) as i64, a.w());
    assert(fine(t, disp));
    lemma_plus(t, sum, disp);
}

proof fn lemma_operand(a: Lift, instr: Instr, n: int)
    requires
        taken(a),
    ensures
        taken(a.operand(instr, n).0),
        fine(a.operand(instr, n).0, a.operand(instr, n).1),
        a.next <= a.operand(instr, n).0.next,
{
    let op = instr.operand(n);
    lemma_read_reg(a, op.register, Width::of_bits(bits_of(op.register)));
    lemma_mem_addr(a, instr);
}

proof fn lemma_set_operand(a: Lift, instr: Instr, n: int, val: Expr)
    requires
        taken(a),
        fine(a, val),
    ensures
        taken(a.set_operand(instr, n, val)),
        a.next <= a.set_operand(instr, n, val).next,
{
    let op = instr.operand(n);
    match op.kind {
        OpKind::Register => {
            lemma_write_reg(a, op.register, val);
        },
        OpKind::Memory => {
            let (s, addr) = a.mem_addr(instr);
            lemma_mem_addr(a, instr);
            lemma_push(
                s,
                StmtModel::Store { addr, val, width: size_width(instr.memory.size) },
            );
        },
        _ => {
            lemma_push(
                a,
                StmtModel::Unhandled("cannot write to op kind "@ + op.kind.text()),
            );
        },
    }
}

proof fn lemma_moves(a: Lift, instr: Instr, signed: bool)
    requires
        taken(a),
    ensures
        taken(a.copies(instr)),
        taken(a.extends(instr, signed)),
        taken(a.loads_address(instr)),
{
    reveal(Lift::copies);
    reveal(Lift::extends);
    reveal(Lift::loads_address);
    let (s, src) = a.operand(instr, 1);
    lemma_operand(a, instr, 1);
    lemma_set_operand(s, instr, 0, src);
    let width = a.target_width(instr);
    let op = if signed {
        UnOp::SExt(width)
    } else {
        UnOp::ZExt(width)
    };
    let e = Expr::UnOp(op, Box::new(src));
    assert(fine(s, e));
    lemma_assign(s, e);
    lemma_set_operand(s.assign(e), instr, 0, Expr::Reg(s.vreg(), width));
    let (t, addr) = a.mem_addr(instr);
    lemma_mem_addr(a, instr);
    lemma_set_operand(t, instr, 0, addr);
}

proof fn lemma_exchanges(a: Lift, instr: Instr)
    requires
        taken(a),
    ensures
        taken(a.exchanges(instr)),
{
    reveal(Lift::exchanges);
    let (s, x) = a.operand(instr, 0);
    let (t, y) = s.operand(instr, 1);
    lemma_operand(a, instr, 0);
    lemma_operand(s, instr, 1);
    lemma_set_operand(t, instr, 0, y);
    assert(fine(t.set_operand(instr, 0, y), x));
    lemma_set_operand(t.set_operand(instr, 0, y), instr, 1, x);
}

proof fn lemma_stack(a: Lift, instr: Instr)
    requires
        taken(a),
    ensures
        taken(a.pushes(instr)),
        taken(a.pops(instr)),
{
    let w = a.w();
    assert(taken(a.pushes(instr))) by {
        reveal(Lift::pushes);
        let (s, val) = a.operand(instr, 0);
        let (t, rsp) = s.read_reg(Register::RSP, w);
        let e = Expr::BinOp(BinOp::Sub, Box::new(rsp), Box::new(Expr::Const(a.word(), w)));
        let u = t.assign(e);
        lemma_operand(a, instr, 0);
        lemma_read_reg(s, Register::RSP, w);
        assert(fine(t, e)) by {
            reveal_with_fuel(regs_of, 2);
        }
        lemma_assign(t, e);
        lemma_bind(u, Register::RSP, t.vreg());
        assert(fine(u, Expr::Reg(t.vreg(), w)) && fine(u, val));
        lemma_push(
            u.bind(Register::RSP, t.vreg()),
            StmtModel::Store { addr: Expr::Reg(t.vreg(), w), val, width: w },
        );
    }
    assert(taken(a.pops(instr))) by {
        reveal(Lift::pops);
        let (s, rsp) = a.read_reg(Register::RSP, w);
        let e = Expr::Load(Box::new(rsp), w);
        let t = s.assign(e);
        let u = t.set_operand(instr, 0, Expr::Reg(s.vreg(), w));
        let (v, rsp2) = u.read_reg(Register::RSP, w);
        let e2 = Expr::BinOp(BinOp::Add, Box::new(rsp2), Box::new(Expr::Const(a.word(), w)));
        lemma_read_reg(a, Register::RSP, w);
        assert(fine(s, e));
        lemma_assign(s, e);
        lemma_set_operand(t, instr, 0, Expr::Reg(s.vreg(), w));
        lemma_read_reg(u, Register::RSP, w);
        assert(fine(v, e2)) by {
            reveal_with_fuel(regs_of, 2);
        }
        lemma_assign(v, e2);
        lemma_bind(v.assign(e2), Register::RSP, v.vreg());
    }
}

proof fn lemma_two(a: Lift, instr: Instr, op: BinOp)
    requires
        taken(a),
    ensures
        taken(a.combines(instr, op)),
        taken(a.excludes(instr)),
        taken(a.tests(instr)),
{
    let (s, x) = a.operand(instr, 0);
    let (t, y) = s.operand(instr, 1);
    lemma_operand(a, instr, 0);
    lemma_operand(s, instr, 1);
    assert forall|op: BinOp| taken(#[trigger] a.combines(instr, op)) by {
        reveal(Lift::combines);
        let e = Expr::BinOp(op, Box::new(x), Box::new(y));
        assert(fine(t, e));
        lemma_assign(t, e);
        lemma_set_operand(t.assign(e), instr, 0, Expr::Reg(t.vreg(), a.w()));
    }
    reveal(Lift::excludes);
    let zero = Expr::Const(0, a.w());
    assert(fine(a, zero));
    lemma_set_operand(a, instr, 0, zero);
    assert(taken(a.combines(instr, BinOp::Xor)));
    reveal(Lift::tests);
    let e = Expr::BinOp(BinOp::And, Box::new(x), Box::new(y));
    assert(fine(t, e));
    lemma_assign(t, e);
    assert(fine(t.assign(e), Expr::Reg(t.vreg(), a.w())));
    assert(fine(t.assign(e), Expr::Const(0, a.w())));
}

proof fn lemma_latched(a: Lift, e: Expr)
    requires
        taken(a),
        fine(a, e),
    ensures
        taken(a.latched(e).0),
        fine(a.latched(e).0, a.latched(e).1),
        a.next <= a.latched(e).0.next,
{
    lemma_assign(a, e);
    if let Expr::Load(_, width) = e {
        assert(fine(a.assign(e), Expr::Reg(a.vreg(), width)));
    }
}

proof fn lemma_compares(a: Lift, instr: Instr)
    requires
        taken(a),
    ensures
        taken(a.compares(instr)),
{
    reveal(Lift::compares);
    let (s, x) = a.operand(instr, 0);
    let (t, y) = s.operand(instr, 1);
    let (u, l) = t.latched(x);
    let (v, r) = u.latched(y);
    lemma_operand(a, instr, 0);
    lemma_operand(s, instr, 1);
    lemma_latched(t, x);
    lemma_latched(u, y);
    let e = Expr::BinOp(BinOp::Sub, Box::new(l), Box::new(r));
    assert(fine(v, l) && fine(v, r) && fine(v, e));
    lemma_assign(v, e);
    assert(fine(v.assign(e), Expr::Reg(v.vreg(), a.w())));
    assert(fine(v.assign(e), l) && fine(v.assign(e), r));
}

proof fn lemma_products(a: Lift, instr: Instr)
    requires
        taken(a),
    ensures
        taken(a.multiplies(instr)),
        taken(a.multiplies_rax(instr)),
{
    let w = a.w();
    assert(taken(a.multiplies(instr))) by {
        reveal(Lift::multiplies);
        let (s, x) = a.operand(instr, 1);
        let (t, y) = s.operand(instr, 2);
        lemma_operand(a, instr, 1);
        lemma_operand(s, instr, 2);
        let e = Expr::BinOp(BinOp::Mul, Box::new(x), Box::new(y));
        assert(fine(t, e));
        lemma_assign(t, e);
        lemma_set_operand(t.assign(e), instr, 0, Expr::Reg(t.vreg(), w));
    }
    assert(taken(a.multiplies_rax(instr))) by {
        reveal(Lift::multiplies_rax);
        let (s, src) = a.operand(instr, 0);
        let (t, rax) = s.read_reg(Register::RAX, w);
        lemma_operand(a, instr, 0);
        lemma_read_reg(s, Register::RAX, w);
        let e = Expr::BinOp(BinOp::Mul, Box::new(rax), Box::new(src));
        assert(fine(t, e));
        lemma_assign(t, e);
        lemma_write_reg(t.assign(e), Register::RAX, Expr::Reg(t.vreg(), w));
    }
}

proof fn lemma_divides(a: Lift, instr: Instr, quotient: BinOp, remainder: BinOp)
    requires
        taken(a),
    ensures
        taken(a.divides(instr, quotient, remainder)),
{
    reveal(Lift::divides);
    let w = a.w();
    let (s, src) = a.operand(instr, 0);
    let (t, rax) = s.read_reg(Register::RAX, w);
    lemma_operand(a, instr, 0);
    lemma_read_reg(s, Register::RAX, w);
    let q = t.vreg();
    let r = t.took().vreg();
    let x = Expr::BinOp(quotient, Box::new(rax), Box::new(src));
    let y = Expr::BinOp(remainder, Box::new(rax), Box::new(src));
    let t2 = t.took().took();
    lemma_took(t);
    lemma_took(t.took());
    assert(fine(t, x) && fine(t, y));
    assert(fine(t2, x) && fine(t2, y));
    lemma_push(t2, StmtModel::Assign(q, x));
    let u = t2.push(StmtModel::Assign(q, x));
    lemma_push(u, StmtModel::Assign(r, y));
    let v = u.push(StmtModel::Assign(r, y));
    assert(fine(v, Expr::Reg(q, w)));
    lemma_write_reg(v, Register::RAX, Expr::Reg(q, w));
    let z = v.write_reg(Register::RAX, Expr::Reg(q, w));
    assert(fine(z, Expr::Reg(r, w)));
    lemma_write_reg(z, Register::RDX, Expr::Reg(r, w));
}

proof fn lemma_one(a: Lift, instr: Instr, bin: BinOp, un: UnOp)
    requires
        taken(a),
    ensures
        taken(a.steps(instr, bin)),
        taken(a.applies(instr, un)),
{
    reveal(Lift::steps);
    reveal(Lift::applies);
    let w = a.w();
    let (s, x) = a.operand(instr, 0);
    lemma_operand(a, instr, 0);
    let e = Expr::BinOp(bin, Box::new(x), Box::new(Expr::Const(1, w)));
    assert(fine(s, e)) by {
        reveal_with_fuel(regs_of, 2);
    }
    lemma_assign(s, e);
    lemma_set_operand(s.assign(e), instr, 0, Expr::Reg(s.vreg(), w));
    let f = Expr::UnOp(un, Box::new(x));
    assert(fine(s, f));
    lemma_assign(s, f);
    lemma_set_operand(s.assign(f), instr, 0, Expr::Reg(s.vreg(), w));
}

proof fn lemma_compared(a: Lift, op: BinOp, swap: bool)
    requires
        taken(a),
    ensures
        fine(a, a.compared(op, swap)),
        fine(a, a.last_result()),
{
    let (l, r) = a.cmp_operands();
    if a.flags is None {
        assert(fine(a, Expr::Const(0, a.w())));
    }
    assert(fine(a, l) && fine(a, r));
}

proof fn lemma_sets(a: Lift, instr: Instr, op: BinOp, swap: bool)
    requires
        taken(a),
    ensures
        taken(a.sets(instr, op, swap)),
{
    reveal(Lift::sets);
    lemma_compared(a, op, swap);
    let c = a.compared(op, swap);
    lemma_assign(a, c);
    let s = a.assign(c);
    let e = Expr::UnOp(UnOp::ZExt(Width::W8), Box::new(Expr::Reg(a.vreg(), Width::W8)));
    assert(fine(s, Expr::Reg(a.vreg(), Width::W8)));
    assert(fine(s, e));
    lemma_assign(s, e);
    lemma_set_operand(s.assign(e), instr, 0, Expr::Reg(s.vreg(), Width::W8));
}

proof fn lemma_args(a: Lift, n: int)
    requires
        taken(a),
    ensures
        a.next <= 0x1_0000_0000 ==> below(regs_of_all(a.call_args(n)), a.next),
    decreases n,
{
    if n > 0 {
        lemma_args(a, n - 1);
        let key = arg_reg(n - 1).number();
        if a.regs.contains_key(key) {
            let e = Expr::Reg(VReg(a.regs[key]), a.w());
            assert(fine(a, e));
            assert(a.call_args(n).drop_last() =~= a.call_args(n - 1));
        }
    }
}

proof fn lemma_calls(a: Lift, instr: Instr)
    requires
        taken(a),
    ensures
        taken(a.calls(instr)),
{
    reveal(Lift::calls);
    let (s, func) = a.operand(instr, 0);
    lemma_operand(a, instr, 0);
    lemma_args(s, 6);
    lemma_took(s);
    let call = StmtModel::Call { dst: Some(s.vreg()), func, args: s.call_args(6) };
    lemma_push(s.took(), call);
    assert(fine(s.took().push(call), Expr::Reg(s.vreg(), a.w())));
    lemma_write_reg(s.took().push(call), Register::RAX, Expr::Reg(s.vreg(), a.w()));
}

proof fn lemma_flow(a: Lift, instr: Instr, id: u32)
    requires
        taken(a),
    ensures
        taken(a.gives_back()),
        taken(a.jumps_on(instr)),
        taken(a.branches_on(instr, id)),
{
    assert(taken(a.gives_back())) by {
        reveal(Lift::gives_back);
        let key = Register::RAX.number();
        let val = if a.regs.contains_key(key) {
            Some(Expr::Reg(VReg(a.regs[key]), a.w()))
        } else {
            None
        };
        lemma_push(a, StmtModel::Return(val));
    }
    assert(taken(a.jumps_on(instr))) by {
        reveal(Lift::jumps_on);
        let target = instr.near_branch_target;
        lemma_push(a, StmtModel::Jump(a.blocks[target]));
        lemma_push(a, StmtModel::IndirectJump(Expr::Addr(target)));
        let (s, e) = a.operand(instr, 0);
        lemma_operand(a, instr, 0);
        lemma_push(s, StmtModel::IndirectJump(e));
    }
    assert(taken(a.branches_on(instr, id))) by {
        reveal(Lift::branches_on);
        let m = instr.mnemonic;
        let c = a.condition(m);
        lemma_compared(a, comparison(m).0, comparison(m).1);
        assert(fine(a, Expr::Const(0, a.w())));
        assert(fine(a, c));
        lemma_assign(a, c);
        assert(fine(a.assign(c), Expr::Reg(a.vreg(), Width::W8)));
        lemma_push(
            a.assign(c),
            StmtModel::Branch {
                cond: Expr::Reg(a.vreg(), Width::W8),
                true_id: a.block_at(instr.near_branch_target, 0),
                false_id: a.block_at(instr.next_ip, (id + 1) as u32),
            },
        );
    }
}

proof fn lemma_frames(a: Lift)
    requires
        taken(a),
    ensures
        taken(a.fills_sign()),
        taken(a.leaves()),
{
    let w = a.w();
    assert(taken(a.fills_sign())) by {
        reveal(Lift::fills_sign);
        let (s, rax) = a.read_reg(Register::RAX, w);
        lemma_read_reg(a, Register::RAX, w);
        let e = Expr::BinOp(BinOp::AShr, Box::new(rax), Box::new(Expr::Const(a.sign_bit(), w)));
        assert(fine(s, e)) by {
            reveal_with_fuel(regs_of, 2);
        }
        lemma_assign(s, e);
        lemma_write_reg(s.assign(e), Register::RDX, Expr::Reg(s.vreg(), w));
    }
    assert(taken(a.leaves())) by {
        reveal(Lift::leaves);
        let (s, rbp) = a.read_reg(Register::RBP, w);
        let t = s.write_reg(Register::RSP, rbp);
        let (u, rsp) = t.read_reg(Register::RSP, w);
        let e = Expr::Load(Box::new(rsp), w);
        let v = u.assign(e);
        let x = v.write_reg(Register::RBP, Expr::Reg(u.vreg(), w));
        let e2 = Expr::BinOp(BinOp::Add, Box::new(rsp), Box::new(Expr::Const(a.word(), w)));
        lemma_read_reg(a, Register::RBP, w);
        lemma_write_reg(s, Register::RSP, rbp);
        lemma_read_reg(t, Register::RSP, w);
        assert(fine(u, e));
        lemma_assign(u, e);
        lemma_write_reg(v, Register::RBP, Expr::Reg(u.vreg(), w));
        assert(fine(x, rsp));
        assert(fine(x, e2)) by {
            reveal_with_fuel(regs_of, 2);
        }
        lemma_assign(x, e2);
        lemma_bind(x.assign(e2), Register::RSP, x.vreg());
    }
}

proof fn lemma_instr_taken(a: Lift, instr: Instr, id: u32)
    requires
        taken(a),
    ensures
        taken(a.instr(instr, id)),
{
    match instr.mnemonic {
        Mnemonic::Movsx | Mnemonic::Movsxd => lemma_moves(a, instr, true),
        Mnemonic::Movzx => lemma_moves(a, instr, false),
        Mnemonic::Xchg => lemma_exchanges(a, instr),
        Mnemonic::Lea => lemma_moves(a, instr, false),
        Mnemonic::Push | Mnemonic::Pop => lemma_stack(a, instr),
        Mnemonic::Add => lemma_two(a, instr, BinOp::Add),
        Mnemonic::Sub => lemma_two(a, instr, BinOp::Sub),
        Mnemonic::Imul => {
            lemma_two(a, instr, BinOp::Mul);
            lemma_products(a, instr);
        },
        Mnemonic::Mul => lemma_products(a, instr),
        Mnemonic::Idiv => lemma_divides(a, instr, BinOp::SDiv, BinOp::SMod),
        Mnemonic::Div => lemma_divides(a, instr, BinOp::UDiv, BinOp::UMod),
        Mnemonic::Inc => lemma_one(a, instr, BinOp::Add, UnOp::Neg),
        Mnemonic::Dec => lemma_one(a, instr, BinOp::Sub, UnOp::Neg),
        Mnemonic::Neg => lemma_one(a, instr, BinOp::Add, UnOp::Neg),
        Mnemonic::Not => lemma_one(a, instr, BinOp::Add, UnOp::Not),
        Mnemonic::And => lemma_two(a, instr, BinOp::And),
        Mnemonic::Or => lemma_two(a, instr, BinOp::Or),
        Mnemonic::Xor => lemma_two(a, instr, BinOp::Xor),
        Mnemonic::Shl | Mnemonic::Sal => lemma_two(a, instr, BinOp::Shl),
        Mnemonic::Shr => lemma_two(a, instr, BinOp::LShr),
        Mnemonic::Sar => lemma_two(a, instr, BinOp::AShr),
        Mnemonic::Cmp => lemma_compares(a, instr),
        Mnemonic::Test => lemma_two(a, instr, BinOp::And),
        Mnemonic::Call => lemma_calls(a, instr),
        Mnemonic::Ret | Mnemonic::Retf | Mnemonic::Jmp => lemma_flow(a, instr, id),
        Mnemonic::Cdq | Mnemonic::Cqo | Mnemonic::Leave => lemma_frames(a),
        m => {
            lemma_moves(a, instr, false);
            lemma_sets(a, instr, comparison(m).0, comparison(m).1);
            lemma_flow(a, instr, id);
            lemma_push(a, StmtModel::Nop);
            lemma_push(a, StmtModel::Unhandled(m.text()));
        },
    }
}

/// All statements of the blocks read registers below `next` only.
pub open spec fn reads_below(blocks: Seq<BlockModel>, next: nat) -> bool {
    forall|i: int, j: int|
        0 <= i < blocks.len() && 0 <= j < blocks[i].stmts.len() ==> below(
            read_by(#[trigger] blocks[i].stmts[j]),
            next,
        )
}

proof fn lemma_steps_taken(g: Grouping, items: Seq<ItemModel>)
    requires
        taken(g.lift),
        reads_below(g.done, g.lift.next),
        g.steps(items).lift.next <= 0x1_0000_0000,
    ensures
        taken(g.steps(items).lift),
        reads_below(g.steps(items).done, g.steps(items).lift.next),
    decreases items.len(),
{
    if items.len() > 0 {
        let before = g.steps(items.drop_last());
        let item = items.last();
        let s = before.arrive(item.address);
        let next = g.steps(items);
        lemma_instr_grows(s.lift, item.instr, s.id);
        lemma_steps_taken(g, items.drop_last());
        assert(taken(s.lift));
        lemma_instr_taken(s.lift, item.instr, s.id);
        assert forall|i: int, j: int|
            0 <= i < next.done.len() && 0 <= j < next.done[i].stmts.len() implies below(
            read_by(#[trigger] next.done[i].stmts[j]),
            next.lift.next,
        ) by {
            if i < before.done.len() {
                assert(next.done[i] == before.done[i]);
                assert(below(read_by(before.done[i].stmts[j]), before.lift.next));
            } else if j < before.lift.out.len() {
                assert(next.done[i].stmts[j] == before.lift.out[j]);
                assert(below(read_by(before.lift.out[j]), before.lift.next));
            }
        }
    }
}

/// Every register that a function reads has a number below its counter; as long as the numbers of
/// registers suffice.
pub proof fn lemma_reads_below(arch: Arch, code: CodeModel)
    requires
        last_group(fresh_lift(arch), code).lift.next <= u32::MAX,
    ensures
        ({
            let f = lifted(fresh_lift(arch), code);
            reads_below(f.blocks, f.vreg_counter as nat)
        }),
{
    let lift = fresh_lift(arch);
    let first = first_group(lift, code);
    lemma_steps_taken(first, code.instrs);
    let last = last_group(lift, code);
    let all = last.all();
    let next = last.lift.next;
    let done = all_closed(all);
    assert forall|i: int, j: int| 0 <= i < done.len() && 0 <= j < done[i].stmts.len() implies below(
        read_by(#[trigger] done[i].stmts[j]),
        next,
    ) by {
        assert(done[i] == closed(all[i], StmtModel::Return(None)));
        if j < all[i].stmts.len() {
            assert(done[i].stmts[j] == all[i].stmts[j]);
            if i < last.done.len() {
                assert(all[i] == last.done[i]);
                assert(below(read_by(last.done[i].stmts[j]), next));
            } else {
                assert(below(read_by(last.lift.out[j]), next));
            }
        }
    }
    let blocks = lifted(lift, code).blocks;
    let id = last.lift.blocks[code.address];
    let k = place(done, id);
    lemma_place(done, id);
    assert forall|i: int, j: int|
        0 <= i < blocks.len() && 0 <= j < blocks[i].stmts.len() implies below(
        read_by(#[trigger] blocks[i].stmts[j]),
        next,
    ) by {
        let from = if k < done.len() {
            if i == 0 {
                k
            } else if i <= k {
                i - 1
            } else {
                i
            }
        } else {
            i - 1
        };
        if from >= 0 {
            assert(blocks[i] == done[from]);
            assert(below(read_by(done[from].stmts[j]), next));
        }
    }
}

} // verus!

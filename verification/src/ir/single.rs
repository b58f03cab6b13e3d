//! Every register of a lifted function is given a value in one place.
use vstd::prelude::*;

use super::blocks::lemma_place;
use super::meaning::{
    all_closed, closed, entered, first_group, last_group, lifted, place, Grouping, Lift,
};
use super::{BinOp, BlockModel, Expr, StmtModel, UnOp, VReg, Width};
use crate::disasm::kinds::{branches, canonical, lemma_canonical};
use crate::disasm::model::{CodeModel, ItemModel};
use crate::x86::{Instr, Mnemonic, OpKind, Register};

verus! {

/// The register that a statement gives a value.
pub open spec fn defined(s: StmtModel) -> Option<u32> {
    match s {
        StmtModel::Assign(dst, _) => Some(dst.0),
        StmtModel::Call { dst: Some(dst), .. } => Some(dst.0),
        _ => None,
    }
}

/// From `a` to `b` statements have been added, each for a register of its own, taken on the way;
/// as long as the numbers of registers suffice.
pub open spec fn grown(a: Lift, b: Lift) -> bool {
    &&& a.next <= b.next
    &&& a.arch == b.arch
    &&& a.blocks == b.blocks
    &&& a.out.len() <= b.out.len()
    &&& forall|i: int| 0 <= i < a.out.len() ==> #[trigger] b.out[i] == a.out[i]
    &&& b.next <= 0x1_0000_0000 ==> {
        &&& forall|i: int|
            a.out.len() <= i < b.out.len() ==> (defined(#[trigger] b.out[i]) matches Some(v)
                ==> a.next <= v < b.next)
        &&& forall|i: int, j: int|
            a.out.len() <= i < j < b.out.len() && defined(#[trigger] b.out[i]) is Some
                && defined(#[trigger] b.out[j]) is Some ==> defined(b.out[i]) != defined(b.out[j])
    }
}

/// Besides, none of the statements is a terminator.
pub open spec fn quiet(a: Lift, b: Lift) -> bool {
    grown(a, b) && forall|i: int|
        a.out.len() <= i < b.out.len() ==> !(#[trigger] b.out[i]).is_terminator()
}

/// Besides, the last of the statements is a terminator, and no other.
pub open spec fn ended(a: Lift, b: Lift) -> bool {
    &&& grown(a, b)
    &&& a.out.len() < b.out.len()
    &&& b.out.last().is_terminator()
    &&& forall|i: int|
        a.out.len() <= i < b.out.len() - 1 ==> !(#[trigger] b.out[i]).is_terminator()
}

/// The operation is lifted to a terminator.
pub open spec fn terminates(m: Mnemonic) -> bool {
    m == Mnemonic::Ret || m == Mnemonic::Retf || m == Mnemonic::Jmp || branches(m)
}

proof fn lemma_chain(a: Lift, b: Lift, c: Lift)
    requires
        quiet(a, b),
        quiet(b, c),
    ensures
        quiet(a, c),
{
    if c.next <= 0x1_0000_0000 {
        assert forall|i: int| a.out.len() <= i < c.out.len() implies (defined(
            #[trigger] c.out[i],
        ) matches Some(v) ==> a.next <= v < c.next) by {
            if i < b.out.len() {
                assert(c.out[i] == b.out[i]);
            }
        }
        assert forall|i: int, j: int|
            a.out.len() <= i < j < c.out.len() && defined(#[trigger] c.out[i]) is Some && defined(
                #[trigger] c.out[j],
            ) is Some implies defined(c.out[i]) != defined(c.out[j]) by {
            if i < b.out.len() {
                assert(c.out[i] == b.out[i]);
            }
            if j < b.out.len() {
                assert(c.out[j] == b.out[j]);
            }
        }
    }
    assert forall|i: int| a.out.len() <= i < c.out.len() implies !(
    #[trigger] c.out[i]).is_terminator() by {
        if i < b.out.len() {
            assert(c.out[i] == b.out[i]);
        }
    }
}

proof fn lemma_push(a: Lift, s: StmtModel)
    requires
        defined(s) is None,
        !s.is_terminator(),
    ensures
        quiet(a, a.push(s)),
{
}

proof fn lemma_assign(a: Lift, e: Expr)
    ensures
        quiet(a, a.assign(e)),
{
}

proof fn lemma_bind(a: Lift, r: Register, v: VReg)
    ensures
        quiet(a, a.bind(r, v)),
{
}

proof fn lemma_read_reg(a: Lift, r: Register, width: Width)
    ensures
        quiet(a, a.read_reg(r, width).0),
{
    let s = a.seen(r);
    assert(quiet(a, s));
    let vr = VReg(s.regs[crate::disasm::kinds::canonical(r).number()]);
    let e = Expr::UnOp(UnOp::Trunc(width), Box::new(Expr::Reg(vr, a.w())));
    lemma_assign(s, e);
    lemma_chain(a, s, s.assign(e));
}

proof fn lemma_write_reg(a: Lift, r: Register, val: Expr)
    ensures
        quiet(a, a.write_reg(r, val)),
{
    let (s, full) = match val.value_width() {
        Width::W64 => (a, val),
        Width::W32 => (
            a.assign(Expr::UnOp(UnOp::ZExt(Width::W64), Box::new(val))),
            Expr::Reg(a.vreg(), Width::W64),
        ),
        _ => (
            a.assign(Expr::UnOp(UnOp::ZExt(a.w()), Box::new(val))),
            Expr::Reg(a.vreg(), a.w()),
        ),
    };
    lemma_assign(a, Expr::UnOp(UnOp::ZExt(Width::W64), Box::new(val)));
    lemma_assign(a, Expr::UnOp(UnOp::ZExt(a.w()), Box::new(val)));
    assert(quiet(a, s));
    let t = s.assign(full);
    lemma_assign(s, full);
    let canon = crate::disasm::kinds::canonical(r);
    lemma_bind(t, canon, s.vreg());
    lemma_chain(a, s, t);
    lemma_chain(a, t, t.bind(canon, s.vreg()));
}

proof fn lemma_plus(a: Lift, sum: Option<Expr>, part: Expr)
    ensures
        quiet(a, a.plus(sum, part).0),
{
    if let Some(x) = sum {
        lemma_assign(a, Expr::BinOp(BinOp::Add, Box::new(x), Box::new(part)));
    }
}

proof fn lemma_mem_addr(a: Lift, instr: Instr)
    ensures
        quiet(a, a.mem_addr(instr).0),
{
    let (s, base) = a.mem_base(instr);
    lemma_read_reg(a, instr.memory.base, a.w());
    assert(quiet(a, s));
    let (t, sum) = if instr.memory.index != Register::NoRegister {
        let (u, scaled) = s.mem_index(instr);
        let (v, e) = u.plus(base, scaled);
        (v, Some(e))
    } else {
        (s, base)
    };
    if instr.memory.index != Register::NoRegister {
        let (u, scaled) = s.mem_index(instr);
        let (r, e) = s.read_reg(instr.memory.index, s.w());
        lemma_read_reg(s, instr.memory.index, s.w());
        let m = Expr::BinOp(
            BinOp::Mul,
            Box::new(e),
            Box::new(Expr::Const(instr.memory.scale as i64, s.w())),
        );
        lemma_assign(r, m);
        lemma_chain(s, r, r.assign(m));
        assert(quiet(s, u));
        lemma_plus(u, base, scaled);
        lemma_chain(s, u, t);
        lemma_chain(a, s, t);
    }
    assert(quiet(a, t));
    let disp = Expr::Const(super::meaning::signed64(instr.memory.displacement) as i64, a.w());
    lemma_plus(t, sum, disp);
    lemma_chain(a, t, t.plus(sum, disp).0);
}

proof fn lemma_operand(a: Lift, instr: Instr, n: int)
    ensures
        quiet(a, a.operand(instr, n).0),
{
    let op = instr.operand(n);
    lemma_read_reg(
        a,
        op.register,
        Width::of_bits(crate::disasm::kinds::bits_of(op.register)),
    );
    lemma_mem_addr(a, instr);
}

proof fn lemma_set_operand(a: Lift, instr: Instr, n: int, val: Expr)
    ensures
        quiet(a, a.set_operand(instr, n, val)),
{
    let op = instr.operand(n);
    match op.kind {
        OpKind::Register => {
            lemma_write_reg(a, op.register, val);
        },
        OpKind::Memory => {
            let (s, addr) = a.mem_addr(instr);
            lemma_mem_addr(a, instr);
            let store = StmtModel::Store {
                addr,
                val,
                width: super::meaning::size_width(instr.memory.size),
            };
            lemma_push(s, store);
            lemma_chain(a, s, s.push(store));
        },
        _ => {},
    }
}

proof fn lemma_copies(a: Lift, instr: Instr)
    ensures
        quiet(a, a.copies(instr)),
{
    reveal(Lift::copies);
    let (s, src) = a.operand(instr, 1);
    lemma_operand(a, instr, 1);
    lemma_set_operand(s, instr, 0, src);
    lemma_chain(a, s, a.copies(instr));
}

proof fn lemma_extends(a: Lift, instr: Instr, signed: bool)
    ensures
        quiet(a, a.extends(instr, signed)),
{
    reveal(Lift::extends);
    let (s, src) = a.operand(instr, 1);
    let width = a.target_width(instr);
    let op = if signed {
        UnOp::SExt(width)
    } else {
        UnOp::ZExt(width)
    };
    let e = Expr::UnOp(op, Box::new(src));
    let t = s.assign(e);
    lemma_operand(a, instr, 1);
    lemma_assign(s, e);
    lemma_set_operand(t, instr, 0, Expr::Reg(s.vreg(), width));
    lemma_chain(a, s, t);
    lemma_chain(a, t, a.extends(instr, signed));
}

proof fn lemma_exchanges(a: Lift, instr: Instr)
    ensures
        quiet(a, a.exchanges(instr)),
{
    reveal(Lift::exchanges);
    let (s, x) = a.operand(instr, 0);
    let (t, y) = s.operand(instr, 1);
    let u = t.set_operand(instr, 0, y);
    lemma_operand(a, instr, 0);
    lemma_operand(s, instr, 1);
    lemma_set_operand(t, instr, 0, y);
    lemma_set_operand(u, instr, 1, x);
    lemma_chain(a, s, t);
    lemma_chain(a, t, u);
    lemma_chain(a, u, a.exchanges(instr));
}

proof fn lemma_loads_address(a: Lift, instr: Instr)
    ensures
        quiet(a, a.loads_address(instr)),
{
    reveal(Lift::loads_address);
    let (s, addr) = a.mem_addr(instr);
    lemma_mem_addr(a, instr);
    lemma_set_operand(s, instr, 0, addr);
    lemma_chain(a, s, a.loads_address(instr));
}

proof fn lemma_pushes(a: Lift, instr: Instr)
    ensures
        quiet(a, a.pushes(instr)),
{
    reveal(Lift::pushes);
    let w = a.w();
    let (s, val) = a.operand(instr, 0);
    let (t, rsp) = s.read_reg(Register::RSP, w);
    let e = Expr::BinOp(BinOp::Sub, Box::new(rsp), Box::new(Expr::Const(a.word(), w)));
    let u = t.assign(e);
    let top = t.vreg();
    let v = u.bind(Register::RSP, top);
    lemma_operand(a, instr, 0);
    lemma_read_reg(s, Register::RSP, w);
    lemma_assign(t, e);
    lemma_bind(u, Register::RSP, top);
    lemma_push(v, StmtModel::Store { addr: Expr::Reg(top, w), val, width: w });
    lemma_chain(a, s, t);
    lemma_chain(a, t, u);
    lemma_chain(a, u, v);
    lemma_chain(a, v, a.pushes(instr));
}

proof fn lemma_pops(a: Lift, instr: Instr)
    ensures
        quiet(a, a.pops(instr)),
{
    reveal(Lift::pops);
    let w = a.w();
    let (s, rsp) = a.read_reg(Register::RSP, w);
    let e = Expr::Load(Box::new(rsp), w);
    let t = s.assign(e);
    let u = t.set_operand(instr, 0, Expr::Reg(s.vreg(), w));
    let (v, rsp2) = u.read_reg(Register::RSP, w);
    let e2 = Expr::BinOp(BinOp::Add, Box::new(rsp2), Box::new(Expr::Const(a.word(), w)));
    let x = v.assign(e2);
    lemma_read_reg(a, Register::RSP, w);
    lemma_assign(s, e);
    lemma_set_operand(t, instr, 0, Expr::Reg(s.vreg(), w));
    lemma_read_reg(u, Register::RSP, w);
    lemma_assign(v, e2);
    lemma_bind(x, Register::RSP, v.vreg());
    lemma_chain(a, s, t);
    lemma_chain(a, t, u);
    lemma_chain(a, u, v);
    lemma_chain(a, v, x);
    lemma_chain(a, x, a.pops(instr));
}

proof fn lemma_combines(a: Lift, instr: Instr, op: BinOp)
    ensures
        quiet(a, a.combines(instr, op)),
{
    reveal(Lift::combines);
    let (s, x) = a.operand(instr, 0);
    let (t, y) = s.operand(instr, 1);
    let e = Expr::BinOp(op, Box::new(x), Box::new(y));
    let u = t.assign(e);
    lemma_operand(a, instr, 0);
    lemma_operand(s, instr, 1);
    lemma_assign(t, e);
    lemma_set_operand(u, instr, 0, Expr::Reg(t.vreg(), a.w()));
    lemma_chain(a, s, t);
    lemma_chain(a, t, u);
    lemma_chain(a, u, a.combines(instr, op));
}

proof fn lemma_multiplies(a: Lift, instr: Instr)
    ensures
        quiet(a, a.multiplies(instr)),
{
    reveal(Lift::multiplies);
    let (s, x) = a.operand(instr, 1);
    let (t, y) = s.operand(instr, 2);
    let e = Expr::BinOp(BinOp::Mul, Box::new(x), Box::new(y));
    let u = t.assign(e);
    lemma_operand(a, instr, 1);
    lemma_operand(s, instr, 2);
    lemma_assign(t, e);
    lemma_set_operand(u, instr, 0, Expr::Reg(t.vreg(), a.w()));
    lemma_chain(a, s, t);
    lemma_chain(a, t, u);
    lemma_chain(a, u, a.multiplies(instr));
}

proof fn lemma_multiplies_rax(a: Lift, instr: Instr)
    ensures
        quiet(a, a.multiplies_rax(instr)),
{
    reveal(Lift::multiplies_rax);
    let (s, src) = a.operand(instr, 0);
    let (t, rax) = s.read_reg(Register::RAX, a.w());
    let e = Expr::BinOp(BinOp::Mul, Box::new(rax), Box::new(src));
    let u = t.assign(e);
    lemma_operand(a, instr, 0);
    lemma_read_reg(s, Register::RAX, a.w());
    lemma_assign(t, e);
    lemma_write_reg(u, Register::RAX, Expr::Reg(t.vreg(), a.w()));
    lemma_chain(a, s, t);
    lemma_chain(a, t, u);
    lemma_chain(a, u, a.multiplies_rax(instr));
}

proof fn lemma_divides(a: Lift, instr: Instr, quotient: BinOp, remainder: BinOp)
    ensures
        quiet(a, a.divides(instr, quotient, remainder)),
{
    reveal(Lift::divides);
    let w = a.w();
    let (s, src) = a.operand(instr, 0);
    let (t, rax) = s.read_reg(Register::RAX, w);
    let q = t.vreg();
    let r = t.took().vreg();
    let u = t.took().took().push(
        StmtModel::Assign(q, Expr::BinOp(quotient, Box::new(rax), Box::new(src))),
    ).push(StmtModel::Assign(r, Expr::BinOp(remainder, Box::new(rax), Box::new(src))));
    let v = u.write_reg(Register::RAX, Expr::Reg(q, w));
    lemma_operand(a, instr, 0);
    lemma_read_reg(s, Register::RAX, w);
    assert(quiet(t, u));
    lemma_write_reg(u, Register::RAX, Expr::Reg(q, w));
    lemma_write_reg(v, Register::RDX, Expr::Reg(r, w));
    lemma_chain(a, s, t);
    lemma_chain(a, t, u);
    lemma_chain(a, u, v);
    lemma_chain(a, v, a.divides(instr, quotient, remainder));
}

proof fn lemma_steps(a: Lift, instr: Instr, op: BinOp)
    ensures
        quiet(a, a.steps(instr, op)),
{
    reveal(Lift::steps);
    let w = a.w();
    let (s, dst) = a.operand(instr, 0);
    let e = Expr::BinOp(op, Box::new(dst), Box::new(Expr::Const(1, w)));
    let t = s.assign(e);
    lemma_operand(a, instr, 0);
    lemma_assign(s, e);
    lemma_set_operand(t, instr, 0, Expr::Reg(s.vreg(), w));
    lemma_chain(a, s, t);
    lemma_chain(a, t, a.steps(instr, op));
}

proof fn lemma_applies(a: Lift, instr: Instr, op: UnOp)
    ensures
        quiet(a, a.applies(instr, op)),
{
    reveal(Lift::applies);
    let (s, src) = a.operand(instr, 0);
    let e = Expr::UnOp(op, Box::new(src));
    let t = s.assign(e);
    lemma_operand(a, instr, 0);
    lemma_assign(s, e);
    lemma_set_operand(t, instr, 0, Expr::Reg(s.vreg(), a.w()));
    lemma_chain(a, s, t);
    lemma_chain(a, t, a.applies(instr, op));
}

proof fn lemma_excludes(a: Lift, instr: Instr)
    ensures
        quiet(a, a.excludes(instr)),
{
    reveal(Lift::excludes);
    lemma_set_operand(a, instr, 0, Expr::Const(0, a.w()));
    lemma_combines(a, instr, BinOp::Xor);
}

proof fn lemma_latched(a: Lift, e: Expr)
    ensures
        quiet(a, a.latched(e).0),
{
    lemma_assign(a, e);
}

proof fn lemma_compares(a: Lift, instr: Instr)
    ensures
        quiet(a, a.compares(instr)),
{
    reveal(Lift::compares);
    let (s, x) = a.operand(instr, 0);
    let (t, y) = s.operand(instr, 1);
    let (u, l) = t.latched(x);
    let (v, r) = u.latched(y);
    let e = Expr::BinOp(BinOp::Sub, Box::new(l), Box::new(r));
    let z = v.assign(e);
    lemma_operand(a, instr, 0);
    lemma_operand(s, instr, 1);
    lemma_latched(t, x);
    lemma_latched(u, y);
    lemma_assign(v, e);
    lemma_chain(a, s, t);
    lemma_chain(a, t, u);
    lemma_chain(a, u, v);
    lemma_chain(a, v, z);
    lemma_chain(a, z, a.compares(instr));
}

proof fn lemma_tests(a: Lift, instr: Instr)
    ensures
        quiet(a, a.tests(instr)),
{
    reveal(Lift::tests);
    let (s, x) = a.operand(instr, 0);
    let (t, y) = s.operand(instr, 1);
    let e = Expr::BinOp(BinOp::And, Box::new(x), Box::new(y));
    let u = t.assign(e);
    lemma_operand(a, instr, 0);
    lemma_operand(s, instr, 1);
    lemma_assign(t, e);
    lemma_chain(a, s, t);
    lemma_chain(a, t, u);
    lemma_chain(a, u, a.tests(instr));
}

proof fn lemma_sets(a: Lift, instr: Instr, op: BinOp, swap: bool)
    ensures
        quiet(a, a.sets(instr, op, swap)),
{
    reveal(Lift::sets);
    let s = a.assign(a.compared(op, swap));
    let e = Expr::UnOp(UnOp::ZExt(Width::W8), Box::new(Expr::Reg(a.vreg(), Width::W8)));
    let t = s.assign(e);
    lemma_assign(a, a.compared(op, swap));
    lemma_assign(s, e);
    lemma_set_operand(t, instr, 0, Expr::Reg(s.vreg(), Width::W8));
    lemma_chain(a, s, t);
    lemma_chain(a, t, a.sets(instr, op, swap));
}

proof fn lemma_calls(a: Lift, instr: Instr)
    ensures
        quiet(a, a.calls(instr)),
{
    reveal(Lift::calls);
    let (s, func) = a.operand(instr, 0);
    let dst = s.vreg();
    let t = s.took().push(StmtModel::Call { dst: Some(dst), func, args: s.call_args(6) });
    lemma_operand(a, instr, 0);
    assert(quiet(s, t));
    lemma_write_reg(t, Register::RAX, Expr::Reg(dst, a.w()));
    lemma_chain(a, s, t);
    lemma_chain(a, t, a.calls(instr));
}

/// Statements have been added, and then a terminator.
proof fn lemma_ends(a: Lift, s: Lift, t: StmtModel)
    requires
        quiet(a, s),
        defined(t) is None,
        t.is_terminator(),
    ensures
        ended(a, s.push(t)),
{
    let b = s.push(t);
    assert forall|i: int| a.out.len() <= i < b.out.len() - 1 implies !(
    #[trigger] b.out[i]).is_terminator() by {
        assert(b.out[i] == s.out[i]);
    }
    if b.next <= 0x1_0000_0000 {
        assert forall|i: int| a.out.len() <= i < b.out.len() implies (defined(
            #[trigger] b.out[i],
        ) matches Some(v) ==> a.next <= v < b.next) by {
            if i < s.out.len() {
                assert(b.out[i] == s.out[i]);
            }
        }
        assert forall|i: int, j: int|
            a.out.len() <= i < j < b.out.len() && defined(#[trigger] b.out[i]) is Some && defined(
                #[trigger] b.out[j],
            ) is Some implies defined(b.out[i]) != defined(b.out[j]) by {
            assert(b.out[i] == s.out[i] && b.out[j] == s.out[j]);
        }
    }
}

proof fn lemma_gives_back(a: Lift)
    ensures
        ended(a, a.gives_back()),
{
    reveal(Lift::gives_back);
}

proof fn lemma_jumps_on(a: Lift, instr: Instr)
    ensures
        ended(a, a.jumps_on(instr)),
{
    reveal(Lift::jumps_on);
    let (s, e) = a.operand(instr, 0);
    lemma_operand(a, instr, 0);
    lemma_ends(a, s, StmtModel::IndirectJump(e));
}

proof fn lemma_branches_on(a: Lift, instr: Instr, id: u32)
    ensures
        ended(a, a.branches_on(instr, id)),
{
    reveal(Lift::branches_on);
    let s = a.assign(a.condition(instr.mnemonic));
    lemma_assign(a, a.condition(instr.mnemonic));
    let branch = StmtModel::Branch {
        cond: Expr::Reg(a.vreg(), Width::W8),
        true_id: a.block_at(instr.near_branch_target, 0),
        false_id: a.block_at(instr.next_ip, (id + 1) as u32),
    };
    lemma_ends(a, s, branch);
}

proof fn lemma_fills_sign(a: Lift)
    ensures
        quiet(a, a.fills_sign()),
{
    reveal(Lift::fills_sign);
    let w = a.w();
    let (s, rax) = a.read_reg(Register::RAX, w);
    let e = Expr::BinOp(BinOp::AShr, Box::new(rax), Box::new(Expr::Const(a.sign_bit(), w)));
    let t = s.assign(e);
    lemma_read_reg(a, Register::RAX, w);
    lemma_assign(s, e);
    lemma_write_reg(t, Register::RDX, Expr::Reg(s.vreg(), w));
    lemma_chain(a, s, t);
    lemma_chain(a, t, a.fills_sign());
}

proof fn lemma_leaves(a: Lift)
    ensures
        quiet(a, a.leaves()),
{
    reveal(Lift::leaves);
    let w = a.w();
    let (s, rbp) = a.read_reg(Register::RBP, w);
    let t = s.write_reg(Register::RSP, rbp);
    let (u, rsp) = t.read_reg(Register::RSP, w);
    let e = Expr::Load(Box::new(rsp), w);
    let v = u.assign(e);
    let x = v.write_reg(Register::RBP, Expr::Reg(u.vreg(), w));
    let e2 = Expr::BinOp(BinOp::Add, Box::new(rsp), Box::new(Expr::Const(a.word(), w)));
    let y = x.assign(e2);
    lemma_read_reg(a, Register::RBP, w);
    lemma_write_reg(s, Register::RSP, rbp);
    lemma_read_reg(t, Register::RSP, w);
    lemma_assign(u, e);
    lemma_write_reg(v, Register::RBP, Expr::Reg(u.vreg(), w));
    lemma_assign(x, e2);
    lemma_bind(y, Register::RSP, x.vreg());
    lemma_chain(a, s, t);
    lemma_chain(a, t, u);
    lemma_chain(a, u, v);
    lemma_chain(a, v, x);
    lemma_chain(a, x, y);
    lemma_chain(a, y, a.leaves());
}

/// An instruction adds statements, each for a register of its own; the last of them is a terminator
/// exactly where the operation is a jump, a branch or a return, and no other is.
pub proof fn lemma_instr_grows(a: Lift, instr: Instr, id: u32)
    ensures
        grown(a, a.instr(instr, id)),
        terminates(instr.mnemonic) ==> ended(a, a.instr(instr, id)),
        !terminates(instr.mnemonic) ==> quiet(a, a.instr(instr, id)),
{
    match instr.mnemonic {
        Mnemonic::Movsx | Mnemonic::Movsxd => lemma_extends(a, instr, true),
        Mnemonic::Movzx => lemma_extends(a, instr, false),
        Mnemonic::Xchg => lemma_exchanges(a, instr),
        Mnemonic::Lea => lemma_loads_address(a, instr),
        Mnemonic::Push => lemma_pushes(a, instr),
        Mnemonic::Pop => lemma_pops(a, instr),
        Mnemonic::Add => lemma_combines(a, instr, BinOp::Add),
        Mnemonic::Sub => lemma_combines(a, instr, BinOp::Sub),
        Mnemonic::Imul => {
            lemma_combines(a, instr, BinOp::Mul);
            lemma_multiplies(a, instr);
            lemma_multiplies_rax(a, instr);
        },
        Mnemonic::Mul => lemma_multiplies_rax(a, instr),
        Mnemonic::Idiv => lemma_divides(a, instr, BinOp::SDiv, BinOp::SMod),
        Mnemonic::Div => lemma_divides(a, instr, BinOp::UDiv, BinOp::UMod),
        Mnemonic::Inc => lemma_steps(a, instr, BinOp::Add),
        Mnemonic::Dec => lemma_steps(a, instr, BinOp::Sub),
        Mnemonic::Neg => lemma_applies(a, instr, UnOp::Neg),
        Mnemonic::Not => lemma_applies(a, instr, UnOp::Not),
        Mnemonic::And => lemma_combines(a, instr, BinOp::And),
        Mnemonic::Or => lemma_combines(a, instr, BinOp::Or),
        Mnemonic::Xor => lemma_excludes(a, instr),
        Mnemonic::Shl | Mnemonic::Sal => lemma_combines(a, instr, BinOp::Shl),
        Mnemonic::Shr => lemma_combines(a, instr, BinOp::LShr),
        Mnemonic::Sar => lemma_combines(a, instr, BinOp::AShr),
        Mnemonic::Cmp => lemma_compares(a, instr),
        Mnemonic::Test => lemma_tests(a, instr),
        Mnemonic::Call => lemma_calls(a, instr),
        Mnemonic::Ret | Mnemonic::Retf => lemma_gives_back(a),
        Mnemonic::Jmp => lemma_jumps_on(a, instr),
        Mnemonic::Cdq | Mnemonic::Cqo => lemma_fills_sign(a),
        Mnemonic::Leave => lemma_leaves(a),
        m => {
            lemma_copies(a, instr);
            lemma_sets(
                a,
                instr,
                super::meaning::comparison(m).0,
                super::meaning::comparison(m).1,
            );
            lemma_branches_on(a, instr, id);
            lemma_push(a, StmtModel::Nop);
            lemma_push(a, StmtModel::Unhandled(m.text()));
        },
    }
}

/// Every register below `next` that the blocks give a value gets it in one place.
pub open spec fn single(blocks: Seq<BlockModel>, next: nat) -> bool {
    &&& forall|i: int, j: int|
        0 <= i < blocks.len() && 0 <= j < blocks[i].stmts.len() ==> (defined(
            #[trigger] blocks[i].stmts[j],
        ) matches Some(v) ==> v < next)
    &&& forall|i: int, j: int, k: int, l: int|
        0 <= i < blocks.len() && 0 <= j < blocks[i].stmts.len() && 0 <= k < blocks.len() && 0 <= l
            < blocks[k].stmts.len() && defined(#[trigger] blocks[i].stmts[j]) is Some && defined(
            blocks[i].stmts[j],
        ) == defined(#[trigger] blocks[k].stmts[l]) ==> i == k && j == l
}

/// Closing a block gives no register a value.
proof fn lemma_closed_single(blocks: Seq<BlockModel>, n: int, end: StmtModel, next: nat)
    requires
        single(blocks, next),
        0 <= n < blocks.len(),
        defined(end) is None,
    ensures
        single(blocks.update(n, closed(blocks[n], end)), next),
{
    let b = blocks.update(n, closed(blocks[n], end));
    assert forall|i: int, j: int|
        0 <= i < b.len() && 0 <= j < b[i].stmts.len() implies (defined(
        #[trigger] b[i].stmts[j],
    ) matches Some(v) ==> v < next) by {
        if j < blocks[i].stmts.len() {
            assert(b[i].stmts[j] == blocks[i].stmts[j]);
        }
    }
    assert forall|i: int, j: int, k: int, l: int|
        0 <= i < b.len() && 0 <= j < b[i].stmts.len() && 0 <= k < b.len() && 0 <= l
            < b[k].stmts.len() && defined(#[trigger] b[i].stmts[j]) is Some && defined(
            b[i].stmts[j],
        ) == defined(#[trigger] b[k].stmts[l]) implies i == k && j == l by {
        assert(j < blocks[i].stmts.len() && l < blocks[k].stmts.len());
        assert(b[i].stmts[j] == blocks[i].stmts[j]);
        assert(b[k].stmts[l] == blocks[k].stmts[l]);
    }
}

/// All blocks so far, the current one last.
spec fn so_far(g: Grouping) -> Seq<BlockModel> {
    g.done.push(g.current())
}

proof fn lemma_arrive_single(g: Grouping, addr: u64)
    requires
        single(so_far(g), g.lift.next),
    ensures
        single(so_far(g.arrive(addr)), g.arrive(addr).lift.next),
        g.arrive(addr).lift.next == g.lift.next,
{
    if g.lift.blocks.contains_key(addr) && g.lift.blocks[addr] != g.id {
        let id = g.lift.blocks[addr];
        let n = g.done.len() as int;
        let end = StmtModel::Jump(id);
        lemma_closed_single(so_far(g), n, end, g.lift.next);
        let closed_up = so_far(g).update(n, closed(so_far(g)[n], end));
        let next = so_far(g.arrive(addr));
        assert(next =~= closed_up.push(
            BlockModel { id, address: addr, stmts: Seq::empty() },
        ));
        assert forall|i: int, j: int|
            0 <= i < next.len() && 0 <= j < next[i].stmts.len() implies (defined(
            #[trigger] next[i].stmts[j],
        ) matches Some(v) ==> v < g.lift.next) by {
            assert(next[i] == closed_up[i]);
            assert(closed_up[i].stmts[j] == next[i].stmts[j]);
        }
        assert forall|i: int, j: int, k: int, l: int|
            0 <= i < next.len() && 0 <= j < next[i].stmts.len() && 0 <= k < next.len() && 0 <= l
                < next[k].stmts.len() && defined(#[trigger] next[i].stmts[j]) is Some && defined(
                next[i].stmts[j],
            ) == defined(#[trigger] next[k].stmts[l]) implies i == k && j == l by {
            assert(next[i] == closed_up[i] && next[k] == closed_up[k]);
            assert(closed_up[i].stmts[j] == next[i].stmts[j]);
            assert(closed_up[k].stmts[l] == next[k].stmts[l]);
        }
    }
}

proof fn lemma_grow_single(g: Grouping, lift: Lift)
    requires
        single(so_far(g), g.lift.next),
        grown(g.lift, lift),
        lift.next <= 0x1_0000_0000,
    ensures
        single(so_far(Grouping { lift, ..g }), lift.next),
{
    let old_blocks = so_far(g);
    let n = g.done.len() as int;
    let b = so_far(Grouping { lift, ..g });
    assert(old_blocks[n].stmts == g.lift.out);
    assert(b[n].stmts == lift.out);
    assert forall|i: int, j: int|
        0 <= i < b.len() && 0 <= j < b[i].stmts.len() implies (defined(
        #[trigger] b[i].stmts[j],
    ) matches Some(v) ==> v < lift.next) by {
        if i < n {
            assert(b[i] == old_blocks[i]);
            assert(old_blocks[i].stmts[j] == b[i].stmts[j]);
        } else if j < g.lift.out.len() {
            assert(lift.out[j] == g.lift.out[j]);
            assert(old_blocks[n].stmts[j] == b[n].stmts[j]);
        }
    }
    assert forall|i: int, j: int, k: int, l: int|
        0 <= i < b.len() && 0 <= j < b[i].stmts.len() && 0 <= k < b.len() && 0 <= l
            < b[k].stmts.len() && defined(#[trigger] b[i].stmts[j]) is Some && defined(
            b[i].stmts[j],
        ) == defined(#[trigger] b[k].stmts[l]) implies i == k && j == l by {
        let first_old = i < n || j < g.lift.out.len();
        let second_old = k < n || l < g.lift.out.len();
        if first_old {
            assert(b[i].stmts[j] == old_blocks[i].stmts[j]);
        } else {
            assert(b[i].stmts[j] == lift.out[j]);
        }
        if second_old {
            assert(b[k].stmts[l] == old_blocks[k].stmts[l]);
        } else {
            assert(b[k].stmts[l] == lift.out[l]);
        }
    }
}

proof fn lemma_steps_single(g: Grouping, items: Seq<ItemModel>)
    requires
        single(so_far(g), g.lift.next),
        g.steps(items).lift.next <= 0x1_0000_0000,
    ensures
        single(so_far(g.steps(items)), g.steps(items).lift.next),
    decreases items.len(),
{
    if items.len() > 0 {
        let before = g.steps(items.drop_last());
        let item = items.last();
        let s = before.arrive(item.address);
        lemma_instr_grows(s.lift, item.instr, s.id);
        lemma_steps_single(g, items.drop_last());
        lemma_arrive_single(before, item.address);
        lemma_grow_single(s, s.lift.instr(item.instr, s.id));
    }
}

/// In a lifted function every register is given a value by one statement at most, and its number
/// is below the counter of the function; as long as the numbers of registers suffice.
pub proof fn lemma_single_assignment(lift: Lift, code: CodeModel)
    requires
        last_group(lift, code).lift.next <= u32::MAX,
    ensures
        single(lifted(lift, code).blocks, lifted(lift, code).vreg_counter as nat),
{
    let first = first_group(lift, code);
    let last = last_group(lift, code);
    let next = last.lift.next;
    assert(single(so_far(first), first.lift.next));
    lemma_steps_single(first, code.instrs);
    let all = last.all();
    assert(all == so_far(last));
    lemma_all_closed_single(all, all.len() as int, next);
    assert(partly_closed(all, all.len() as int) =~= all_closed(all));
    lemma_entered_single(
        all_closed(all),
        last.lift.blocks[code.address],
        code.address,
        next,
    );
}

/// The order of the blocks does not matter.
proof fn lemma_entered_single(blocks: Seq<BlockModel>, id: u32, address: u64, next: nat)
    requires
        single(blocks, next),
    ensures
        single(entered(blocks, id, address), next),
{
    let b = entered(blocks, id, address);
    let n = place(blocks, id);
    lemma_place(blocks, id);
    let from = |i: int|
        if n < blocks.len() {
            if i == 0 {
                n
            } else if i <= n {
                i - 1
            } else {
                i
            }
        } else {
            i - 1
        };
    assert forall|i: int| 0 <= i < b.len() && from(i) >= 0 implies #[trigger] b[i] == blocks[from(
        i,
    )] && from(i) < blocks.len() by {}
    assert forall|i: int, j: int|
        0 <= i < b.len() && 0 <= j < b[i].stmts.len() implies (defined(
        #[trigger] b[i].stmts[j],
    ) matches Some(v) ==> v < next) by {
        if from(i) >= 0 {
            assert(b[i].stmts[j] == blocks[from(i)].stmts[j]);
        }
    }
    assert forall|i: int, j: int, k: int, l: int|
        0 <= i < b.len() && 0 <= j < b[i].stmts.len() && 0 <= k < b.len() && 0 <= l
            < b[k].stmts.len() && defined(#[trigger] b[i].stmts[j]) is Some && defined(
            b[i].stmts[j],
        ) == defined(#[trigger] b[k].stmts[l]) implies i == k && j == l by {
        assert(from(i) >= 0 && from(k) >= 0);
        assert(b[i].stmts[j] == blocks[from(i)].stmts[j]);
        assert(b[k].stmts[l] == blocks[from(k)].stmts[l]);
        assert(from(i) == from(k));
    }
}

/// The first `n` blocks are closed.
spec fn partly_closed(blocks: Seq<BlockModel>, n: int) -> Seq<BlockModel> {
    Seq::new(
        blocks.len(),
        |i: int|
            if i < n {
                closed(blocks[i], StmtModel::Return(None))
            } else {
                blocks[i]
            },
    )
}

proof fn lemma_all_closed_single(blocks: Seq<BlockModel>, n: int, next: nat)
    requires
        single(blocks, next),
        0 <= n <= blocks.len(),
    ensures
        single(partly_closed(blocks, n), next),
    decreases n,
{
    if n == 0 {
        assert(partly_closed(blocks, 0) =~= blocks);
    } else {
        lemma_all_closed_single(blocks, n - 1, next);
        let b = partly_closed(blocks, n - 1);
        lemma_closed_single(b, n - 1, StmtModel::Return(None), next);
        assert(partly_closed(blocks, n) =~= b.update(
            n - 1,
            closed(b[n - 1], StmtModel::Return(None)),
        ));
    }
}

/// Two names of one machine register that are read in full width give one register, and the second
/// reading changes nothing.
pub proof fn lemma_read_twice(a: Lift, r1: Register, r2: Register, width: Width)
    requires
        canonical(r1) == canonical(r2),
        width == a.w() || width == Width::W64,
    ensures
        ({
            let (s, e) = a.read_reg(r1, width);
            &&& s.read_reg(r2, width) == (s, e)
            &&& e == Expr::Reg(VReg(s.regs[canonical(r1).number()]), width)
        }),
{
    let (s, e) = a.read_reg(r1, width);
    assert(s.seen(r2) == s);
}

/// A reading in full width after a write, by whatever name of the machine register, gives the
/// register that the write gave a value; where the value has 64 bits, that is a new one, and the
/// write is one statement.
pub proof fn lemma_read_after_write(
    a: Lift,
    r1: Register,
    r2: Register,
    val: Expr,
    width: Width,
)
    requires
        canonical(r1) == canonical(r2),
        width == a.w() || width == Width::W64,
    ensures
        ({
            let s = a.write_reg(r1, val);
            let (t, e) = s.read_reg(r2, width);
            &&& t == s
            &&& s.out.len() > 0
            &&& (s.out.last() matches StmtModel::Assign(v, _) && e == Expr::Reg(v, width))
            &&& val.value_width() == Width::W64 ==> {
                &&& s.out == a.out.push(StmtModel::Assign(a.vreg(), val))
                &&& e == Expr::Reg(a.vreg(), width)
                &&& s.next == a.next + 1
            }
        }),
{
    let s = a.write_reg(r1, val);
    lemma_canonical(r1);
    assert(s.seen(r2) == s);
}

/// A write to another machine register leaves the value of a machine register as it is.
pub proof fn lemma_write_elsewhere(
    a: Lift,
    r1: Register,
    r2: Register,
    other: Register,
    val: Expr,
    width: Width,
)
    requires
        canonical(r1) == canonical(r2),
        canonical(other).number() != canonical(r1).number(),
        width == a.w() || width == Width::W64,
    ensures
        ({
            let (s, e) = a.read_reg(r1, width);
            let t = s.write_reg(other, val);
            t.read_reg(r2, width) == (t, e)
        }),
{
    let (s, e) = a.read_reg(r1, width);
    let t = s.write_reg(other, val);
    lemma_canonical(other);
    assert(t.seen(r2) == t);
}

/// The counter of registers never goes back.
pub proof fn lemma_next_grows(lift: Lift, code: CodeModel)
    ensures
        lift.next <= last_group(lift, code).lift.next,
{
    lemma_steps_next(first_group(lift, code), code.instrs);
}

proof fn lemma_steps_next(g: Grouping, items: Seq<ItemModel>)
    ensures
        g.lift.next <= g.steps(items).lift.next,
    decreases items.len(),
{
    if items.len() > 0 {
        lemma_steps_next(g, items.drop_last());
        let s = g.steps(items.drop_last()).arrive(items.last().address);
        lemma_instr_grows(s.lift, items.last().instr, s.id);
    }
}

} // verus!

//! Lifted instructions that write more than one place: exchange, stack and division.
use vstd::arithmetic::power2::{lemma2_to64, lemma2_to64_rest, pow2};
use vstd::prelude::*;

use super::access::{
    lemma_address, lemma_operand, lemma_quiet_became, lemma_quiet_tidy, lemma_quiet_wrote,
    lemma_read, lemma_set, lemma_write,
};
use super::machine::{
    address, at, became, binary, bound, content, eval, full_width, kept, lemma_assign, lemma_low,
    lemma_push, lemma_quiet_eval, lemma_quiet_trans, lemma_quiet_value, lemma_same, load, low,
    operand_width, quiet, quotient, readable, room, signed, span, store, tidy, value, writable,
    wrote, World,
};
use super::meaning::Lift;
use super::reads::{below, regs_of};
use super::{BinOp, Expr, StmtModel};
use crate::binary::Arch;
use crate::disasm::kinds::canonical;
use crate::x86::{Instr, Mnemonic, OpKind, Register};

verus! {

/// The number of bytes that the stack moves by.
pub open spec fn stack_unit(l: Lift) -> int {
    if l.arch == Arch::X86_64 {
        8
    } else {
        4
    }
}

/// An exchange of a register and another operand: first the register gets the other's value, then
/// the other the register's old one.
pub proof fn lemma_exchange(l: Lift, instr: Instr, id: u32, s: World) -> (mid: Lift)
    requires
        readable(l, instr, 0),
        readable(l, instr, 1),
        room(l, 64),
        instr.mnemonic == Mnemonic::Xchg,
        instr.op0.kind == OpKind::Register,
        writable(l, instr, 1),
    ensures
        became(l, mid, s, instr, 0, value(l, s, instr, 1)),
        became(mid, l.instr(instr, id), s, instr, 1, value(l, s, instr, 0)),
{
    reveal(Lift::exchanges);
    let (a, x) = l.operand(instr, 0);
    let (b, y) = a.operand(instr, 1);
    lemma_operand(l, instr, 0, s);
    lemma_quiet_tidy(l, a, s);
    lemma_operand(a, instr, 1, s);
    lemma_quiet_value(l, a, s, instr, 1);
    lemma_quiet_eval(a, b, s, x);
    lemma_quiet_trans(l, a, b, s);
    lemma_quiet_tidy(l, b, s);
    let mid = b.set_operand(instr, 0, y);
    lemma_set(b, instr, 0, y, s);
    lemma_quiet_became(l, b, mid, s, instr, 0, value(l, s, instr, 1));
    lemma_same(x, at(mid, s), at(b, s), b.next);
    assert(below(regs_of(x), mid.next));
    lemma_set(mid, instr, 1, x, s);
    mid
}

/// An exchange of memory and a register: first the memory gets the register's value, then the
/// register what the memory holds.
pub proof fn lemma_exchange_memory(l: Lift, instr: Instr, id: u32, s: World) -> (mid: Lift)
    requires
        readable(l, instr, 0),
        readable(l, instr, 1),
        room(l, 64),
        instr.mnemonic == Mnemonic::Xchg,
        instr.op0.kind == OpKind::Memory,
        instr.op1.kind == OpKind::Register,
    ensures
        became(l, mid, s, instr, 0, value(l, s, instr, 1)),
        became(
            mid,
            l.instr(instr, id),
            s,
            instr,
            1,
            load(at(mid, s).mem, address(l, s, instr), operand_width(l, instr, 0)),
        ),
{
    reveal(Lift::exchanges);
    let (a, x) = l.operand(instr, 0);
    let (b, y) = a.operand(instr, 1);
    lemma_operand(l, instr, 0, s);
    lemma_quiet_tidy(l, a, s);
    lemma_operand(a, instr, 1, s);
    lemma_quiet_value(l, a, s, instr, 1);
    lemma_quiet_trans(l, a, b, s);
    lemma_quiet_tidy(l, b, s);
    let mid = b.set_operand(instr, 0, y);
    lemma_set(b, instr, 0, y, s);
    lemma_quiet_became(l, b, mid, s, instr, 0, value(l, s, instr, 1));
    let (c, e) = l.mem_addr(instr);
    lemma_address(l, instr, s);
    assert(a == c && x == Expr::Load(Box::new(e), operand_width(l, instr, 0)));
    lemma_quiet_eval(a, b, s, e);
    lemma_kept_eval(b, mid, s, e);
    lemma_set(mid, instr, 1, x, s);
    mid
}

/// An address without loads has its value as long as its registers have theirs.
proof fn lemma_kept_eval(l: Lift, m: Lift, s: World, e: Expr)
    requires
        kept(l, m, s),
        below(regs_of(e), l.next),
        e is Reg || e is Const,
    ensures
        eval(e, at(m, s)) == eval(e, at(l, s)),
{
    if let Expr::Reg(r, _) = e {
        assert(regs_of(e).contains(r.0));
    }
}

/// A push: the stack pointer goes down by the size of a register, and the value stands where it
/// points to. Everything else stays.
pub proof fn lemma_pushed(l: Lift, instr: Instr, id: u32, s: World)
    requires
        readable(l, instr, 0),
        bound(l, Register::RSP),
        room(l, 64),
        instr.mnemonic == Mnemonic::Push,
    ensures
        ({
            let m = l.instr(instr, id);
            let top = (content(l, s, Register::RSP) - stack_unit(l)) % span(full_width(l));
            &&& content(m, s, Register::RSP) == top
            &&& at(m, s).mem == store(
                at(l, s).mem,
                top,
                full_width(l),
                value(l, s, instr, 0),
            )
            &&& forall|r: Register|
                bound(l, r) && canonical(r).number() != Register::RSP.number()
                    ==> #[trigger] content(m, s, r) == content(l, s, r)
            &&& m.flags == l.flags && m.arch == l.arch && m.blocks == l.blocks
        }),
{
    reveal(Lift::pushes);
    let w = l.w();
    let m = l.instr(instr, id);
    let (a, x) = l.operand(instr, 0);
    lemma_operand(l, instr, 0, s);
    lemma_quiet_tidy(l, a, s);
    let (b, rsp) = a.read_reg(Register::RSP, w);
    lemma_read(a, Register::RSP, w, s);
    lemma_quiet_value(l, a, s, instr, 0);
    lemma_quiet_trans(l, a, b, s);
    lemma_quiet_eval(a, b, s, x);
    let k = Expr::Const(l.word(), w);
    let e = Expr::BinOp(BinOp::Sub, Box::new(rsp), Box::new(k));
    let c = b.assign(e);
    lemma_assign(b, e, s);
    lemma_quiet_trans(l, b, c, s);
    lemma_quiet_eval(b, c, s, x);
    let old = content(l, s, Register::RSP);
    assert(content(a, s, Register::RSP) == old);
    let top = (old - stack_unit(l)) % span(w);
    lemma_low(stack_unit(l), w);
    assert(eval(k, at(b, s)) == stack_unit(l));
    vstd::arithmetic::div_mod::lemma_sub_mod_noop(old, stack_unit(l), span(w));
    assert(eval(e, at(b, s)) == top);
    lemma_low(old - stack_unit(l), w);
    let d = c.bind(Register::RSP, b.vreg());
    let stmt = StmtModel::Store { addr: Expr::Reg(b.vreg(), w), val: x, width: w };
    assert(at(d, s) == at(c, s));
    lemma_push(d, stmt, s);
    assert(m == d.push(stmt));
    assert(canonical(Register::RSP) == Register::RSP);
    assert forall|r: Register|
        bound(l, r) && canonical(r).number() != Register::RSP.number() implies #[trigger] content(
        m,
        s,
        r,
    ) == content(l, s, r) by {
        let key = canonical(r).number();
        assert(l.regs.contains_key(key));
        assert(m.regs[key] == l.regs[key]);
        assert(at(c, s).regs[l.regs[key]] == at(l, s).regs[l.regs[key]]);
    }
}

/// After the last of them, a register taken for a machine register is what it holds.
proof fn lemma_bound(l: Lift, e: Expr, r: Register, s: World)
    requires
        tidy(l),
        room(l, 1),
        canonical(r) == r,
    ensures
        wrote(l, l.assign(e).bind(r, l.vreg()), s, r, eval(e, at(l, s))),
        tidy(l.assign(e).bind(r, l.vreg())),
        kept(l, l.assign(e).bind(r, l.vreg()), s),
{
    let m = l.assign(e);
    let z = m.bind(r, l.vreg());
    lemma_assign(l, e, s);
    assert(at(z, s) == at(m, s));
    assert forall|k: u16|
        k != canonical(r).number() && #[trigger] l.regs.contains_key(k) implies z.regs.contains_key(
        k,
    ) && at(z, s).regs[z.regs[k]] == at(l, s).regs[l.regs[k]] by {
        assert(at(m, s).regs[l.regs[k]] == at(l, s).regs[l.regs[k]]);
    }
}

/// A pop: the operand gets what the stack pointer points to, and then the stack pointer goes up by
/// the size of a register. Everything else stays.
pub proof fn lemma_popped(l: Lift, instr: Instr, id: u32, s: World) -> (mid: Lift)
    requires
        writable(l, instr, 0),
        bound(l, Register::RSP),
        room(l, 64),
        instr.mnemonic == Mnemonic::Pop,
    ensures
        became(
            l,
            mid,
            s,
            instr,
            0,
            load(
                at(l, s).mem,
                content(l, s, Register::RSP) % span(full_width(l)),
                full_width(l),
            ),
        ),
        wrote(
            mid,
            l.instr(instr, id),
            s,
            Register::RSP,
            (content(mid, s, Register::RSP) + stack_unit(l)) % span(full_width(l)),
        ),
{
    reveal(Lift::pops);
    let w = l.w();
    let (a, rsp) = l.read_reg(Register::RSP, w);
    lemma_read(l, Register::RSP, w, s);
    let e = Expr::Load(Box::new(rsp), w);
    let b = a.assign(e);
    lemma_assign(a, e, s);
    lemma_quiet_trans(l, a, b, s);
    lemma_quiet_tidy(l, b, s);
    let r = Expr::Reg(a.vreg(), w);
    let mid = b.set_operand(instr, 0, r);
    lemma_set(b, instr, 0, r, s);
    lemma_low(eval(e, at(a, s)), w);
    lemma_quiet_became(l, b, mid, s, instr, 0, eval(r, at(b, s)));
    let (c, rsp2) = mid.read_reg(Register::RSP, w);
    lemma_read(mid, Register::RSP, w, s);
    lemma_quiet_tidy(mid, c, s);
    let k = Expr::Const(l.word(), w);
    let f = Expr::BinOp(BinOp::Add, Box::new(rsp2), Box::new(k));
    lemma_low(stack_unit(l), w);
    assert(eval(k, at(c, s)) == stack_unit(l));
    let old = content(mid, s, Register::RSP);
    vstd::arithmetic::div_mod::lemma_add_mod_noop(old, stack_unit(l), span(w));
    assert(eval(f, at(c, s)) == (old + stack_unit(l)) % span(w));
    lemma_bound(c, f, Register::RSP, s);
    lemma_quiet_wrote(mid, c, l.instr(instr, id), s, Register::RSP, eval(f, at(c, s)));
    mid
}

/// A multiplication of the accumulator: it gets its product with the operand.
pub proof fn lemma_multiplied(l: Lift, instr: Instr, id: u32, s: World)
    requires
        readable(l, instr, 0),
        bound(l, Register::RAX),
        room(l, 64),
        instr.mnemonic == Mnemonic::Mul || instr.mnemonic == Mnemonic::Imul && instr.op_count != 2
            && instr.op_count != 3,
    ensures
        wrote(
            l,
            l.instr(instr, id),
            s,
            Register::RAX,
            ((content(l, s, Register::RAX) % span(full_width(l))) * value(l, s, instr, 0)) % span(
                full_width(l),
            ),
        ),
{
    reveal(Lift::multiplies_rax);
    let w = l.w();
    let (a, x) = l.operand(instr, 0);
    lemma_operand(l, instr, 0, s);
    lemma_quiet_tidy(l, a, s);
    let (b, rax) = a.read_reg(Register::RAX, w);
    lemma_read(a, Register::RAX, w, s);
    lemma_quiet_value(l, a, s, instr, 0);
    assert(content(a, s, Register::RAX) == content(l, s, Register::RAX));
    lemma_quiet_eval(a, b, s, x);
    lemma_quiet_trans(l, a, b, s);
    let e = Expr::BinOp(BinOp::Mul, Box::new(rax), Box::new(x));
    let c = b.assign(e);
    lemma_assign(b, e, s);
    lemma_quiet_trans(l, b, c, s);
    lemma_quiet_tidy(l, c, s);
    let r = Expr::Reg(b.vreg(), w);
    lemma_write(c, Register::RAX, r, s);
    lemma_low(eval(rax, at(b, s)) * eval(x, at(b, s)), w);
    lemma_quiet_wrote(l, c, l.instr(instr, id), s, Register::RAX, eval(r, at(c, s)));
}

proof fn lemma_divides(l: Lift, instr: Instr, q: BinOp, d: BinOp, s: World) -> (mid: Lift)
    requires
        readable(l, instr, 0),
        bound(l, Register::RAX),
        room(l, 64),
    ensures
        ({
            let w = full_width(l);
            let x = low(content(l, s, Register::RAX), w);
            let y = value(l, s, instr, 0);
            let v = operand_width(l, instr, 0);
            &&& wrote(l, mid, s, Register::RAX, binary(q, w, v, x, y))
            &&& wrote(
                mid,
                l.divides(instr, q, d),
                s,
                Register::RDX,
                binary(d, w, v, x, y),
            )
        }),
{
    reveal(Lift::divides);
    let w = l.w();
    let (a, x) = l.operand(instr, 0);
    lemma_operand(l, instr, 0, s);
    lemma_quiet_tidy(l, a, s);
    let (b, rax) = a.read_reg(Register::RAX, w);
    lemma_read(a, Register::RAX, w, s);
    lemma_quiet_value(l, a, s, instr, 0);
    assert(content(a, s, Register::RAX) == content(l, s, Register::RAX));
    lemma_quiet_eval(a, b, s, x);
    lemma_quiet_trans(l, a, b, s);
    let e = Expr::BinOp(q, Box::new(rax), Box::new(x));
    let f = Expr::BinOp(d, Box::new(rax), Box::new(x));
    let t = b.took().took();
    let s1 = StmtModel::Assign(b.vreg(), e);
    let s2 = StmtModel::Assign(b.took().vreg(), f);
    let c = t.push(s1);
    let g = c.push(s2);
    lemma_push(t, s1, s);
    lemma_push(c, s2, s);
    assert(at(t, s) == at(b, s));
    lemma_same(f, at(c, s), at(b, s), b.next);
    lemma_low(eval(e, at(b, s)), w);
    lemma_low(eval(f, at(b, s)), w);
    assert(quiet(b, g, s));
    lemma_quiet_trans(l, b, g, s);
    lemma_quiet_tidy(l, g, s);
    let r1 = Expr::Reg(b.vreg(), w);
    let r2 = Expr::Reg(b.took().vreg(), w);
    let mid = g.write_reg(Register::RAX, r1);
    lemma_write(g, Register::RAX, r1, s);
    lemma_quiet_wrote(l, g, mid, s, Register::RAX, eval(r1, at(g, s)));
    lemma_same(r2, at(mid, s), at(g, s), g.next);
    lemma_write(mid, Register::RDX, r2, s);
    mid
}

/// A division of the accumulator, without signs or with them and rounded towards zero: it gets the
/// quotient, and the data register the remainder.
pub proof fn lemma_divided(l: Lift, instr: Instr, id: u32, s: World) -> (mid: Lift)
    requires
        readable(l, instr, 0),
        bound(l, Register::RAX),
        room(l, 64),
        instr.mnemonic == Mnemonic::Div || instr.mnemonic == Mnemonic::Idiv,
    ensures
        ({
            let w = full_width(l);
            let x = content(l, s, Register::RAX) % span(w);
            let y = value(l, s, instr, 0);
            let a = signed(x, w);
            let b = signed(y, operand_width(l, instr, 0));
            let m = l.instr(instr, id);
            &&& instr.mnemonic == Mnemonic::Div ==> wrote(
                l,
                mid,
                s,
                Register::RAX,
                (x / y) % span(w),
            ) && wrote(mid, m, s, Register::RDX, (x % y) % span(w))
            &&& instr.mnemonic == Mnemonic::Idiv ==> wrote(
                l,
                mid,
                s,
                Register::RAX,
                quotient(a, b) % span(w),
            ) && wrote(mid, m, s, Register::RDX, (a - b * quotient(a, b)) % span(w))
        }),
{
    let (q, d) = if instr.mnemonic == Mnemonic::Div {
        (BinOp::UDiv, BinOp::UMod)
    } else {
        (BinOp::SDiv, BinOp::SMod)
    };
    lemma_divides(l, instr, q, d, s)
}

proof fn lemma_sign_shift(v: int, half: int)
    requires
        -half <= v < half,
    ensures
        v / half == (if v < 0 {
            -1int
        } else {
            0int
        }),
{
    if v < 0 {
        assert(v / half == -1) by (nonlinear_arith)
            requires
                -half <= v < 0,
        ;
    } else {
        assert(v / half == 0) by (nonlinear_arith)
            requires
                0 <= v < half,
        ;
    }
}

/// The data register is filled with the sign of the accumulator: it gets all ones where it is
/// negative, else zero.
pub proof fn lemma_sign_filled(l: Lift, instr: Instr, id: u32, s: World)
    requires
        tidy(l),
        bound(l, Register::RAX),
        room(l, 64),
        instr.mnemonic == Mnemonic::Cdq || instr.mnemonic == Mnemonic::Cqo,
    ensures
        wrote(
            l,
            l.instr(instr, id),
            s,
            Register::RDX,
            if content(l, s, Register::RAX) % span(full_width(l)) < span(full_width(l)) / 2 {
                0
            } else {
                span(full_width(l)) - 1
            },
        ),
{
    reveal(Lift::fills_sign);
    let w = l.w();
    let (a, rax) = l.read_reg(Register::RAX, w);
    lemma_read(l, Register::RAX, w, s);
    let k = Expr::Const(l.sign_bit(), w);
    let e = Expr::BinOp(BinOp::AShr, Box::new(rax), Box::new(k));
    let b = a.assign(e);
    lemma_assign(a, e, s);
    lemma_quiet_trans(l, a, b, s);
    lemma_quiet_tidy(l, b, s);
    let r = Expr::Reg(a.vreg(), w);
    lemma_write(b, Register::RDX, r, s);
    let x = content(l, s, Register::RAX) % span(w);
    lemma2_to64();
    lemma2_to64_rest();
    lemma_low(l.sign_bit() as int, w);
    lemma_low(x, w);
    assert(eval(k, at(a, s)) == l.sign_bit());
    let v = signed(x, w);
    assert(-(span(w) / 2) <= v < span(w) / 2);
    assert(pow2(l.sign_bit() as nat) == span(w) / 2);
    lemma_sign_shift(v, span(w) / 2);
    assert(eval(e, at(a, s)) == low(v / (span(w) / 2), w));
    lemma_quiet_wrote(l, b, l.instr(instr, id), s, Register::RDX, eval(r, at(b, s)));
}

/// The frame is given up: the base pointer gets what it points to, and the stack pointer the
/// address behind that. Everything else stays.
pub proof fn lemma_left(l: Lift, instr: Instr, id: u32, s: World)
    requires
        tidy(l),
        bound(l, Register::RBP),
        room(l, 64),
        instr.mnemonic == Mnemonic::Leave,
    ensures
        ({
            let m = l.instr(instr, id);
            let w = full_width(l);
            let frame = content(l, s, Register::RBP) % span(w);
            &&& content(m, s, Register::RBP) == load(at(l, s).mem, frame, w)
            &&& content(m, s, Register::RSP) == (frame + stack_unit(l)) % span(w)
            &&& forall|r: Register|
                bound(l, r) && canonical(r).number() != Register::RSP.number() && canonical(
                    r,
                ).number()
                    != Register::RBP.number() ==> #[trigger] content(m, s, r) == content(l, s, r)
            &&& at(m, s).mem == at(l, s).mem && m.flags == l.flags && m.blocks == l.blocks
        }),
{
    reveal(Lift::leaves);
    let w = l.w();
    let m = l.instr(instr, id);
    let frame = content(l, s, Register::RBP) % span(w);
    let (a, rbp) = l.read_reg(Register::RBP, w);
    lemma_read(l, Register::RBP, w, s);
    lemma_quiet_tidy(l, a, s);
    let b = a.write_reg(Register::RSP, rbp);
    lemma_write(a, Register::RSP, rbp, s);
    lemma_quiet_wrote(l, a, b, s, Register::RSP, frame);
    let (c, rsp) = b.read_reg(Register::RSP, w);
    lemma_read(b, Register::RSP, w, s);
    lemma_quiet_tidy(b, c, s);
    lemma_low(content(l, s, Register::RBP), w);
    assert(eval(rsp, at(c, s)) == frame);
    let e = Expr::Load(Box::new(rsp), w);
    let d = c.assign(e);
    lemma_assign(c, e, s);
    lemma_quiet_trans(b, c, d, s);
    lemma_quiet_tidy(b, d, s);
    lemma_quiet_eval(c, d, s, rsp);
    let r = Expr::Reg(c.vreg(), w);
    let f = d.write_reg(Register::RBP, r);
    lemma_write(d, Register::RBP, r, s);
    lemma_low(eval(e, at(c, s)), w);
    lemma_quiet_wrote(b, d, f, s, Register::RBP, eval(r, at(d, s)));
    lemma_same(rsp, at(f, s), at(d, s), d.next);
    let k = Expr::Const(l.word(), w);
    let g = Expr::BinOp(BinOp::Add, Box::new(rsp), Box::new(k));
    lemma_low(stack_unit(l), w);
    assert(eval(k, at(f, s)) == stack_unit(l));
    assert(eval(rsp, at(f, s)) == frame);
    lemma_bound(f, g, Register::RSP, s);
    assert(eval(g, at(f, s)) == (frame + stack_unit(l)) % span(w));
    assert(Register::RBP.number() != Register::RSP.number());
    assert(f.regs.contains_key(canonical(Register::RBP).number()));
    assert forall|r: Register|
        bound(l, r) && canonical(r).number() != Register::RSP.number() && canonical(r).number()
            != Register::RBP.number() implies #[trigger] content(m, s, r) == content(l, s, r) by {
        let key = canonical(r).number();
        assert(l.regs.contains_key(key));
        assert(b.regs.contains_key(key));
        assert(f.regs.contains_key(key));
    }
}

} // verus!

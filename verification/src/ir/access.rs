//! How the lifted code reads and writes the operands of an instruction.
use vstd::arithmetic::div_mod::{lemma_add_mod_noop, lemma_mul_mod_noop_left};
use vstd::prelude::*;

use super::machine::{
    address, at, became, bound, content, eval, immediate_width, kept, lemma_assign, lemma_low,
    lemma_low_low, lemma_push, lemma_quiet_eval, lemma_quiet_trans, lemma_quiet_value, lemma_range,
    low, operand_width, part, placed, quiet, readable, room, scaled, span, tidy, value, width_of,
    writable, wrote, World,
};
use super::meaning::{immediate_of, signed64, signed8, size_width, Lift};
use super::reads::{below, regs_of};
use super::{BinOp, Expr, StmtModel, UnOp, VReg, Width};
use crate::disasm::kinds::{bits_of, canonical, lemma_canonical};
use crate::x86::{Instr, OpKind, Register};

verus! {

/// Reading a machine register gives what it holds, in the width asked for.
pub proof fn lemma_read(l: Lift, r: Register, w: Width, s: World)
    requires
        tidy(l),
        bound(l, r),
        room(l, 1),
    ensures
        ({
            let (m, e) = l.read_reg(r, w);
            &&& quiet(l, m, s) && m.next <= l.next + 1
            &&& eval(e, at(m, s)) == low(content(l, s, r), w)
            &&& e.value_width() == w && below(regs_of(e), m.next)
        }),
{
    let key = canonical(r).number();
    assert(l.regs.contains_key(key));
    assert(l.seen(r) == l);
    let vr = VReg(l.regs[key]);
    if w != l.w() && w != Width::W64 {
        let e = Expr::UnOp(UnOp::Trunc(w), Box::new(Expr::Reg(vr, l.w())));
        lemma_assign(l, e, s);
        assert(eval(e, at(l, s)) == low(eval(Expr::Reg(vr, l.w()), at(l, s)), w));
        if span(w) <= span(l.w()) {
            lemma_low_low(content(l, s, r), l.w(), w);
        }
        lemma_low(content(l, s, r), w);
    }
}

proof fn lemma_plus(l: Lift, a: Expr, b: Expr, s: World)
    requires
        l.next < 0x1_0000_0000,
        below(regs_of(a), l.next),
        below(regs_of(b), l.next),
        a.value_width() == l.w(),
    ensures
        ({
            let (m, e) = l.plus(Some(a), b);
            &&& quiet(l, m, s) && m.next == l.next + 1
            &&& eval(e, at(m, s)) == low(eval(a, at(l, s)) + eval(b, at(l, s)), l.w())
            &&& e.value_width() == l.w() && below(regs_of(e), m.next)
        }),
{
    let e = Expr::BinOp(BinOp::Add, Box::new(a), Box::new(b));
    lemma_assign(l, e, s);
    lemma_low(eval(a, at(l, s)) + eval(b, at(l, s)), l.w());
}

proof fn lemma_index(l: Lift, instr: Instr, s: World)
    requires
        tidy(l),
        placed(l, instr),
        room(l, 2),
        instr.memory.index != Register::NoRegister,
    ensures
        ({
            let (m, e) = l.mem_index(instr);
            &&& quiet(l, m, s) && m.next <= l.next + 2
            &&& eval(e, at(m, s)) == low(scaled(l, s, instr), l.w())
            &&& e.value_width() == l.w() && below(regs_of(e), m.next)
        }),
{
    let (m, e) = l.read_reg(instr.memory.index, l.w());
    lemma_read(l, instr.memory.index, l.w(), s);
    if instr.memory.scale > 1 {
        let k = Expr::Const(instr.memory.scale as i64, l.w());
        let f = Expr::BinOp(BinOp::Mul, Box::new(e), Box::new(k));
        lemma_assign(m, f, s);
        lemma_quiet_trans(l, m, m.assign(f), s);
        let x = content(l, s, instr.memory.index);
        let c = instr.memory.scale as int;
        lemma_low(c, l.w());
        assert(eval(k, at(m, s)) == c);
        assert(eval(f, at(m, s)) == low(low(x, l.w()) * c, l.w()));
        lemma_mul_mod_noop_left(x, c, span(l.w()));
        lemma_low(x * c, l.w());
    }
}

/// The lifted address of a memory operand is base, scaled index and displacement together.
pub proof fn lemma_address(l: Lift, instr: Instr, s: World)
    requires
        tidy(l),
        placed(l, instr),
        room(l, 8),
    ensures
        ({
            let (m, e) = l.mem_addr(instr);
            &&& quiet(l, m, s) && m.next <= l.next + 5
            &&& eval(e, at(m, s)) == address(l, s, instr)
            &&& e.value_width() == l.w() && below(regs_of(e), m.next)
        }),
{
    let w = l.w();
    let n = span(w);
    let base = part(l, s, instr, instr.memory.base);
    let index = scaled(l, s, instr);
    let d = instr.memory.displacement;
    let (a, first) = l.mem_base(instr);
    if first is Some {
        if instr.memory.base == Register::RIP || instr.memory.base == Register::EIP {
            let c = Expr::Const(signed64(instr.next_ip) as i64, w);
            assert(first == Some(c));
            lemma_signed(instr.next_ip, w);
        } else {
            lemma_read(l, instr.memory.base, w, s);
        }
        assert(eval(first->0, at(a, s)) == low(base, w));
        assert(below(regs_of(first->0), a.next));
    } else {
        assert(base == 0);
    }
    assert(quiet(l, a, s) && a.next <= l.next + 1);
    let (b, sum) = if instr.memory.index != Register::NoRegister {
        let (u, x) = a.mem_index(instr);
        let (v, e) = u.plus(first, x);
        (v, Some(e))
    } else {
        (a, first)
    };
    if instr.memory.index != Register::NoRegister {
        let (u, x) = a.mem_index(instr);
        lemma_quiet_tidy(l, a, s);
        lemma_index(a, instr, s);
        lemma_quiet_value(l, a, s, instr, 0);
        assert(scaled(a, s, instr) == index);
        lemma_quiet_trans(l, a, u, s);
        if let Some(f) = first {
            lemma_quiet_eval(a, u, s, f);
            lemma_plus(u, f, x, s);
            let (v, e) = u.plus(first, x);
            lemma_quiet_trans(l, u, v, s);
            lemma_add_mod_noop(base, index, n);
            assert(eval(e, at(v, s)) == low(base + index, w));
        }
    }
    assert(quiet(l, b, s) && b.next <= l.next + 4);
    if let Some(e) = sum {
        assert(eval(e, at(b, s)) == low(base + index, w));
        assert(below(regs_of(e), b.next) && e.value_width() == w);
    }
    let disp = Expr::Const(signed64(d) as i64, w);
    lemma_signed(d, w);
    assert(eval(disp, at(b, s)) == low(d as int, w));
    if let Some(e) = sum {
        if d != 0 {
            lemma_plus(b, e, disp, s);
            let (c, f) = b.plus(Some(e), disp);
            lemma_quiet_trans(l, b, c, s);
            lemma_add_mod_noop(base + index, d as int, n);
        }
    } else {
        assert(base == 0 && index == 0);
    }
}

/// After quiet statements every register still has a value.
pub(crate) proof fn lemma_quiet_tidy(l: Lift, m: Lift, s: World)
    requires
        tidy(l),
        quiet(l, m, s),
    ensures
        tidy(m),
{
}

/// A number in two's complement stands for itself in every width.
proof fn lemma_signed(v: u64, w: Width)
    ensures
        low((signed64(v) as i64) as int, w) == low(v as int, w),
{
    let x = signed64(v);
    assert(-0x8000_0000_0000_0000 <= x < 0x8000_0000_0000_0000);
    assert((x as i64) as int == x);
    lemma_low_low(x, Width::W64, w);
    lemma_low_low(v as int, Width::W64, w);
    assert(low(x, Width::W64) == low(v as int, Width::W64));
}

/// Reading an operand gives its value.
pub proof fn lemma_operand(l: Lift, instr: Instr, n: int, s: World)
    requires
        readable(l, instr, n),
        room(l, 8),
    ensures
        ({
            let (m, e) = l.operand(instr, n);
            &&& quiet(l, m, s) && m.next <= l.next + 5
            &&& eval(e, at(m, s)) == value(l, s, instr, n)
            &&& e.value_width() == operand_width(l, instr, n) && below(regs_of(e), m.next)
        }),
{
    let op = instr.operand(n);
    match op.kind {
        OpKind::Register => {
            assert(Width::of_bits(bits_of(op.register)) == width_of(op.register));
            lemma_read(l, op.register, width_of(op.register), s);
        },
        OpKind::Memory => {
            lemma_address(l, instr, s);
        },
        _ => {
            if let Some((v, w)) = immediate_of(op) {
                assert(immediate_width(op.kind) == Some(w));
                lemma_signed(op.immediate, w);
                assert(signed8(op.immediate) as i64 == signed8(op.immediate));
                assert(low(signed8(op.immediate), Width::W8) == low(
                    op.immediate as int,
                    Width::W8,
                ));
            }
        },
    }
}

/// Writing a machine register gives it the value and leaves all others alone.
pub proof fn lemma_write(l: Lift, r: Register, val: Expr, s: World)
    requires
        tidy(l),
        room(l, 2),
        below(regs_of(val), l.next),
    ensures
        wrote(l, l.write_reg(r, val), s, r, eval(val, at(l, s))),
        tidy(l.write_reg(r, val)),
        kept(l, l.write_reg(r, val), s),
        l.write_reg(r, val).next <= l.next + 2,
{
    let key = canonical(r).number();
    let w = val.value_width();
    let x = eval(val, at(l, s));
    lemma_range(val, at(l, s));
    let (m, full) = match w {
        Width::W64 => (l, val),
        Width::W32 => (
            l.assign(Expr::UnOp(UnOp::ZExt(Width::W64), Box::new(val))),
            Expr::Reg(l.vreg(), Width::W64),
        ),
        _ => (
            l.assign(Expr::UnOp(UnOp::ZExt(l.w()), Box::new(val))),
            Expr::Reg(l.vreg(), l.w()),
        ),
    };
    lemma_assign(l, Expr::UnOp(UnOp::ZExt(Width::W64), Box::new(val)), s);
    lemma_assign(l, Expr::UnOp(UnOp::ZExt(l.w()), Box::new(val)), s);
    lemma_low(x, Width::W64);
    lemma_low(x, l.w());
    assert(quiet(l, m, s));
    assert(eval(full, at(m, s)) == x);
    lemma_assign(m, full, s);
    let a = m.assign(full);
    let z = a.bind(canonical(r), m.vreg());
    assert(z == l.write_reg(r, val));
    assert(at(z, s) == at(a, s));
    lemma_quiet_trans(l, m, a, s);
    lemma_canonical(r);
    assert forall|k: u16|
        k != key && #[trigger] l.regs.contains_key(k) implies z.regs.contains_key(k) && at(
        z,
        s,
    ).regs[z.regs[k]] == at(l, s).regs[l.regs[k]] by {
        assert(z.regs[k] == l.regs[k]);
        assert(l.regs[k] < l.next);
    }
}

/// Writing an operand gives it the value and leaves everything else alone.
pub proof fn lemma_set(l: Lift, instr: Instr, n: int, val: Expr, s: World)
    requires
        writable(l, instr, n),
        room(l, 8),
        below(regs_of(val), l.next),
    ensures
        became(l, l.set_operand(instr, n, val), s, instr, n, eval(val, at(l, s))),
        tidy(l.set_operand(instr, n, val)),
        kept(l, l.set_operand(instr, n, val), s),
        l.set_operand(instr, n, val).next <= l.next + 5,
{
    let op = instr.operand(n);
    if op.kind == OpKind::Register {
        lemma_write(l, op.register, val, s);
    } else {
        let (m, addr) = l.mem_addr(instr);
        let w = size_width(instr.memory.size);
        let stmt = StmtModel::Store { addr, val, width: w };
        lemma_address(l, instr, s);
        lemma_quiet_eval(l, m, s, val);
        lemma_push(m, stmt, s);
        let z = m.push(stmt);
        assert forall|k: u16| #[trigger] l.regs.contains_key(k) implies at(z, s).regs[l.regs[k]]
            == at(l, s).regs[l.regs[k]] by {
            assert(at(m, s).regs[l.regs[k]] == at(l, s).regs[l.regs[k]]);
        }
    }
}

/// What comes behind quiet statements comes behind what was before them.
pub(crate) proof fn lemma_quiet_became(
    l: Lift,
    m: Lift,
    z: Lift,
    s: World,
    instr: Instr,
    n: int,
    v: int,
)
    requires
        writable(l, instr, n),
        quiet(l, m, s),
        became(m, z, s, instr, n, v),
    ensures
        became(l, z, s, instr, n, v),
{
    lemma_quiet_value(l, m, s, instr, n);
    let op = instr.operand(n);
    if op.kind == OpKind::Register {
        let r = op.register;
        assert forall|k: u16|
            k != canonical(r).number() && #[trigger] l.regs.contains_key(k) implies z.regs.contains_key(k)
            && at(z, s).regs[z.regs[k]] == at(l, s).regs[l.regs[k]] by {
            assert(m.regs.contains_key(k));
            assert(at(m, s).regs[l.regs[k]] == at(l, s).regs[l.regs[k]]);
        }
    } else {
        assert forall|k: u16| #[trigger] l.regs.contains_key(k) implies at(z, s).regs[l.regs[k]]
            == at(l, s).regs[l.regs[k]] by {
            assert(m.regs.contains_key(k));
            assert(at(m, s).regs[l.regs[k]] == at(l, s).regs[l.regs[k]]);
        }
    }
}

/// The same for a machine register.
pub(crate) proof fn lemma_quiet_wrote(l: Lift, m: Lift, z: Lift, s: World, r: Register, v: int)
    requires
        tidy(l),
        quiet(l, m, s),
        wrote(m, z, s, r, v),
    ensures
        wrote(l, z, s, r, v),
{
    assert forall|k: u16|
        k != canonical(r).number() && #[trigger] l.regs.contains_key(k) implies z.regs.contains_key(k)
        && at(z, s).regs[z.regs[k]] == at(l, s).regs[l.regs[k]] by {
        assert(m.regs.contains_key(k));
        assert(at(m, s).regs[l.regs[k]] == at(l, s).regs[l.regs[k]]);
    }
}

} // verus!

//! The lifted instructions do what the machine does.
use vstd::arithmetic::power2::pow2;
use vstd::prelude::*;

use super::access::{lemma_address, lemma_operand, lemma_quiet_became, lemma_quiet_tidy, lemma_set};
use super::machine::{
    address, at, became, binary, content, eval, full_width, lemma_assign, lemma_low, lemma_low_low,
    lemma_quiet_eval, lemma_quiet_trans, lemma_quiet_value, low, operand_width, placed, quiet,
    readable, room, signed, span, unary, value, writable, World,
};
use super::meaning::Lift;
use super::reads::{below, regs_of};
use super::{BinOp, Expr, UnOp, Width};
use crate::x86::{Instr, Mnemonic, OpKind, Register};

verus! {

/// What an operation of two operands leaves in the first.
proof fn lemma_combines(l: Lift, instr: Instr, op: BinOp, s: World)
    requires
        writable(l, instr, 0),
        readable(l, instr, 0),
        readable(l, instr, 1),
        room(l, 64),
    ensures
        became(
            l,
            l.combines(instr, op),
            s,
            instr,
            0,
            low(
                binary(
                    op,
                    operand_width(l, instr, 0),
                    operand_width(l, instr, 1),
                    value(l, s, instr, 0),
                    value(l, s, instr, 1),
                ),
                full_width(l),
            ),
        ),
{
    reveal(Lift::combines);
    let (a, x) = l.operand(instr, 0);
    let (b, y) = a.operand(instr, 1);
    lemma_operand(l, instr, 0, s);
    lemma_quiet_tidy(l, a, s);
    lemma_operand(a, instr, 1, s);
    lemma_quiet_value(l, a, s, instr, 1);
    lemma_quiet_eval(a, b, s, x);
    lemma_quiet_trans(l, a, b, s);
    let e = Expr::BinOp(op, Box::new(x), Box::new(y));
    lemma_assign(b, e, s);
    lemma_quiet_trans(l, b, b.assign(e), s);
    lemma_quiet_tidy(l, b.assign(e), s);
    let r = Expr::Reg(b.vreg(), l.w());
    lemma_set(b.assign(e), instr, 0, r, s);
    lemma_quiet_became(
        l,
        b.assign(e),
        l.combines(instr, op),
        s,
        instr,
        0,
        eval(r, at(b.assign(e), s)),
    );
}

/// What an operation of the second and third operand leaves in the first.
proof fn lemma_multiplies(l: Lift, instr: Instr, s: World)
    requires
        writable(l, instr, 0),
        readable(l, instr, 1),
        readable(l, instr, 2),
        room(l, 64),
    ensures
        became(
            l,
            l.multiplies(instr),
            s,
            instr,
            0,
            low(
                low(
                    value(l, s, instr, 1) * value(l, s, instr, 2),
                    operand_width(l, instr, 1),
                ),
                full_width(l),
            ),
        ),
{
    reveal(Lift::multiplies);
    let (a, x) = l.operand(instr, 1);
    let (b, y) = a.operand(instr, 2);
    lemma_operand(l, instr, 1, s);
    lemma_quiet_tidy(l, a, s);
    lemma_operand(a, instr, 2, s);
    lemma_quiet_value(l, a, s, instr, 2);
    lemma_quiet_eval(a, b, s, x);
    lemma_quiet_trans(l, a, b, s);
    let e = Expr::BinOp(BinOp::Mul, Box::new(x), Box::new(y));
    lemma_assign(b, e, s);
    lemma_quiet_trans(l, b, b.assign(e), s);
    lemma_quiet_tidy(l, b.assign(e), s);
    let r = Expr::Reg(b.vreg(), l.w());
    lemma_set(b.assign(e), instr, 0, r, s);
    lemma_quiet_became(
        l,
        b.assign(e),
        l.multiplies(instr),
        s,
        instr,
        0,
        eval(r, at(b.assign(e), s)),
    );
}

/// What an operation on the first operand leaves in it.
proof fn lemma_changes(l: Lift, instr: Instr, bin: BinOp, un: UnOp, s: World)
    requires
        writable(l, instr, 0),
        readable(l, instr, 0),
        room(l, 64),
    ensures
        became(
            l,
            l.steps(instr, bin),
            s,
            instr,
            0,
            low(
                binary(
                    bin,
                    operand_width(l, instr, 0),
                    full_width(l),
                    value(l, s, instr, 0),
                    1,
                ),
                full_width(l),
            ),
        ),
        became(
            l,
            l.applies(instr, un),
            s,
            instr,
            0,
            low(unary(un, operand_width(l, instr, 0), value(l, s, instr, 0)), full_width(l)),
        ),
{
    reveal(Lift::steps);
    reveal(Lift::applies);
    let (a, x) = l.operand(instr, 0);
    lemma_operand(l, instr, 0, s);
    let one = Expr::Const(1, l.w());
    lemma_low(1, l.w());
    assert(eval(one, at(a, s)) == 1);
    let e = Expr::BinOp(bin, Box::new(x), Box::new(one));
    let f = Expr::UnOp(un, Box::new(x));
    let r = Expr::Reg(a.vreg(), l.w());
    lemma_assign(a, e, s);
    lemma_quiet_trans(l, a, a.assign(e), s);
    lemma_quiet_tidy(l, a.assign(e), s);
    lemma_set(a.assign(e), instr, 0, r, s);
    lemma_quiet_became(
        l,
        a.assign(e),
        l.steps(instr, bin),
        s,
        instr,
        0,
        eval(r, at(a.assign(e), s)),
    );
    lemma_assign(a, f, s);
    lemma_quiet_trans(l, a, a.assign(f), s);
    lemma_quiet_tidy(l, a.assign(f), s);
    lemma_set(a.assign(f), instr, 0, r, s);
    lemma_quiet_became(
        l,
        a.assign(f),
        l.applies(instr, un),
        s,
        instr,
        0,
        eval(r, at(a.assign(f), s)),
    );
}

/// Sums and differences: the first operand gets its sum or difference with the second one or with
/// one, modulo the number of values of its width; a register keeps nothing above it. A negation and
/// a complement are taken in full width. Everything else stays.
pub proof fn lemma_sums(l: Lift, instr: Instr, id: u32, s: World)
    requires
        writable(l, instr, 0),
        readable(l, instr, 0),
        instr.mnemonic == Mnemonic::Add || instr.mnemonic == Mnemonic::Sub ==> readable(
            l,
            instr,
            1,
        ),
        room(l, 64),
    ensures
        ({
            let m = l.instr(instr, id);
            let x = value(l, s, instr, 0);
            let y = value(l, s, instr, 1);
            let n = span(operand_width(l, instr, 0));
            let full = span(full_width(l));
            let op = instr.mnemonic;
            &&& op == Mnemonic::Add ==> became(l, m, s, instr, 0, ((x + y) % n) % full)
            &&& op == Mnemonic::Sub ==> became(l, m, s, instr, 0, ((x - y) % n) % full)
            &&& op == Mnemonic::Inc ==> became(l, m, s, instr, 0, ((x + 1) % n) % full)
            &&& op == Mnemonic::Dec ==> became(l, m, s, instr, 0, ((x - 1) % n) % full)
            &&& op == Mnemonic::Neg ==> became(l, m, s, instr, 0, (-x) % full)
            &&& op == Mnemonic::Not ==> became(l, m, s, instr, 0, (-1 - x) % full)
        }),
{
    let x = value(l, s, instr, 0);
    lemma_value_range(l, s, instr, 0);
    lemma_low(x, operand_width(l, instr, 0));
    match instr.mnemonic {
        Mnemonic::Add => {
            lemma_combines(l, instr, BinOp::Add, s);
        },
        Mnemonic::Sub => {
            lemma_combines(l, instr, BinOp::Sub, s);
        },
        Mnemonic::Inc => {
            lemma_changes(l, instr, BinOp::Add, UnOp::Neg, s);
        },
        Mnemonic::Dec => {
            lemma_changes(l, instr, BinOp::Sub, UnOp::Neg, s);
        },
        Mnemonic::Neg => {
            lemma_changes(l, instr, BinOp::Add, UnOp::Neg, s);
            lemma_low_low(-x, Width::W64, full_width(l));
        },
        Mnemonic::Not => {
            lemma_changes(l, instr, BinOp::Add, UnOp::Not, s);
            lemma_low_low(-1 - x, Width::W64, full_width(l));
        },
        _ => {},
    }
}

/// Products: the first operand gets its product with the second one, or that of the other two,
/// modulo the number of values of its width. Everything else stays.
pub proof fn lemma_products(l: Lift, instr: Instr, id: u32, s: World)
    requires
        writable(l, instr, 0),
        readable(l, instr, 1),
        instr.op_count == 2 ==> readable(l, instr, 0),
        instr.op_count == 3 ==> readable(l, instr, 2),
        room(l, 64),
    ensures
        ({
            let m = l.instr(instr, id);
            let x = value(l, s, instr, 0);
            let y = value(l, s, instr, 1);
            let z = value(l, s, instr, 2);
            let n = span(operand_width(l, instr, 0));
            let full = span(full_width(l));
            &&& instr.mnemonic == Mnemonic::Imul && instr.op_count == 2 ==> became(
                l,
                m,
                s,
                instr,
                0,
                ((x * y) % n) % full,
            )
            &&& instr.mnemonic == Mnemonic::Imul && instr.op_count == 3 ==> became(
                l,
                m,
                s,
                instr,
                0,
                ((y * z) % span(operand_width(l, instr, 1))) % full,
            )
        }),
{
    if instr.op_count == 2 {
        lemma_combines(l, instr, BinOp::Mul, s);
    } else if instr.op_count == 3 {
        lemma_multiplies(l, instr, s);
    }
}

/// Logic: the first operand gets the bits that it has in common with the second one, those of
/// either, or those of just one of them. Everything else stays.
pub proof fn lemma_bits(l: Lift, instr: Instr, id: u32, s: World)
    requires
        writable(l, instr, 0),
        readable(l, instr, 0),
        readable(l, instr, 1),
        room(l, 64),
    ensures
        ({
            let m = l.instr(instr, id);
            let x = value(l, s, instr, 0);
            let y = value(l, s, instr, 1);
            let n = span(operand_width(l, instr, 0));
            let full = span(full_width(l));
            let op = instr.mnemonic;
            &&& op == Mnemonic::And ==> became(
                l,
                m,
                s,
                instr,
                0,
                ((((x as u64) & (y as u64)) as int) % n) % full,
            )
            &&& op == Mnemonic::Or ==> became(
                l,
                m,
                s,
                instr,
                0,
                ((((x as u64) | (y as u64)) as int) % n) % full,
            )
            &&& op == Mnemonic::Xor ==> became(
                l,
                m,
                s,
                instr,
                0,
                ((((x as u64) ^ (y as u64)) as int) % n) % full,
            )
        }),
{
    let x = value(l, s, instr, 0);
    lemma_value_range(l, s, instr, 0);
    lemma_low(x, operand_width(l, instr, 0));
    match instr.mnemonic {
        Mnemonic::And => {
            lemma_combines(l, instr, BinOp::And, s);
        },
        Mnemonic::Or => {
            lemma_combines(l, instr, BinOp::Or, s);
        },
        Mnemonic::Xor => {
            lemma_combines(l, instr, BinOp::Xor, s);
            reveal(Lift::excludes);
            if instr.op0.register == instr.op1.register && instr.op0.kind == OpKind::Register
                && instr.op1.kind == OpKind::Register {
                let u = x as u64;
                assert(u ^ u == 0) by (bit_vector);
                lemma_set(l, instr, 0, Expr::Const(0, l.w()), s);
                lemma_low(0, l.w());
                lemma_low(0, operand_width(l, instr, 0));
            }
        },
        _ => {},
    }
}

/// Shifts: the first operand gets its product with a power of two, or its quotient without or with
/// its sign, rounded down; modulo the number of values of its width. Everything else stays.
pub proof fn lemma_shifts(l: Lift, instr: Instr, id: u32, s: World)
    requires
        writable(l, instr, 0),
        readable(l, instr, 0),
        readable(l, instr, 1),
        room(l, 64),
    ensures
        ({
            let m = l.instr(instr, id);
            let x = value(l, s, instr, 0);
            let y = value(l, s, instr, 1);
            let n = span(operand_width(l, instr, 0));
            let full = span(full_width(l));
            let op = instr.mnemonic;
            &&& op == Mnemonic::Shl || op == Mnemonic::Sal ==> became(
                l,
                m,
                s,
                instr,
                0,
                ((x * pow2(y as nat)) % n) % full,
            )
            &&& op == Mnemonic::Shr ==> became(
                l,
                m,
                s,
                instr,
                0,
                ((x / (pow2(y as nat) as int)) % n) % full,
            )
            &&& op == Mnemonic::Sar && x < n / 2 ==> became(
                l,
                m,
                s,
                instr,
                0,
                ((x / (pow2(y as nat) as int)) % n) % full,
            )
            &&& op == Mnemonic::Sar && x >= n / 2 ==> became(
                l,
                m,
                s,
                instr,
                0,
                (((x - n) / (pow2(y as nat) as int)) % n) % full,
            )
        }),
{
    let x = value(l, s, instr, 0);
    lemma_value_range(l, s, instr, 0);
    lemma_low(x, operand_width(l, instr, 0));
    match instr.mnemonic {
        Mnemonic::Shl | Mnemonic::Sal => {
            lemma_combines(l, instr, BinOp::Shl, s);
        },
        Mnemonic::Shr => {
            lemma_combines(l, instr, BinOp::LShr, s);
        },
        Mnemonic::Sar => {
            lemma_combines(l, instr, BinOp::AShr, s);
        },
        _ => {},
    }
}

/// A value of an operand lies in its width.
pub(crate) proof fn lemma_value_range(l: Lift, s: World, instr: Instr, n: int)
    ensures
        0 <= value(l, s, instr, n) < span(operand_width(l, instr, n)),
{
    lemma_low(content(l, s, instr.operand(n).register), operand_width(l, instr, n));
    lemma_low(instr.operand(n).immediate as int, operand_width(l, instr, n));
}

/// Moves: the first operand gets the second one, the second one extended without or with its sign,
/// or the address of the memory operand. Everything else stays.
pub proof fn lemma_moves(l: Lift, instr: Instr, id: u32, s: World)
    requires
        writable(l, instr, 0),
        instr.mnemonic == Mnemonic::Lea ==> placed(l, instr),
        instr.mnemonic != Mnemonic::Lea ==> readable(l, instr, 1),
        room(l, 64),
    ensures
        ({
            let m = l.instr(instr, id);
            let y = value(l, s, instr, 1);
            let v = operand_width(l, instr, 1);
            let w = if instr.op0.kind == OpKind::Register {
                operand_width(l, instr, 0)
            } else {
                full_width(l)
            };
            let op = instr.mnemonic;
            &&& (op == Mnemonic::Mov || op == Mnemonic::Cmove || op == Mnemonic::Cmovne || op
                == Mnemonic::Cmovl || op == Mnemonic::Cmovle || op == Mnemonic::Cmovg || op
                == Mnemonic::Cmovge || op == Mnemonic::Cmovb || op == Mnemonic::Cmovbe || op
                == Mnemonic::Cmova || op == Mnemonic::Cmovae || op == Mnemonic::Cmovs || op
                == Mnemonic::Cmovns) ==> became(l, m, s, instr, 0, y)
            &&& op == Mnemonic::Movzx ==> became(l, m, s, instr, 0, y % span(w))
            &&& op == Mnemonic::Movsx || op == Mnemonic::Movsxd ==> became(
                l,
                m,
                s,
                instr,
                0,
                (if y < span(v) / 2 {
                    y
                } else {
                    y - span(v)
                }) % span(w),
            )
            &&& op == Mnemonic::Lea ==> became(l, m, s, instr, 0, address(l, s, instr))
        }),
{
    reveal(Lift::copies);
    reveal(Lift::extends);
    reveal(Lift::loads_address);
    let m = l.instr(instr, id);
    let y = value(l, s, instr, 1);
    let v = operand_width(l, instr, 1);
    let (a, e) = l.operand(instr, 1);
    if instr.mnemonic != Mnemonic::Lea {
        lemma_operand(l, instr, 1, s);
        lemma_quiet_tidy(l, a, s);
    }
    lemma_value_range(l, s, instr, 1);
    let w = l.target_width(instr);
    match instr.mnemonic {
        Mnemonic::Movzx => {
            let f = Expr::UnOp(UnOp::ZExt(w), Box::new(e));
            lemma_extended(l, a, f, w, instr, s);
            lemma_low(y, w);
        },
        Mnemonic::Movsx | Mnemonic::Movsxd => {
            let f = Expr::UnOp(UnOp::SExt(w), Box::new(e));
            lemma_extended(l, a, f, w, instr, s);
            lemma_low(y, v);
            lemma_low(signed(y, v), w);
        },
        Mnemonic::Lea => {
            let (b, f) = l.mem_addr(instr);
            lemma_address(l, instr, s);
            lemma_quiet_tidy(l, b, s);
            lemma_set(b, instr, 0, f, s);
            lemma_quiet_became(l, b, m, s, instr, 0, eval(f, at(b, s)));
        },
        _ => {
            lemma_set(a, instr, 0, e, s);
            lemma_quiet_became(l, a, l.copies(instr), s, instr, 0, y);
        },
    }
}

proof fn lemma_extended(l: Lift, a: Lift, f: Expr, w: Width, instr: Instr, s: World)
    requires
        writable(l, instr, 0),
        room(l, 64),
        quiet(l, a, s),
        a.next <= l.next + 5,
        below(regs_of(f), a.next),
    ensures
        became(
            l,
            a.assign(f).set_operand(instr, 0, Expr::Reg(a.vreg(), w)),
            s,
            instr,
            0,
            low(eval(f, at(a, s)), w),
        ),
{
    let b = a.assign(f);
    let r = Expr::Reg(a.vreg(), w);
    lemma_assign(a, f, s);
    lemma_quiet_trans(l, a, b, s);
    lemma_quiet_tidy(l, b, s);
    lemma_set(b, instr, 0, r, s);
    lemma_quiet_became(l, b, b.set_operand(instr, 0, r), s, instr, 0, eval(r, at(b, s)));
}

} // verus!

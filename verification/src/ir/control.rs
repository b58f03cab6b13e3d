//! Lifted comparisons, and lifted instructions that pass control on.
use vstd::prelude::*;

use super::access::{lemma_operand, lemma_quiet_became, lemma_quiet_tidy, lemma_set};
use super::machine::{
    at, became, binary, bound, content, eval, full_width, lemma_assign, lemma_low, lemma_push,
    lemma_quiet_eval, lemma_quiet_trans, lemma_quiet_value, low, operand_width, quiet, readable,
    room, run, signed, span, step, tidy, truth, value, writable, World,
};
use super::meaning::Lift;
use super::reads::{below, regs_of};
use super::{BinOp, Expr, StmtModel, UnOp, VReg, Width};
use crate::disasm::discovery::may_jump;
use crate::disasm::kinds::canonical;
use crate::x86::{Instr, Mnemonic, OpKind, Register};

verus! {

/// The last comparison was of `x` in width `v` with `y` in width `w`, and gave `d`; without one all
/// are zero, in full width.
pub open spec fn weighed(
    l: Lift,
    s: World,
    x: int,
    v: Width,
    y: int,
    w: Width,
    d: int,
) -> bool {
    match l.flags {
        Some((e, a, b)) => {
            &&& eval(a, at(l, s)) == x && a.value_width() == v && below(regs_of(a), l.next)
            &&& eval(b, at(l, s)) == y && b.value_width() == w && below(regs_of(b), l.next)
            &&& eval(e, at(l, s)) == d && e.value_width() == full_width(l) && below(
                regs_of(e),
                l.next,
            )
        },
        None => x == 0 && y == 0 && d == 0 && v == full_width(l) && w == full_width(l),
    }
}

proof fn lemma_latched(l: Lift, e: Expr, s: World)
    requires
        l.next < 0x1_0000_0000,
        below(regs_of(e), l.next),
    ensures
        ({
            let (m, f) = l.latched(e);
            &&& quiet(l, m, s) && m.next <= l.next + 1
            &&& eval(f, at(m, s)) == eval(e, at(l, s)) && f.value_width() == e.value_width()
            &&& below(regs_of(f), m.next)
        }),
{
    lemma_assign(l, e, s);
    if let Expr::Load(_, w) = e {
        lemma_low(eval(e, at(l, s)), w);
    }
}

/// A comparison is of the first operand with the second one, and gives their difference. A test is
/// of the bits that they have in common with zero, and gives these bits. No operand changes.
pub proof fn lemma_weighed(l: Lift, instr: Instr, id: u32, s: World)
    requires
        readable(l, instr, 0),
        readable(l, instr, 1),
        room(l, 64),
    ensures
        ({
            let m = l.instr(instr, id);
            let x = value(l, s, instr, 0);
            let y = value(l, s, instr, 1);
            let v = operand_width(l, instr, 0);
            let w = operand_width(l, instr, 1);
            let full = full_width(l);
            let both = ((((x as u64) & (y as u64)) as int) % span(v)) % span(full);
            &&& instr.mnemonic == Mnemonic::Cmp ==> quiet(l, Lift { flags: l.flags, ..m }, s)
                && weighed(m, s, x, v, y, w, ((x - y) % span(v)) % span(full))
            &&& instr.mnemonic == Mnemonic::Test ==> quiet(l, Lift { flags: l.flags, ..m }, s)
                && weighed(m, s, both, full, 0, full, both)
        }),
{
    let m = l.instr(instr, id);
    let (a, x) = l.operand(instr, 0);
    let (b, y) = a.operand(instr, 1);
    lemma_operand(l, instr, 0, s);
    lemma_quiet_tidy(l, a, s);
    lemma_operand(a, instr, 1, s);
    lemma_quiet_value(l, a, s, instr, 1);
    lemma_quiet_eval(a, b, s, x);
    lemma_quiet_trans(l, a, b, s);
    if instr.mnemonic == Mnemonic::Cmp {
        reveal(Lift::compares);
        let (c, p) = b.latched(x);
        lemma_latched(b, x, s);
        lemma_quiet_eval(b, c, s, y);
        lemma_quiet_trans(l, b, c, s);
        let (d, q) = c.latched(y);
        lemma_latched(c, y, s);
        lemma_quiet_eval(c, d, s, p);
        lemma_quiet_trans(l, c, d, s);
        let e = Expr::BinOp(BinOp::Sub, Box::new(p), Box::new(q));
        lemma_assign(d, e, s);
        lemma_quiet_eval(d, d.assign(e), s, p);
        lemma_quiet_eval(d, d.assign(e), s, q);
        lemma_quiet_trans(l, d, d.assign(e), s);
        assert(at(m, s) == at(d.assign(e), s));
        let back = Lift { flags: l.flags, ..m };
        assert(at(back, s) == at(m, s));
    } else if instr.mnemonic == Mnemonic::Test {
        reveal(Lift::tests);
        let e = Expr::BinOp(BinOp::And, Box::new(x), Box::new(y));
        lemma_assign(b, e, s);
        lemma_quiet_trans(l, b, b.assign(e), s);
        assert(at(m, s) == at(b.assign(e), s));
        let back = Lift { flags: l.flags, ..m };
        assert(at(back, s) == at(m, s));
        lemma_low(0, l.w());
    }
}

/// The value of the expression does not depend on memory.
pub open spec fn fixed(e: Expr, s: World) -> bool {
    forall|mem: Map<int, int>| #[trigger] eval(e, World { regs: s.regs, mem }) == eval(e, s)
}

proof fn lemma_operand_shape(l: Lift, instr: Instr, n: int)
    ensures
        ({
            let e = l.operand(instr, n).1;
            e is Reg || e is Const || e is Addr || e is Load
        }),
{
}

/// What has been compared stays compared: later changes of memory do not change it.
pub proof fn lemma_comparison_stays(l: Lift, instr: Instr, id: u32, s: World)
    requires
        instr.mnemonic == Mnemonic::Cmp || instr.mnemonic == Mnemonic::Test,
    ensures
        l.instr(instr, id).flags matches Some((e, a, b)) && fixed(e, s) && fixed(a, s) && fixed(
            b,
            s,
        ),
{
    reveal(Lift::compares);
    reveal(Lift::tests);
    lemma_operand_shape(l, instr, 0);
    lemma_operand_shape(l.operand(instr, 0).0, instr, 1);
}

/// The condition under which an instruction sets its operand or branches, after a comparison of `x`
/// and `y` that gave `d`: by their order as they are, by their order with signs, or by the sign of
/// what came out. For the others only equality is known.
pub open spec fn holds(
    m: Mnemonic,
    full: Width,
    x: int,
    v: Width,
    y: int,
    w: Width,
    d: int,
) -> bool {
    if m == Mnemonic::Sete || m == Mnemonic::Je || m == Mnemonic::Loope {
        x == y
    } else if m == Mnemonic::Setl || m == Mnemonic::Jl {
        signed(x, v) < signed(y, w)
    } else if m == Mnemonic::Setle || m == Mnemonic::Jle {
        signed(x, v) <= signed(y, w)
    } else if m == Mnemonic::Setg || m == Mnemonic::Jg {
        signed(x, v) > signed(y, w)
    } else if m == Mnemonic::Setge || m == Mnemonic::Jge {
        signed(x, v) >= signed(y, w)
    } else if m == Mnemonic::Setb || m == Mnemonic::Jb {
        x < y
    } else if m == Mnemonic::Setbe || m == Mnemonic::Jbe {
        x <= y
    } else if m == Mnemonic::Seta || m == Mnemonic::Ja {
        x > y
    } else if m == Mnemonic::Setae || m == Mnemonic::Jae {
        x >= y
    } else if m == Mnemonic::Js {
        signed(d, full) < 0
    } else if m == Mnemonic::Jns {
        signed(d, full) >= 0
    } else {
        x != y
    }
}

/// A set instruction.
pub open spec fn is_set(m: Mnemonic) -> bool {
    ||| m == Mnemonic::Sete || m == Mnemonic::Setne || m == Mnemonic::Setl || m == Mnemonic::Setle
    ||| m == Mnemonic::Setg || m == Mnemonic::Setge || m == Mnemonic::Setb || m == Mnemonic::Setbe
    ||| m == Mnemonic::Seta || m == Mnemonic::Setae
}

proof fn lemma_outcome(
    l: Lift,
    s: World,
    m: Mnemonic,
    x: int,
    v: Width,
    y: int,
    w: Width,
    d: int,
)
    requires
        weighed(l, s, x, v, y, w, d),
        is_set(m) || may_jump(m),
    ensures
        eval(l.condition(m), at(l, s)) == truth(holds(m, full_width(l), x, v, y, w, d)),
        below(regs_of(l.condition(m)), l.next),
{
    let zero = Expr::Const(0, l.w());
    lemma_low(0, l.w());
    assert(eval(zero, at(l, s)) == 0);
    assert(signed(0, l.w()) == 0);
    lemma_low(0, v);
    lemma_low(1, v);
    lemma_low(0, w);
    lemma_low(1, w);
    lemma_low(1, l.w());
    let e = l.condition(m);
    match e {
        Expr::BinOp(op, a, b) => {
            assert(eval(e, at(l, s)) == binary(
                op,
                a.value_width(),
                b.value_width(),
                eval(*a, at(l, s)),
                eval(*b, at(l, s)),
            ));
            assert(forall|r: u32| #[trigger]
                regs_of(e).contains(r) ==> regs_of(*a).contains(r) || regs_of(*b).contains(r));
        },
        _ => {},
    }
}

/// A set instruction gives its operand one where its condition holds, else zero. Everything else
/// stays.
pub proof fn lemma_set_on(
    l: Lift,
    instr: Instr,
    id: u32,
    s: World,
    x: int,
    v: Width,
    y: int,
    w: Width,
    d: int,
)
    requires
        writable(l, instr, 0),
        room(l, 64),
        is_set(instr.mnemonic),
        weighed(l, s, x, v, y, w, d),
    ensures
        became(
            l,
            l.instr(instr, id),
            s,
            instr,
            0,
            if holds(instr.mnemonic, full_width(l), x, v, y, w, d) {
                1
            } else {
                0
            },
        ),
{
    reveal(Lift::sets);
    let m = l.instr(instr, id);
    let c = l.condition(instr.mnemonic);
    lemma_outcome(l, s, instr.mnemonic, x, v, y, w, d);
    let t = truth(holds(instr.mnemonic, full_width(l), x, v, y, w, d));
    lemma_low(t, Width::W8);
    let a = l.assign(c);
    lemma_assign(l, c, s);
    let e = Expr::UnOp(UnOp::ZExt(Width::W8), Box::new(Expr::Reg(l.vreg(), Width::W8)));
    let b = a.assign(e);
    lemma_assign(a, e, s);
    assert(eval(Expr::Reg(l.vreg(), Width::W8), at(a, s)) == t);
    assert(eval(e, at(a, s)) == t);
    lemma_quiet_trans(l, a, b, s);
    lemma_quiet_tidy(l, b, s);
    let r = Expr::Reg(a.vreg(), Width::W8);
    lemma_set(b, instr, 0, r, s);
    lemma_quiet_became(l, b, m, s, instr, 0, eval(r, at(b, s)));
}

proof fn lemma_branches_on(
    l: Lift,
    instr: Instr,
    id: u32,
    s: World,
    x: int,
    v: Width,
    y: int,
    w: Width,
    d: int,
)
    requires
        tidy(l),
        room(l, 64),
        may_jump(instr.mnemonic),
        weighed(l, s, x, v, y, w, d),
    ensures
        ({
            let m = l.branches_on(instr, id);
            &&& quiet(l, m, s)
            &&& m.out.last() matches StmtModel::Branch { cond, true_id, false_id } && {
                &&& eval(cond, at(m, s)) != 0 <==> holds(
                    instr.mnemonic,
                    full_width(l),
                    x,
                    v,
                    y,
                    w,
                    d,
                )
                &&& true_id == (if l.blocks.contains_key(instr.near_branch_target) {
                    l.blocks[instr.near_branch_target]
                } else {
                    0
                })
                &&& l.blocks.contains_key(instr.next_ip) ==> false_id == l.blocks[instr.next_ip]
                &&& !l.blocks.contains_key(instr.next_ip) && id < u32::MAX ==> false_id == id + 1
            }
        }),
{
    reveal(Lift::branches_on);
    let m = l.branches_on(instr, id);
    let c = l.condition(instr.mnemonic);
    lemma_outcome(l, s, instr.mnemonic, x, v, y, w, d);
    let t = truth(holds(instr.mnemonic, full_width(l), x, v, y, w, d));
    lemma_low(t, Width::W8);
    let a = l.assign(c);
    lemma_assign(l, c, s);
    lemma_push(a, m.out.last(), s);
    assert(at(m, s) == at(a, s));
}

/// A branch goes to the block at its target where its condition holds, else to the block behind it;
/// a target without a block counts as block 0, and behind it as the next number.
pub proof fn lemma_branch_on(
    l: Lift,
    instr: Instr,
    id: u32,
    s: World,
    x: int,
    v: Width,
    y: int,
    w: Width,
    d: int,
)
    requires
        tidy(l),
        room(l, 64),
        may_jump(instr.mnemonic),
        weighed(l, s, x, v, y, w, d),
    ensures
        ({
            let m = l.instr(instr, id);
            &&& quiet(l, m, s)
            &&& m.out.last() matches StmtModel::Branch { cond, true_id, false_id } && {
                &&& eval(cond, at(m, s)) != 0 <==> holds(
                    instr.mnemonic,
                    full_width(l),
                    x,
                    v,
                    y,
                    w,
                    d,
                )
                &&& true_id == (if l.blocks.contains_key(instr.near_branch_target) {
                    l.blocks[instr.near_branch_target]
                } else {
                    0
                })
                &&& l.blocks.contains_key(instr.next_ip) ==> false_id == l.blocks[instr.next_ip]
                &&& !l.blocks.contains_key(instr.next_ip) && id < u32::MAX ==> false_id == id + 1
            }
        }),
{
    lemma_branches_on(l, instr, id, s, x, v, y, w, d);
    lemma_branch_meant(l, instr, id);
}

proof fn lemma_branch_meant(l: Lift, instr: Instr, id: u32)
    requires
        may_jump(instr.mnemonic),
    ensures
        l.instr(instr, id) == l.branches_on(instr, id),
{
}

/// A jump goes to the block at its target; one without a block there, or without a target of its
/// own, goes to the address that it names.
pub proof fn lemma_jumped(l: Lift, instr: Instr, id: u32, s: World)
    requires
        readable(l, instr, 0),
        room(l, 64),
        instr.mnemonic == Mnemonic::Jmp,
    ensures
        ({
            let m = l.instr(instr, id);
            let wide = instr.op0.kind == OpKind::NearBranch32 || instr.op0.kind
                == OpKind::NearBranch64;
            &&& quiet(l, m, s)
            &&& wide && l.blocks.contains_key(instr.near_branch_target) ==> m.out.last()
                == StmtModel::Jump(l.blocks[instr.near_branch_target])
            &&& !(wide && l.blocks.contains_key(instr.near_branch_target)) ==> (
            m.out.last() matches StmtModel::IndirectJump(e) && eval(e, at(m, s)) == value(
                l,
                s,
                instr,
                0,
            ))
        }),
{
    reveal(Lift::jumps_on);
    let m = l.instr(instr, id);
    let (a, e) = l.operand(instr, 0);
    lemma_operand(l, instr, 0, s);
    lemma_push(a, StmtModel::IndirectJump(e), s);
    lemma_push(l, StmtModel::IndirectJump(e), s);
    lemma_push(l, StmtModel::Jump(l.blocks[instr.near_branch_target]), s);
    assert(at(a.push(StmtModel::IndirectJump(e)), s) == at(a, s));
}

/// A return gives what the accumulator holds, where it has been seen; else nothing.
pub proof fn lemma_returned(l: Lift, instr: Instr, id: u32, s: World)
    requires
        instr.mnemonic == Mnemonic::Ret || instr.mnemonic == Mnemonic::Retf,
    ensures
        ({
            let m = l.instr(instr, id);
            &&& m.out.len() == l.out.len() + 1 && m.out.drop_last() == l.out
            &&& l.regs.contains_key(Register::RAX.number()) ==> (
            m.out.last() matches StmtModel::Return(Some(e)) && eval(e, at(l, s)) == content(
                l,
                s,
                Register::RAX,
            ) % span(full_width(l)))
            &&& !l.regs.contains_key(Register::RAX.number()) ==> m.out.last()
                == StmtModel::Return(None)
        }),
{
    reveal(Lift::gives_back);
    assert(l.instr(instr, id).out.drop_last() =~= l.out);
}

/// The machine register that carries argument `i`.
pub open spec fn carries(i: int) -> Register {
    if i == 0 {
        Register::RDI
    } else if i == 1 {
        Register::RSI
    } else if i == 2 {
        Register::RDX
    } else if i == 3 {
        Register::RCX
    } else if i == 4 {
        Register::R8
    } else {
        Register::R9
    }
}

/// All six have been seen.
pub open spec fn all_bound(l: Lift) -> bool {
    forall|i: int| 0 <= i < 6 ==> bound(l, #[trigger] carries(i))
}

/// The arguments handed over are what the argument registers hold that have been seen, in the order
/// of the calling convention.
pub proof fn lemma_arguments(l: Lift, n: int, s: World)
    requires
        0 <= n <= 6,
    ensures
        l.call_args(n).len() <= n,
        n > 0 && l.regs.contains_key(carries(n - 1).number()) ==> l.call_args(n).len()
            == l.call_args(n - 1).len() + 1 && l.call_args(n).drop_last() == l.call_args(n - 1)
            && eval(l.call_args(n).last(), at(l, s)) == content(l, s, carries(n - 1)) % span(
            full_width(l),
        ) && l.call_args(n).last().value_width() == full_width(l),
        n > 0 && !l.regs.contains_key(carries(n - 1).number()) ==> l.call_args(n) == l.call_args(
            n - 1,
        ),
        n == 0 ==> l.call_args(n).len() == 0,
    decreases n,
{
    if n > 0 {
        lemma_arguments(l, n - 1, s);
        assert(l.regs.contains_key(carries(n - 1).number()) ==> l.call_args(n).drop_last()
            =~= l.call_args(n - 1));
    }
}

/// What the accumulator holds behind a call that gave back `v` and left the given memory.
pub open spec fn given_back(
    m: Lift,
    before: Lift,
    dst: VReg,
    s: World,
    v: int,
    mem: Map<int, int>,
) -> int {
    run(
        World { regs: at(before, s).regs.insert(dst.0, v), mem },
        m.out.skip(before.out.len() + 1int),
    ).regs[m.regs[Register::RAX.number()]]
}

proof fn lemma_calls(l: Lift, instr: Instr, s: World) -> (r: (
    Lift,
    VReg,
    Expr,
    Seq<Expr>,
))
    requires
        readable(l, instr, 0),
        room(l, 64),
    ensures
        ({
            let (before, dst, func, args) = r;
            let m = l.calls(instr);
            let n = before.out.len() as int;
            &&& quiet(l, before, s)
            &&& m.out.len() > n && m.out.take(n) == before.out
            &&& m.out[n] == StmtModel::Call { dst: Some(dst), func, args }
            &&& eval(func, at(before, s)) == value(l, s, instr, 0)
            &&& args == before.call_args(6)
            &&& all_bound(l) ==> args.len() == 6
            &&& forall|i: int|
                0 <= i < 6 && all_bound(l) ==> eval(#[trigger] args[i], at(before, s)) == content(
                    l,
                    s,
                    carries(i),
                ) % span(full_width(l))
            &&& m.regs.contains_key(Register::RAX.number())
            &&& forall|k: u16|
                k != Register::RAX.number() && #[trigger] l.regs.contains_key(k)
                    ==> m.regs.contains_key(k) && m.regs[k] == l.regs[k]
            &&& m.flags == l.flags && m.blocks == l.blocks && m.arch == l.arch
        }),
        forall|v: int, mem: Map<int, int>| #[trigger]
            given_back(l.calls(instr), r.0, r.1, s, v, mem) == v % span(full_width(l)),
{
    reveal(Lift::calls);
    let w = l.w();
    let m = l.calls(instr);
    let (a, func) = l.operand(instr, 0);
    lemma_operand(l, instr, 0, s);
    lemma_quiet_value(l, a, s, instr, 0);
    let args = a.call_args(6);
    let dst = a.vreg();
    let call = StmtModel::Call { dst: Some(dst), func, args };
    let b = a.took().push(call);
    let val = Expr::Reg(dst, w);
    if all_bound(l) {
        lemma_six(l, a, s);
    }
    let n = a.out.len() as int;
    if w == Width::W64 {
        let s1 = StmtModel::Assign(b.vreg(), val);
        assert(m.out == b.out.push(s1));
        assert(m.out.take(n) =~= a.out);
        let tail = m.out.skip(n + 1);
        assert(tail =~= seq![s1]);
        assert forall|v: int, mem: Map<int, int>| #[trigger]
            given_back(m, a, dst, s, v, mem) == v % span(w) by {
            assert(tail.drop_last() =~= Seq::empty());
            reveal_with_fuel(run, 3);
        }
    } else {
        let s1 = StmtModel::Assign(b.vreg(), Expr::UnOp(UnOp::ZExt(Width::W64), Box::new(val)));
        let c = b.assign(Expr::UnOp(UnOp::ZExt(Width::W64), Box::new(val)));
        let s2 = StmtModel::Assign(c.vreg(), Expr::Reg(b.vreg(), Width::W64));
        assert(m.out == b.out.push(s1).push(s2));
        assert(m.out.take(n) =~= a.out);
        let tail = m.out.skip(n + 1);
        assert(tail =~= seq![s1, s2]);
        assert forall|v: int, mem: Map<int, int>| #[trigger]
            given_back(m, a, dst, s, v, mem) == v % span(w) by {
            assert(tail.drop_last() =~= seq![s1]);
            let back = World { regs: at(a, s).regs.insert(dst.0, v), mem };
            let ext = Expr::UnOp(UnOp::ZExt(Width::W64), Box::new(val));
            assert(run(back, Seq::empty()) == back);
            assert(seq![s1].drop_last() =~= Seq::empty());
            assert(run(back, seq![s1]) == step(back, s1));
            assert(run(back, tail) == step(step(back, s1), s2));
            lemma_low(v, w);
            lemma_low(low(v, w), Width::W64);
            assert(eval(val, back) == low(v, w));
            assert(eval(ext, back) == low(v, w));
        }
    }
    (a, dst, func, args)
}

/// A call: nothing changes before it, its function is the operand, its arguments are what the
/// argument registers hold that have been seen, and whatever it gives back, and whatever it does to
/// memory, the accumulator then holds what it gave back. No other register changes.
pub proof fn lemma_called(l: Lift, instr: Instr, id: u32, s: World) -> (r: (
    Lift,
    VReg,
    Expr,
    Seq<Expr>,
))
    requires
        readable(l, instr, 0),
        room(l, 64),
        instr.mnemonic == Mnemonic::Call,
    ensures
        ({
            let (before, dst, func, args) = r;
            let m = l.instr(instr, id);
            let n = before.out.len() as int;
            &&& quiet(l, before, s)
            &&& m.out.len() > n && m.out.take(n) == before.out
            &&& m.out[n] == StmtModel::Call { dst: Some(dst), func, args }
            &&& eval(func, at(before, s)) == value(l, s, instr, 0)
            &&& args == before.call_args(6)
            &&& all_bound(l) ==> args.len() == 6
            &&& forall|i: int|
                0 <= i < 6 && all_bound(l) ==> eval(#[trigger] args[i], at(before, s)) == content(
                    l,
                    s,
                    carries(i),
                ) % span(full_width(l))
            &&& m.regs.contains_key(Register::RAX.number())
            &&& forall|k: u16|
                k != Register::RAX.number() && #[trigger] l.regs.contains_key(k)
                    ==> m.regs.contains_key(k) && m.regs[k] == l.regs[k]
            &&& m.flags == l.flags && m.blocks == l.blocks && m.arch == l.arch
        }),
        forall|v: int, mem: Map<int, int>| #[trigger]
            given_back(l.instr(instr, id), r.0, r.1, s, v, mem) == v % span(full_width(l)),
{
    lemma_call_meant(l, instr, id);
    lemma_calls(l, instr, s)
}

proof fn lemma_call_meant(l: Lift, instr: Instr, id: u32)
    requires
        instr.mnemonic == Mnemonic::Call,
    ensures
        l.instr(instr, id) == l.calls(instr),
{
}

proof fn lemma_six(l: Lift, a: Lift, s: World)
    requires
        tidy(l),
        all_bound(l),
        quiet(l, a, s),
    ensures
        a.call_args(6).len() == 6,
        forall|i: int|
            0 <= i < 6 ==> eval(#[trigger] a.call_args(6)[i], at(a, s)) == content(
                l,
                s,
                carries(i),
            ) % span(full_width(l)),
{
    reveal_with_fuel(Lift::call_args, 7);
    assert forall|i: int| 0 <= i < 6 implies #[trigger] l.regs.contains_key(
        carries(i).number(),
    ) by {
        assert(canonical(carries(i)) == carries(i));
        assert(bound(l, carries(i)));
    }
    assert(l.regs.contains_key(carries(0).number()));
    assert(l.regs.contains_key(carries(1).number()));
    assert(l.regs.contains_key(carries(2).number()));
    assert(l.regs.contains_key(carries(3).number()));
    assert(l.regs.contains_key(carries(4).number()));
    assert(l.regs.contains_key(carries(5).number()));
    assert forall|i: int| 0 <= i < 6 implies eval(#[trigger] a.call_args(6)[i], at(a, s))
        == content(l, s, carries(i)) % span(full_width(l)) by {
        let k = carries(i).number();
        assert(l.regs.contains_key(k));
        assert(canonical(carries(i)) == carries(i));
        assert(at(a, s).regs[l.regs[k]] == at(l, s).regs[l.regs[k]]);
    }
}

/// A register seen for the first time gets the next number and nothing else changes, but that it
/// becomes a parameter where it carries an argument; one seen before changes nothing.
pub proof fn lemma_first_seen(l: Lift, r: Register)
    requires
        l.next < 0x1_0000_0000,
    ensures
        ({
            let m = l.seen(r);
            let key = canonical(r).number();
            let full = canonical(r);
            &&& m.regs.contains_key(key)
            &&& l.regs.contains_key(key) ==> m == l
            &&& !l.regs.contains_key(key) ==> {
                &&& m.regs == l.regs.insert(key, l.next as u32) && m.next == l.next + 1
                &&& m.out == l.out && m.flags == l.flags && m.blocks == l.blocks && m.arch
                    == l.arch
                &&& m.params == (if (full == Register::RDI || full == Register::RSI || full
                    == Register::RDX || full == Register::RCX || full == Register::R8 || full
                    == Register::R9) && !l.params.contains(key) {
                    l.params.push(key)
                } else {
                    l.params
                })
            }
        }),
{
}

/// Reading a register that has not been seen is seeing it and then reading it.
pub proof fn lemma_seen_read(l: Lift, r: Register, w: Width)
    ensures
        l.read_reg(r, w) == l.seen(r).read_reg(r, w),
{
}

/// Where the operand that an instruction reads first is a register not seen before, the instruction
/// does what it does once the register has been seen: what holds of registers that have been seen
/// holds of it, with the register's first number for its old value.
pub proof fn lemma_seen_first(l: Lift, instr: Instr, id: u32)
    ensures
        ({
            let op = instr.mnemonic;
            let first = l.seen(instr.op0.register);
            let second = l.seen(instr.op1.register);
            &&& instr.op0.kind == OpKind::Register && (op == Mnemonic::Inc || op == Mnemonic::Dec
                || op == Mnemonic::Neg || op == Mnemonic::Not || op == Mnemonic::Add || op
                == Mnemonic::Sub || op == Mnemonic::And || op == Mnemonic::Or || op
                == Mnemonic::Shl || op == Mnemonic::Sal || op == Mnemonic::Shr || op
                == Mnemonic::Sar || op == Mnemonic::Cmp || op == Mnemonic::Test || op
                == Mnemonic::Push) ==> l.instr(instr, id) == first.instr(instr, id)
            &&& instr.op1.kind == OpKind::Register && (op == Mnemonic::Mov || op == Mnemonic::Movzx
                || op == Mnemonic::Movsx || op == Mnemonic::Movsxd) ==> l.instr(instr, id)
                == second.instr(instr, id)
        }),
{
    let first = l.seen(instr.op0.register);
    let second = l.seen(instr.op1.register);
    if instr.op0.kind == OpKind::Register {
        assert(l.operand(instr, 0) == first.operand(instr, 0));
        lemma_same_start(l, first, instr, BinOp::Add, UnOp::Neg);
        lemma_same_start(l, first, instr, BinOp::Sub, UnOp::Not);
        lemma_same_start(l, first, instr, BinOp::And, UnOp::Not);
        lemma_same_start(l, first, instr, BinOp::Or, UnOp::Not);
        lemma_same_start(l, first, instr, BinOp::Shl, UnOp::Not);
        lemma_same_start(l, first, instr, BinOp::LShr, UnOp::Not);
        lemma_same_start(l, first, instr, BinOp::AShr, UnOp::Not);
    }
    if instr.op1.kind == OpKind::Register {
        assert(l.operand(instr, 1) == second.operand(instr, 1));
        lemma_same_source(l, second, instr);
    }
}

proof fn lemma_same_start(l: Lift, k: Lift, instr: Instr, bin: BinOp, un: UnOp)
    requires
        l.arch == k.arch,
        l.operand(instr, 0) == k.operand(instr, 0),
    ensures
        l.steps(instr, bin) == k.steps(instr, bin),
        l.applies(instr, un) == k.applies(instr, un),
        l.combines(instr, bin) == k.combines(instr, bin),
        l.compares(instr) == k.compares(instr),
        l.tests(instr) == k.tests(instr),
        l.pushes(instr) == k.pushes(instr),
{
    assert(l.w() == k.w() && l.word() == k.word());
    assert(l.steps(instr, bin) == k.steps(instr, bin)) by {
        reveal(Lift::steps);
    }
    assert(l.applies(instr, un) == k.applies(instr, un)) by {
        reveal(Lift::applies);
    }
    assert(l.combines(instr, bin) == k.combines(instr, bin)) by {
        reveal(Lift::combines);
    }
    assert(l.compares(instr) == k.compares(instr)) by {
        reveal(Lift::compares);
    }
    assert(l.tests(instr) == k.tests(instr)) by {
        reveal(Lift::tests);
    }
    assert(l.pushes(instr) == k.pushes(instr)) by {
        reveal(Lift::pushes);
    }
}

proof fn lemma_same_source(l: Lift, k: Lift, instr: Instr)
    requires
        l.arch == k.arch,
        l.operand(instr, 1) == k.operand(instr, 1),
    ensures
        l.copies(instr) == k.copies(instr),
        l.extends(instr, true) == k.extends(instr, true),
        l.extends(instr, false) == k.extends(instr, false),
{
    reveal(Lift::copies);
    reveal(Lift::extends);
    assert(l.target_width(instr) == k.target_width(instr));
}

/// An operand that cannot be written is named in a remark, and nothing else happens.
pub proof fn lemma_not_written(l: Lift, instr: Instr, n: int, val: Expr)
    requires
        instr.operand(n).kind != OpKind::Register,
        instr.operand(n).kind != OpKind::Memory,
    ensures
        l.set_operand(instr, n, val) == l.push(
            StmtModel::Unhandled("cannot write to op kind "@ + instr.operand(n).kind.text()),
        ),
{
}

/// An operation without effect adds nothing that counts; one that is not known is noted under its
/// name.
pub proof fn lemma_others(l: Lift, instr: Instr, id: u32)
    ensures
        ({
            let op = instr.mnemonic;
            let m = l.instr(instr, id);
            &&& op == Mnemonic::Nop || op == Mnemonic::Endbr32 || op == Mnemonic::Endbr64 ==> m
                == l.push(StmtModel::Nop)
            &&& op is Other || op == Mnemonic::Iret || op == Mnemonic::Iretd || op
                == Mnemonic::Iretq ==> m == l.push(StmtModel::Unhandled(op.text()))
        }),
{
}

} // verus!

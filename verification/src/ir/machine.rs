//! What expressions and statements do when they run, on numbered registers and on memory.
use vstd::arithmetic::div_mod::lemma_mod_mod;
use vstd::arithmetic::power2::pow2;
use vstd::prelude::*;

use super::meaning::Lift;
use super::reads::{below, regs_of};
use super::{BinOp, Expr, StmtModel, UnOp, Width};
use crate::binary::Arch;
use crate::disasm::kinds::{bits_of, canonical};
use crate::x86::{Instr, MemorySize, OpKind, Register};

verus! {

/// The values of the registers, and the bytes of the memory.
#[verifier::ext_equal]
pub ghost struct World {
    pub regs: Map<u32, int>,
    pub mem: Map<int, int>,
}

/// The number of values of a width.
pub open spec fn span(w: Width) -> int {
    match w {
        Width::W8 => 0x100,
        Width::W16 => 0x1_0000,
        Width::W32 => 0x1_0000_0000,
        Width::W64 => 0x1_0000_0000_0000_0000,
    }
}

/// The number of bytes of a width.
pub open spec fn size(w: Width) -> int {
    match w {
        Width::W8 => 1,
        Width::W16 => 2,
        Width::W32 => 4,
        Width::W64 => 8,
    }
}

/// What is left of a number in a width.
pub open spec fn low(v: int, w: Width) -> int {
    v % span(w)
}

/// The number in two's complement.
pub open spec fn signed(v: int, w: Width) -> int {
    if low(v, w) < span(w) / 2 {
        low(v, w)
    } else {
        low(v, w) - span(w)
    }
}

/// 256 to the power of `n`.
pub open spec fn weight(n: int) -> int
    decreases n,
{
    if n <= 0 {
        1
    } else {
        256 * weight(n - 1)
    }
}

/// The first `n` bytes at an address as a number, the lowest byte first.
pub open spec fn bytes_at(mem: Map<int, int>, addr: int, n: int) -> int
    decreases n,
{
    if n <= 0 {
        0
    } else {
        bytes_at(mem, addr, n - 1) + (mem[low(addr + n - 1, Width::W64)] % 256) * weight(n - 1)
    }
}

/// The number of the given width at an address.
pub open spec fn load(mem: Map<int, int>, addr: int, w: Width) -> int {
    low(bytes_at(mem, addr, size(w)), w)
}

/// The memory after the first `n` bytes of a number have been put at an address.
pub open spec fn bytes_put(mem: Map<int, int>, addr: int, v: int, n: int) -> Map<int, int>
    decreases n,
{
    if n <= 0 {
        mem
    } else {
        bytes_put(mem, addr, v, n - 1).insert(
            low(addr + n - 1, Width::W64),
            (v / weight(n - 1)) % 256,
        )
    }
}

/// The memory after a number of the given width has been put at an address.
pub open spec fn store(mem: Map<int, int>, addr: int, w: Width, v: int) -> Map<int, int> {
    bytes_put(mem, addr, low(v, w), size(w))
}

/// The quotient, rounded towards zero.
pub open spec fn quotient(a: int, b: int) -> int {
    if a >= 0 {
        a / b
    } else {
        -((-a) / b)
    }
}

/// One where it holds, else zero.
pub open spec fn truth(b: bool) -> int {
    if b {
        1
    } else {
        0
    }
}

/// The value of an operation on a number of width `wa` and one of width `wb`; it has the width of
/// the first.
pub open spec fn binary(op: BinOp, wa: Width, wb: Width, a: int, b: int) -> int {
    low(
        match op {
            BinOp::Add => a + b,
            BinOp::Sub => a - b,
            BinOp::Mul => a * b,
            BinOp::UDiv => a / b,
            BinOp::UMod => a % b,
            BinOp::SDiv => quotient(signed(a, wa), signed(b, wb)),
            BinOp::SMod => signed(a, wa) - signed(b, wb) * quotient(signed(a, wa), signed(b, wb)),
            BinOp::And => ((a as u64) & (b as u64)) as int,
            BinOp::Or => ((a as u64) | (b as u64)) as int,
            BinOp::Xor => ((a as u64) ^ (b as u64)) as int,
            BinOp::Shl => a * pow2(b as nat),
            BinOp::LShr => a / (pow2(b as nat) as int),
            BinOp::AShr => signed(a, wa) / (pow2(b as nat) as int),
            BinOp::Eq => truth(a == b),
            BinOp::Ne => truth(a != b),
            BinOp::Ult => truth(a < b),
            BinOp::Ule => truth(a <= b),
            BinOp::Slt => truth(signed(a, wa) < signed(b, wb)),
            BinOp::Sle => truth(signed(a, wa) <= signed(b, wb)),
        },
        wa,
    )
}

/// The value of an operation on a number of width `w`.
pub open spec fn unary(op: UnOp, w: Width, a: int) -> int {
    match op {
        UnOp::Neg => low(-a, Width::W64),
        UnOp::Not => low(-1 - a, Width::W64),
        UnOp::ZExt(t) => low(a, t),
        UnOp::SExt(t) => low(signed(a, w), t),
        UnOp::Trunc(t) => low(a, t),
    }
}

/// The value of an expression.
pub open spec fn eval(e: Expr, s: World) -> int
    decreases e,
{
    match e {
        Expr::Reg(r, w) => low(s.regs[r.0], w),
        Expr::Const(v, w) => low(v as int, w),
        Expr::BinOp(op, l, r) => binary(
            op,
            l.value_width(),
            r.value_width(),
            eval(*l, s),
            eval(*r, s),
        ),
        Expr::UnOp(op, inner) => unary(op, inner.value_width(), eval(*inner, s)),
        Expr::Load(addr, w) => load(s.mem, eval(*addr, s), w),
        Expr::StackSlot(_, _) => 0,
        Expr::Addr(a) => a as int,
    }
}

/// What a statement does to registers and memory; a call leaves them to the function called.
pub open spec fn step(s: World, stmt: StmtModel) -> World {
    match stmt {
        StmtModel::Assign(r, e) => World { regs: s.regs.insert(r.0, eval(e, s)), ..s },
        StmtModel::Store { addr, val, width } => World {
            mem: store(s.mem, eval(addr, s), width, eval(val, s)),
            ..s
        },
        _ => s,
    }
}

/// The statements, one after the other.
pub open spec fn run(s: World, stmts: Seq<StmtModel>) -> World
    decreases stmts.len(),
{
    if stmts.len() == 0 {
        s
    } else {
        step(run(s, stmts.drop_last()), stmts.last())
    }
}

/// The state behind the statements lifted so far, when the block starts in `s`.
pub open spec fn at(l: Lift, s: World) -> World {
    run(s, l.out)
}

/// The width of a machine register.
pub open spec fn width_of(r: Register) -> Width {
    if bits_of(r) == 8 {
        Width::W8
    } else if bits_of(r) == 16 {
        Width::W16
    } else if bits_of(r) == 32 {
        Width::W32
    } else {
        Width::W64
    }
}

/// The content of the register that a machine register is part of.
pub open spec fn content(l: Lift, s: World, r: Register) -> int {
    at(l, s).regs[l.regs[canonical(r).number()]]
}

/// The value of a part of the memory operand's address: nothing without a register, the address
/// behind the instruction for the instruction pointer, else what the register holds.
pub open spec fn part(l: Lift, s: World, instr: Instr, r: Register) -> int {
    if r == Register::NoRegister {
        0
    } else if r == Register::RIP || r == Register::EIP {
        instr.next_ip as int
    } else {
        content(l, s, r)
    }
}

/// The index of the memory operand, as often as the scale says.
pub open spec fn scaled(l: Lift, s: World, instr: Instr) -> int {
    if instr.memory.index == Register::NoRegister {
        0
    } else if instr.memory.scale > 1 {
        content(l, s, instr.memory.index) * instr.memory.scale
    } else {
        content(l, s, instr.memory.index)
    }
}

/// The address of the memory operand, modulo the number of addresses.
pub open spec fn address(l: Lift, s: World, instr: Instr) -> int {
    low(
        part(l, s, instr, instr.memory.base) + scaled(l, s, instr) + instr.memory.displacement,
        if l.arch == Arch::X86_64 {
            Width::W64
        } else {
            Width::W32
        },
    )
}

/// The width of an immediate operand.
pub open spec fn immediate_width(kind: OpKind) -> Option<Width> {
    match kind {
        OpKind::Immediate8 | OpKind::Immediate8Second => Some(Width::W8),
        OpKind::Immediate16 | OpKind::Immediate8to16 => Some(Width::W16),
        OpKind::Immediate32 | OpKind::Immediate8to32 => Some(Width::W32),
        OpKind::Immediate64 | OpKind::Immediate8to64 | OpKind::Immediate32to64 => Some(Width::W64),
        _ => None,
    }
}

/// The width of a number of the given size in memory: that of the number, and of what points to one
/// of 16 or 32 bits; 64 bits for all other sizes.
pub open spec fn memory_width(size: MemorySize) -> Width {
    if size == MemorySize::UInt8 || size == MemorySize::Int8 {
        Width::W8
    } else if size == MemorySize::UInt16 || size == MemorySize::Int16 || size
        == MemorySize::WordOffset {
        Width::W16
    } else if size == MemorySize::UInt32 || size == MemorySize::Int32 || size
        == MemorySize::DwordOffset {
        Width::W32
    } else {
        Width::W64
    }
}

/// The full width of the machine.
pub open spec fn full_width(l: Lift) -> Width {
    if l.arch == Arch::X86_64 {
        Width::W64
    } else {
        Width::W32
    }
}

/// The width of an operand.
pub open spec fn operand_width(l: Lift, instr: Instr, n: int) -> Width {
    let op = instr.operand(n);
    if op.kind == OpKind::Register {
        width_of(op.register)
    } else if op.kind == OpKind::Memory {
        memory_width(instr.memory.size)
    } else if op.kind == OpKind::NearBranch32 || op.kind == OpKind::NearBranch64 {
        Width::W64
    } else {
        match immediate_width(op.kind) {
            Some(w) => w,
            None => full_width(l),
        }
    }
}

/// The value of an operand: what a register or the memory holds in its width, an immediate number,
/// or the target of a branch.
pub open spec fn value(l: Lift, s: World, instr: Instr, n: int) -> int {
    let op = instr.operand(n);
    let w = operand_width(l, instr, n);
    if op.kind == OpKind::Register {
        low(content(l, s, op.register), w)
    } else if op.kind == OpKind::Memory {
        load(at(l, s).mem, address(l, s, instr), w)
    } else if op.kind == OpKind::NearBranch32 || op.kind == OpKind::NearBranch64 {
        instr.near_branch_target as int
    } else if immediate_width(op.kind) is Some {
        low(op.immediate as int, w)
    } else {
        0
    }
}

/// Numbers are left for `n` registers.
pub open spec fn room(l: Lift, n: int) -> bool {
    l.next + n <= 0x1_0000_0000
}

/// The registers taken for machine registers have numbers below the next one.
pub open spec fn tidy(l: Lift) -> bool {
    forall|k: u16| #[trigger] l.regs.contains_key(k) ==> l.regs[k] < l.next
}

/// The machine register has been seen.
pub open spec fn bound(l: Lift, r: Register) -> bool {
    l.regs.contains_key(canonical(r).number())
}

/// The registers of the memory operand have been seen.
pub open spec fn placed(l: Lift, instr: Instr) -> bool {
    let base = instr.memory.base;
    let index = instr.memory.index;
    &&& base == Register::NoRegister || base == Register::RIP || base == Register::EIP || bound(
        l,
        base,
    )
    &&& index == Register::NoRegister || bound(l, index)
}

/// The registers that operand `n` names have been seen.
pub open spec fn readable(l: Lift, instr: Instr, n: int) -> bool {
    &&& tidy(l)
    &&& instr.operand(n).kind == OpKind::Register ==> bound(l, instr.operand(n).register)
    &&& instr.operand(n).kind == OpKind::Memory ==> placed(l, instr)
}

/// From `l` to `m` statements have been added that change nothing but registers not taken before.
pub open spec fn quiet(l: Lift, m: Lift, s: World) -> bool {
    &&& m.arch == l.arch && m.regs == l.regs && m.flags == l.flags
    &&& m.params == l.params && m.blocks == l.blocks && l.next <= m.next
    &&& at(m, s).mem == at(l, s).mem
    &&& forall|v: u32| v < l.next ==> #[trigger] at(m, s).regs[v] == at(l, s).regs[v]
}

/// From `l` to `m` no register taken before has been assigned again.
pub open spec fn kept(l: Lift, m: Lift, s: World) -> bool {
    forall|v: u32| v < l.next ==> #[trigger] at(m, s).regs[v] == at(l, s).regs[v]
}

/// From `l` to `m` the machine register has been given the value, and nothing else has changed.
pub open spec fn wrote(l: Lift, m: Lift, s: World, r: Register, v: int) -> bool {
    &&& m.arch == l.arch && m.flags == l.flags
    &&& m.params == l.params && m.blocks == l.blocks && l.next <= m.next
    &&& at(m, s).mem == at(l, s).mem
    &&& bound(m, r) && content(m, s, r) == v
    &&& forall|k: u16|
        k != canonical(r).number() && #[trigger] l.regs.contains_key(k) ==> m.regs.contains_key(k)
            && at(m, s).regs[m.regs[k]] == at(l, s).regs[l.regs[k]]
}

/// From `l` to `m` the number has been put into memory, and nothing else has changed.
pub open spec fn stored(l: Lift, m: Lift, s: World, addr: int, w: Width, v: int) -> bool {
    &&& m.arch == l.arch && m.flags == l.flags && m.regs == l.regs
    &&& m.params == l.params && m.blocks == l.blocks && l.next <= m.next
    &&& at(m, s).mem == store(at(l, s).mem, addr, w, v)
    &&& forall|k: u16| #[trigger]
        l.regs.contains_key(k) ==> at(m, s).regs[l.regs[k]] == at(l, s).regs[l.regs[k]]
}

/// From `l` to `m` operand `n` has been given the value, and nothing else has changed.
pub open spec fn became(l: Lift, m: Lift, s: World, instr: Instr, n: int, v: int) -> bool {
    let op = instr.operand(n);
    if op.kind == OpKind::Register {
        wrote(l, m, s, op.register, v)
    } else {
        stored(l, m, s, address(l, s, instr), memory_width(instr.memory.size), v)
    }
}

/// The operand can be written, and the registers of its address have been seen.
pub open spec fn writable(l: Lift, instr: Instr, n: int) -> bool {
    &&& tidy(l)
    &&& instr.operand(n).kind == OpKind::Register || instr.operand(n).kind == OpKind::Memory
        && placed(l, instr)
}

pub(crate) proof fn lemma_low(v: int, w: Width)
    ensures
        0 <= low(v, w) < span(w),
        0 <= v < span(w) ==> low(v, w) == v,
        low(low(v, w), w) == low(v, w),
{
}

pub(crate) proof fn lemma_low_low(v: int, a: Width, b: Width)
    requires
        span(b) <= span(a),
    ensures
        low(low(v, a), b) == low(v, b),
{
    let k: int = match (a, b) {
        (Width::W16, Width::W8) => 0x100,
        (Width::W32, Width::W8) => 0x100_0000,
        (Width::W32, Width::W16) => 0x1_0000,
        (Width::W64, Width::W8) => 0x100_0000_0000_0000,
        (Width::W64, Width::W16) => 0x1_0000_0000_0000,
        (Width::W64, Width::W32) => 0x1_0000_0000,
        _ => 1,
    };
    assert(span(b) * k == span(a)) by {
        match b {
            Width::W8 => {},
            Width::W16 => {},
            Width::W32 => {},
            Width::W64 => {},
        }
    }
    lemma_mod_mod(v, span(b), k);
}

pub(crate) proof fn lemma_range(e: Expr, s: World)
    ensures
        0 <= eval(e, s) < span(e.value_width()),
{
}

/// An expression has the same value where its registers and the memory have.
pub(crate) proof fn lemma_same(e: Expr, s: World, t: World, n: nat)
    requires
        below(regs_of(e), n),
        s.mem == t.mem,
        forall|v: u32| v < n ==> #[trigger] s.regs[v] == t.regs[v],
    ensures
        eval(e, s) == eval(e, t),
    decreases e,
{
    match e {
        Expr::Reg(r, _) => {
            assert(regs_of(e).contains(r.0));
        },
        Expr::BinOp(_, a, b) => {
            assert forall|r: u32| #[trigger] regs_of(*a).contains(r) implies r < n by {
                assert(regs_of(e).contains(r));
            }
            assert forall|r: u32| #[trigger] regs_of(*b).contains(r) implies r < n by {
                assert(regs_of(e).contains(r));
            }
            lemma_same(*a, s, t, n);
            lemma_same(*b, s, t, n);
        },
        Expr::UnOp(_, inner) => {
            lemma_same(*inner, s, t, n);
        },
        Expr::Load(addr, _) => {
            lemma_same(*addr, s, t, n);
        },
        _ => {},
    }
}

pub(crate) proof fn lemma_push(l: Lift, stmt: StmtModel, s: World)
    ensures
        at(l.push(stmt), s) == step(at(l, s), stmt),
{
    assert(l.out.push(stmt).drop_last() =~= l.out);
}

pub(crate) proof fn lemma_assign(l: Lift, e: Expr, s: World)
    requires
        l.next < 0x1_0000_0000,
    ensures
        quiet(l, l.assign(e), s),
        l.assign(e).next == l.next + 1,
        l.vreg().0 == l.next,
        at(l.assign(e), s).regs[l.vreg().0] == eval(e, at(l, s)),
{
    lemma_push(l.took(), StmtModel::Assign(l.vreg(), e), s);
}

pub(crate) proof fn lemma_quiet_trans(a: Lift, b: Lift, c: Lift, s: World)
    requires
        quiet(a, b, s),
        quiet(b, c, s),
    ensures
        quiet(a, c, s),
{
    assert forall|v: u32| v < a.next implies #[trigger] at(c, s).regs[v] == at(a, s).regs[v] by {
        assert(at(b, s).regs[v] == at(a, s).regs[v]);
    }
}

/// After quiet statements an expression still has its value.
pub(crate) proof fn lemma_quiet_eval(l: Lift, m: Lift, s: World, e: Expr)
    requires
        quiet(l, m, s),
        below(regs_of(e), l.next),
    ensures
        eval(e, at(m, s)) == eval(e, at(l, s)),
        below(regs_of(e), m.next),
{
    lemma_same(e, at(m, s), at(l, s), l.next);
}

/// After quiet statements the operands still have their values.
pub(crate) proof fn lemma_quiet_value(l: Lift, m: Lift, s: World, instr: Instr, n: int)
    requires
        quiet(l, m, s),
        tidy(l),
    ensures
        readable(l, instr, n) ==> value(m, s, instr, n) == value(l, s, instr, n),
        placed(l, instr) ==> address(m, s, instr) == address(l, s, instr),
        operand_width(m, instr, n) == operand_width(l, instr, n),
        forall|r: Register| bound(l, r) ==> #[trigger] content(m, s, r) == content(l, s, r),
{
    assert forall|r: Register| bound(l, r) implies #[trigger] content(m, s, r) == content(
        l,
        s,
        r,
    ) by {
        let k = canonical(r).number();
        assert(l.regs.contains_key(k));
        assert(at(m, s).regs[l.regs[k]] == at(l, s).regs[l.regs[k]]);
    }
    if placed(l, instr) {
        assert(part(m, s, instr, instr.memory.base) == part(l, s, instr, instr.memory.base));
        assert(scaled(m, s, instr) == scaled(l, s, instr));
    }
}

} // verus!

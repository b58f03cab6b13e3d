//! From instructions to the intermediate representation.
use std::collections::HashMap;

use vstd::prelude::*;

use super::meaning::{
    all_closed, arg_reg, begins, block_starts, closed, comparison, ends_block, entered,
    first_group, fits, frame_of, fresh_lift, immediate_of, is_arg, is_wide_branch, last_group,
    lemma_block_starts, lifted, numbered, place, signed64, signed8, size_width, stack_change,
    stack_depth, Grouping, Lift,
};
use super::single::{lemma_instr_grows, lemma_next_grows};
use super::{
    blocks_model, stmts_model, BasicBlock, BinOp, BlockModel, Expr, IrFunction, Stmt, StmtModel,
    UnOp, VReg, Width,
};
use crate::binary::Arch;
use crate::disasm::kinds::{
    canonical_reg, is_conditional_branch, is_return, is_unconditional_branch, reg_size,
};
use crate::disasm::model::ItemModel;
use crate::disasm::{items_model, DisasmFunction};
use crate::sorted::{ascending, insert_key, lemma_slot, slot};
use crate::x86::{Instr, MemorySize, Mnemonic, OpKind, Operand, Register};

verus! {

broadcast use vstd::std_specs::hash::group_hash_axioms;

pub struct Lifter {
    arch: Arch,
    /// Number of the next register; a lifter whose numbers run out counts on
    vreg_ctr: u128,
    /// Number of an x86 register → register holding its current value
    reg_map: HashMap<u16, u32>,
    /// Result and operands of the last comparison
    last_comparison: Option<(Expr, Expr, Expr)>,
    /// Map from instruction address → basic block id
    addr_to_block: HashMap<u64, u32>,
    /// track set of parameters
    param_regs_used: Vec<u16>,
}

/// The number as a signed one, in two's complement.
fn to_signed(v: u64) -> (s: i64)
    ensures
        s == signed64(v),
{
    if v < 0x8000_0000_0000_0000 {
        v as i64
    } else {
        -((0xffff_ffff_ffff_ffff - v) as i64) - 1
    }
}

/// The lowest byte as a signed number, in two's complement.
fn byte_to_signed(v: u64) -> (s: i64)
    ensures
        s == signed8(v),
{
    let b: u64 = v % 256;
    if b < 128 {
        b as i64
    } else {
        b as i64 - 256
    }
}

fn mem_size_to_width(ms: MemorySize) -> (w: Width)
    ensures
        w == size_width(ms),
{
    match ms {
        MemorySize::UInt8 | MemorySize::Int8 => Width::W8,
        MemorySize::UInt16 | MemorySize::Int16 | MemorySize::WordOffset => Width::W16,
        MemorySize::UInt32 | MemorySize::Int32 | MemorySize::DwordOffset => Width::W32,
        MemorySize::Other(_) => Width::W64,
    }
}

/// The registers that carry the first six arguments, in order.
fn sysv_arg(i: usize) -> (r: Register)
    ensures
        r == arg_reg(i as int),
{
    match i {
        0 => Register::RDI,
        1 => Register::RSI,
        2 => Register::RDX,
        3 => Register::RCX,
        4 => Register::R8,
        _ => Register::R9,
    }
}

fn carries_arg(r: Register) -> (yes: bool)
    ensures
        yes == is_arg(r),
{
    matches!(
        r,
        Register::RDI
        | Register::RSI
        | Register::RDX
        | Register::RCX
        | Register::R8
        | Register::R9
    )
}

fn wide_branch(kind: OpKind) -> (yes: bool)
    ensures
        yes == is_wide_branch(kind),
{
    matches!(kind, OpKind::NearBranch32 | OpKind::NearBranch64)
}

fn is_register(kind: OpKind) -> (yes: bool)
    ensures
        yes == (kind == OpKind::Register),
{
    matches!(kind, OpKind::Register)
}

/// The comparison that a set or branch instruction makes of the operands of the last comparison,
/// and whether they are exchanged.
fn comparison_of(m: Mnemonic) -> (c: (BinOp, bool))
    ensures
        c == comparison(m),
{
    match m {
        Mnemonic::Sete | Mnemonic::Je | Mnemonic::Loope => (BinOp::Eq, false),
        Mnemonic::Setne | Mnemonic::Jne | Mnemonic::Loopne => (BinOp::Ne, false),
        Mnemonic::Setl | Mnemonic::Jl => (BinOp::Slt, false),
        Mnemonic::Setle | Mnemonic::Jle => (BinOp::Sle, false),
        Mnemonic::Setg | Mnemonic::Jg => (BinOp::Slt, true),
        Mnemonic::Setge | Mnemonic::Jge => (BinOp::Sle, true),
        Mnemonic::Setb | Mnemonic::Jb => (BinOp::Ult, false),
        Mnemonic::Setbe | Mnemonic::Jbe => (BinOp::Ule, false),
        Mnemonic::Seta | Mnemonic::Ja => (BinOp::Ult, true),
        Mnemonic::Setae | Mnemonic::Jae => (BinOp::Ule, true),
        _ => (BinOp::Ne, false),
    }
}

fn listed(list: &Vec<u16>, x: u16) -> (yes: bool)
    ensures
        yes == list@.contains(x),
{
    let n = list.len();
    let mut i: usize = 0;
    while i < n
        invariant
            i <= n,
            n == list@.len(),
            forall|j: int| 0 <= j < i ==> list@[j] != x,
        decreases n - i,
    {
        if list[i] == x {
            assert(list@[i as int] == x);
            return true;
        }
        i = i + 1;
    }
    false
}

/// Adds a statement.
fn emit(stmts: &mut Vec<Stmt>, s: Stmt)
    ensures
        stmts_model(final(stmts)@) == stmts_model(old(stmts)@).push(s@),
{
    let ghost before = stmts@;
    stmts.push(s);
    assert(stmts_model(stmts@) =~= stmts_model(before).push(s@));
}

impl Lifter {
    /// How far the lifting has come, with the statements of the current block.
    pub closed spec fn at(self, out: Seq<Stmt>) -> Lift {
        Lift {
            arch: self.arch,
            next: self.vreg_ctr as nat,
            regs: self.reg_map@,
            flags: self.last_comparison,
            params: self.param_regs_used@,
            blocks: self.addr_to_block@,
            out: stmts_model(out),
        }
    }

    /// How far the lifting has come.
    pub open spec fn state(self) -> Lift {
        self.at(Seq::empty())
    }

    /// The counter has room for `n` more registers.
    pub open spec fn room(self, n: int) -> bool {
        self.state().next + n <= u128::MAX
    }

    /// Since `before` no more than `n` registers have been taken, and the blocks are the same.
    pub open spec fn took_at_most(self, before: Self, n: int) -> bool {
        self.state().next <= before.state().next + n && self.state().blocks
            == before.state().blocks
    }

    pub fn new(arch: Arch) -> (lifter: Self)
        ensures
            lifter.state() == fresh_lift(arch),
    {
        let lifter = Self {
            arch,
            vreg_ctr: 0,
            reg_map: HashMap::new(),
            last_comparison: None,
            addr_to_block: HashMap::new(),
            param_regs_used: Vec::new(),
        };
        assert(lifter.state() =~= fresh_lift(arch));
        lifter
    }

    fn fresh_vreg(&mut self, stmts: &Vec<Stmt>) -> (v: VReg)
        requires
            old(self).room(1),
        ensures
            v == old(self).at(stmts@).vreg(),
            final(self).at(stmts@) == old(self).at(stmts@).took(),
            final(self).took_at_most(*old(self), 1),
    {
        let v = VReg(self.vreg_ctr as u32);
        self.vreg_ctr = self.vreg_ctr + 1;
        v
    }

    /// Gives the next register a value.
    fn assign(&mut self, e: Expr, stmts: &mut Vec<Stmt>) -> (v: VReg)
        requires
            old(self).room(1),
        ensures
            v == old(self).at(old(stmts)@).vreg(),
            final(self).at(final(stmts)@) == old(self).at(old(stmts)@).assign(e),
            final(self).took_at_most(*old(self), 1),
    {
        let v = self.fresh_vreg(stmts);
        emit(stmts, Stmt::Assign(v, e));
        v
    }

    fn width_for_arch(&self) -> (w: Width)
        ensures
            w == self.state().w(),
            forall|out: Seq<Stmt>| w == #[trigger] self.at(out).w(),
    {
        match self.arch {
            Arch::X86 => Width::W32,
            Arch::X86_64 => Width::W64,
        }
    }

    /// The number of bytes of a register in full width.
    fn word(&self) -> (n: i64)
        ensures
            forall|out: Seq<Stmt>| n == #[trigger] self.at(out).word(),
    {
        match self.arch {
            Arch::X86 => 4,
            Arch::X86_64 => 8,
        }
    }

    /// The machine register has a new value.
    fn bind(&mut self, r: Register, v: VReg)
        ensures
            forall|out: Seq<Stmt>| #[trigger]
                final(self).at(out) == old(self).at(out).bind(r, v),
            final(self).took_at_most(*old(self), 0),
    {
        self.reg_map.insert(r.code(), v.0);
    }

    /// Return a VReg representing the current value of `reg` (canonical form).
    /// Creates a new param VReg if not seen yet.
    pub fn read_reg(&mut self, reg: Register, width: Width, stmts: &mut Vec<Stmt>) -> (e: Expr)
        requires
            old(self).room(2),
        ensures
            (final(self).at(final(stmts)@), e) == old(self).at(old(stmts)@).read_reg(reg, width),
            final(self).took_at_most(*old(self), 2),
            width == old(self).state().w() ==> final(self).took_at_most(*old(self), 1),
    {
        let ghost before = self.at(stmts@);
        let canon = canonical_reg(reg);
        let key = canon.code();
        let full_w = self.width_for_arch();
        let vr = match self.reg_map.get(&key) {
            Some(v) => VReg(*v),
            None => {
                let v = self.fresh_vreg(stmts);
                self.reg_map.insert(key, v.0);
                if carries_arg(canon) && !listed(&self.param_regs_used, key) {
                    self.param_regs_used.push(key);
                }
                v
            },
        };
        assert(self.at(stmts@) =~= before.seen(reg));
        if width == full_w || width == Width::W64 {
            return Expr::Reg(vr, width);
        }
        // narrow if needed
        let trunc = self.assign(
            Expr::UnOp(UnOp::Trunc(width), Box::new(Expr::Reg(vr, full_w))),
            stmts,
        );
        Expr::Reg(trunc, width)
    }

    /// Gives `reg` (canonical form) a new value.
    pub fn write_reg(&mut self, reg: Register, val: Expr, stmts: &mut Vec<Stmt>)
        requires
            old(self).room(2),
        ensures
            final(self).at(final(stmts)@) == old(self).at(old(stmts)@).write_reg(reg, val),
            final(self).took_at_most(*old(self), 2),
    {
        let canon = canonical_reg(reg);
        let w = self.width_for_arch();
        // For partial writes we zero-extend/sign-extend to full width
        let full_val = match val.width() {
            Width::W64 => val,
            Width::W32 => {
                // x86-64: writing 32-bit register zero-extends to 64-bit
                let zext_v = self.assign(
                    Expr::UnOp(UnOp::ZExt(Width::W64), Box::new(val)),
                    stmts,
                );
                Expr::Reg(zext_v, Width::W64)
            },
            _ => {
                let zext_v = self.assign(Expr::UnOp(UnOp::ZExt(w), Box::new(val)), stmts);
                Expr::Reg(zext_v, w)
            },
        };
        let vr = self.assign(full_val, stmts);
        self.bind(canon, vr);
    }

    /// The sum of what there is and one more part.
    fn plus(&mut self, sum: Option<Expr>, part: Expr, stmts: &mut Vec<Stmt>) -> (e: Expr)
        requires
            old(self).room(1),
        ensures
            (final(self).at(final(stmts)@), e) == old(self).at(old(stmts)@).plus(sum, part),
            final(self).took_at_most(*old(self), 1),
    {
        let w = self.width_for_arch();
        match sum {
            Some(a) => {
                let av = self.assign(
                    Expr::BinOp(BinOp::Add, Box::new(a), Box::new(part)),
                    stmts,
                );
                Expr::Reg(av, w)
            },
            None => part,
        }
    }

    fn mem_base(&mut self, instr: &Instr, stmts: &mut Vec<Stmt>) -> (e: Option<Expr>)
        requires
            old(self).room(2),
        ensures
            (final(self).at(final(stmts)@), e) == old(self).at(old(stmts)@).mem_base(*instr),
            final(self).took_at_most(*old(self), 1),
    {
        let w = self.width_for_arch();
        match instr.memory.base {
            Register::NoRegister => None,
            Register::RIP | Register::EIP => Some(Expr::Const(to_signed(instr.next_ip), w)),
            base => Some(self.read_reg(base, w, stmts)),
        }
    }

    fn mem_index(&mut self, instr: &Instr, stmts: &mut Vec<Stmt>) -> (e: Expr)
        requires
            old(self).room(3),
        ensures
            (final(self).at(final(stmts)@), e) == old(self).at(old(stmts)@).mem_index(*instr),
            final(self).took_at_most(*old(self), 2),
    {
        let w = self.width_for_arch();
        let iv = self.read_reg(instr.memory.index, w, stmts);
        if instr.memory.scale > 1 {
            let sv = self.assign(
                Expr::BinOp(
                    BinOp::Mul,
                    Box::new(iv),
                    Box::new(Expr::Const(instr.memory.scale as i64, w)),
                ),
                stmts,
            );
            Expr::Reg(sv, w)
        } else {
            iv
        }
    }

    fn mem_addr(&mut self, instr: &Instr, stmts: &mut Vec<Stmt>) -> (e: Expr)
        requires
            old(self).room(6),
        ensures
            (final(self).at(final(stmts)@), e) == old(self).at(old(stmts)@).mem_addr(*instr),
            final(self).took_at_most(*old(self), 5),
    {
        let w = self.width_for_arch();
        let base = self.mem_base(instr, stmts);
        let sum = match instr.memory.index {
            Register::NoRegister => base,
            _ => {
                let scaled = self.mem_index(instr, stmts);
                Some(self.plus(base, scaled, stmts))
            },
        };
        let disp = Expr::Const(to_signed(instr.memory.displacement), w);
        match sum {
            Some(a) => if instr.memory.displacement != 0 {
                self.plus(Some(a), disp, stmts)
            } else {
                a
            },
            None => disp,
        }
    }

    fn get_operand(&mut self, instr: &Instr, n: u32, stmts: &mut Vec<Stmt>) -> (e: Expr)
        requires
            n < 3,
            old(self).room(6),
        ensures
            (final(self).at(final(stmts)@), e) == old(self).at(old(stmts)@).operand(
                *instr,
                n as int,
            ),
            final(self).took_at_most(*old(self), 5),
    {
        let op = instr.op(n);
        match op.kind {
            OpKind::Register => {
                let w = Width::from_bits(reg_size(op.register));
                self.read_reg(op.register, w, stmts)
            },
            OpKind::Immediate8 | OpKind::Immediate8Second => Expr::Const(
                byte_to_signed(op.immediate),
                Width::W8,
            ),
            OpKind::Immediate16 | OpKind::Immediate8to16 => Expr::Const(
                to_signed(op.immediate),
                Width::W16,
            ),
            OpKind::Immediate32 | OpKind::Immediate8to32 => Expr::Const(
                to_signed(op.immediate),
                Width::W32,
            ),
            OpKind::Immediate64 | OpKind::Immediate8to64 | OpKind::Immediate32to64 => Expr::Const(
                to_signed(op.immediate),
                Width::W64,
            ),
            OpKind::Memory => {
                let width = mem_size_to_width(instr.memory.size);
                let addr = self.mem_addr(instr, stmts);
                Expr::Load(Box::new(addr), width)
            },
            OpKind::NearBranch32 | OpKind::NearBranch64 => Expr::Addr(instr.near_branch_target),
            _ => {
                let w = self.width_for_arch();
                Expr::Const(0, w)
            },
        }
    }

    fn set_operand(&mut self, instr: &Instr, n: u32, val: Expr, stmts: &mut Vec<Stmt>)
        requires
            n < 3,
            old(self).room(6),
        ensures
            final(self).at(final(stmts)@) == old(self).at(old(stmts)@).set_operand(
                *instr,
                n as int,
                val,
            ),
            final(self).took_at_most(*old(self), 5),
    {
        let op = instr.op(n);
        match op.kind {
            OpKind::Register => self.write_reg(op.register, val, stmts),
            OpKind::Memory => {
                let width = mem_size_to_width(instr.memory.size);
                let addr = self.mem_addr(instr, stmts);
                emit(stmts, Stmt::Store { addr, val, width });
            },
            _ => {
                let mut text = "cannot write to op kind ".to_string();
                text.append(op.kind.to_text().as_str());
                emit(stmts, Stmt::Unhandled(text));
            },
        }
    }

    fn lift_copy(&mut self, instr: &Instr, stmts: &mut Vec<Stmt>)
        requires
            old(self).room(12),
        ensures
            final(self).at(final(stmts)@) == old(self).at(old(stmts)@).copies(*instr),
            final(self).took_at_most(*old(self), 10),
    {
        reveal(Lift::copies);
        let src = self.get_operand(instr, 1, stmts);
        self.set_operand(instr, 0, src, stmts);
    }

    fn lift_extend(&mut self, instr: &Instr, signed: bool, stmts: &mut Vec<Stmt>)
        requires
            old(self).room(13),
        ensures
            final(self).at(final(stmts)@) == old(self).at(old(stmts)@).extends(*instr, signed),
            final(self).took_at_most(*old(self), 11),
    {
        reveal(Lift::extends);
        let w = self.width_for_arch();
        let src = self.get_operand(instr, 1, stmts);
        let dst_w = if is_register(instr.op0.kind) {
            Width::from_bits(reg_size(instr.op0.register))
        } else {
            w
        };
        let op = if signed {
            UnOp::SExt(dst_w)
        } else {
            UnOp::ZExt(dst_w)
        };
        let v = self.assign(Expr::UnOp(op, Box::new(src)), stmts);
        self.set_operand(instr, 0, Expr::Reg(v, dst_w), stmts);
    }

    fn lift_xchg(&mut self, instr: &Instr, stmts: &mut Vec<Stmt>)
        requires
            old(self).room(24),
        ensures
            final(self).at(final(stmts)@) == old(self).at(old(stmts)@).exchanges(*instr),
            final(self).took_at_most(*old(self), 20),
    {
        reveal(Lift::exchanges);
        let a = self.get_operand(instr, 0, stmts);
        let b = self.get_operand(instr, 1, stmts);
        self.set_operand(instr, 0, b, stmts);
        self.set_operand(instr, 1, a, stmts);
    }

    fn lift_lea(&mut self, instr: &Instr, stmts: &mut Vec<Stmt>)
        requires
            old(self).room(12),
        ensures
            final(self).at(final(stmts)@) == old(self).at(old(stmts)@).loads_address(*instr),
            final(self).took_at_most(*old(self), 10),
    {
        reveal(Lift::loads_address);
        let addr = self.mem_addr(instr, stmts);
        self.set_operand(instr, 0, addr, stmts);
    }

    fn lift_push(&mut self, instr: &Instr, stmts: &mut Vec<Stmt>)
        requires
            old(self).room(9),
        ensures
            final(self).at(final(stmts)@) == old(self).at(old(stmts)@).pushes(*instr),
            final(self).took_at_most(*old(self), 8),
    {
        reveal(Lift::pushes);
        let w = self.width_for_arch();
        let sz = self.word();
        let val = self.get_operand(instr, 0, stmts);
        // RSP -= size
        let rsp = self.read_reg(Register::RSP, w, stmts);
        let new_rsp = self.assign(
            Expr::BinOp(BinOp::Sub, Box::new(rsp), Box::new(Expr::Const(sz, w))),
            stmts,
        );
        self.bind(Register::RSP, new_rsp);
        emit(stmts, Stmt::Store { addr: Expr::Reg(new_rsp, w), val, width: w });
    }

    fn lift_pop(&mut self, instr: &Instr, stmts: &mut Vec<Stmt>)
        requires
            old(self).room(12),
        ensures
            final(self).at(final(stmts)@) == old(self).at(old(stmts)@).pops(*instr),
            final(self).took_at_most(*old(self), 11),
    {
        reveal(Lift::pops);
        let w = self.width_for_arch();
        let sz = self.word();
        let rsp = self.read_reg(Register::RSP, w, stmts);
        let loaded = self.assign(Expr::Load(Box::new(rsp), w), stmts);
        self.set_operand(instr, 0, Expr::Reg(loaded, w), stmts);
        // RSP += size
        let rsp2 = self.read_reg(Register::RSP, w, stmts);
        let new_rsp = self.assign(
            Expr::BinOp(BinOp::Add, Box::new(rsp2), Box::new(Expr::Const(sz, w))),
            stmts,
        );
        self.bind(Register::RSP, new_rsp);
    }

    fn lift_binop(&mut self, instr: &Instr, op: BinOp, stmts: &mut Vec<Stmt>)
        requires
            old(self).room(18),
        ensures
            final(self).at(final(stmts)@) == old(self).at(old(stmts)@).combines(*instr, op),
            final(self).took_at_most(*old(self), 16),
    {
        reveal(Lift::combines);
        let w = self.width_for_arch();
        let a = self.get_operand(instr, 0, stmts);
        let b = self.get_operand(instr, 1, stmts);
        let r = self.assign(Expr::BinOp(op, Box::new(a), Box::new(b)), stmts);
        self.set_operand(instr, 0, Expr::Reg(r, w), stmts);
    }

    fn lift_imul3(&mut self, instr: &Instr, stmts: &mut Vec<Stmt>)
        requires
            old(self).room(18),
        ensures
            final(self).at(final(stmts)@) == old(self).at(old(stmts)@).multiplies(*instr),
            final(self).took_at_most(*old(self), 16),
    {
        reveal(Lift::multiplies);
        let w = self.width_for_arch();
        let a = self.get_operand(instr, 1, stmts);
        let b = self.get_operand(instr, 2, stmts);
        let r = self.assign(Expr::BinOp(BinOp::Mul, Box::new(a), Box::new(b)), stmts);
        self.set_operand(instr, 0, Expr::Reg(r, w), stmts);
    }

    /// 1-operand form: rdx:rax = rax * src
    fn lift_mul(&mut self, instr: &Instr, stmts: &mut Vec<Stmt>)
        requires
            old(self).room(12),
        ensures
            final(self).at(final(stmts)@) == old(self).at(old(stmts)@).multiplies_rax(*instr),
            final(self).took_at_most(*old(self), 10),
    {
        reveal(Lift::multiplies_rax);
        let w = self.width_for_arch();
        let src = self.get_operand(instr, 0, stmts);
        let rax = self.read_reg(Register::RAX, w, stmts);
        let r = self.assign(Expr::BinOp(BinOp::Mul, Box::new(rax), Box::new(src)), stmts);
        self.write_reg(Register::RAX, Expr::Reg(r, w), stmts);
    }

    fn lift_div(&mut self, instr: &Instr, quot: BinOp, rest: BinOp, stmts: &mut Vec<Stmt>)
        requires
            old(self).room(15),
        ensures
            final(self).at(final(stmts)@) == old(self).at(old(stmts)@).divides(
                *instr,
                quot,
                rest,
            ),
            final(self).took_at_most(*old(self), 13),
    {
        reveal(Lift::divides);
        let w = self.width_for_arch();
        let src = self.get_operand(instr, 0, stmts);
        let rax = self.read_reg(Register::RAX, w, stmts);
        let q = self.fresh_vreg(stmts);
        let rem = self.fresh_vreg(stmts);
        emit(
            stmts,
            Stmt::Assign(q, Expr::BinOp(quot, Box::new(rax.clone()), Box::new(src.clone()))),
        );
        emit(stmts, Stmt::Assign(rem, Expr::BinOp(rest, Box::new(rax), Box::new(src))));
        self.write_reg(Register::RAX, Expr::Reg(q, w), stmts);
        self.write_reg(Register::RDX, Expr::Reg(rem, w), stmts);
    }

    /// Increment and decrement.
    fn lift_step(&mut self, instr: &Instr, op: BinOp, stmts: &mut Vec<Stmt>)
        requires
            old(self).room(12),
        ensures
            final(self).at(final(stmts)@) == old(self).at(old(stmts)@).steps(*instr, op),
            final(self).took_at_most(*old(self), 11),
    {
        reveal(Lift::steps);
        let w = self.width_for_arch();
        let dst = self.get_operand(instr, 0, stmts);
        let r = self.assign(
            Expr::BinOp(op, Box::new(dst), Box::new(Expr::Const(1, w))),
            stmts,
        );
        self.set_operand(instr, 0, Expr::Reg(r, w), stmts);
    }

    fn lift_unop(&mut self, instr: &Instr, op: UnOp, stmts: &mut Vec<Stmt>)
        requires
            old(self).room(12),
        ensures
            final(self).at(final(stmts)@) == old(self).at(old(stmts)@).applies(*instr, op),
            final(self).took_at_most(*old(self), 11),
    {
        reveal(Lift::applies);
        let w = self.width_for_arch();
        let src = self.get_operand(instr, 0, stmts);
        let r = self.assign(Expr::UnOp(op, Box::new(src)), stmts);
        self.set_operand(instr, 0, Expr::Reg(r, w), stmts);
    }

    fn lift_xor(&mut self, instr: &Instr, stmts: &mut Vec<Stmt>)
        requires
            old(self).room(18),
        ensures
            final(self).at(final(stmts)@) == old(self).at(old(stmts)@).excludes(*instr),
            final(self).took_at_most(*old(self), 16),
    {
        reveal(Lift::excludes);
        let w = self.width_for_arch();
        // xor reg, reg => reg = 0 (common idiom)
        if instr.op0.register == instr.op1.register && is_register(instr.op0.kind) && is_register(
            instr.op1.kind,
        ) {
            self.set_operand(instr, 0, Expr::Const(0, w), stmts);
        } else {
            self.lift_binop(instr, BinOp::Xor, stmts);
        }
    }

    /// What is loaded from memory gets a register.
    fn latch(&mut self, e: Expr, stmts: &mut Vec<Stmt>) -> (value: Expr)
        requires
            old(self).room(1),
        ensures
            (final(self).at(final(stmts)@), value) == old(self).at(old(stmts)@).latched(e),
            final(self).took_at_most(*old(self), 1),
    {
        match e {
            Expr::Load(addr, width) => {
                let v = self.assign(Expr::Load(addr, width), stmts);
                Expr::Reg(v, width)
            },
            _ => e,
        }
    }

    fn lift_cmp(&mut self, instr: &Instr, stmts: &mut Vec<Stmt>)
        requires
            old(self).room(16),
        ensures
            final(self).at(final(stmts)@) == old(self).at(old(stmts)@).compares(*instr),
            final(self).took_at_most(*old(self), 13),
    {
        reveal(Lift::compares);
        let a = self.get_operand(instr, 0, stmts);
        let b = self.get_operand(instr, 1, stmts);
        let l = self.latch(a, stmts);
        let r = self.latch(b, stmts);
        let w = self.width_for_arch();
        let sub = self.assign(
            Expr::BinOp(BinOp::Sub, Box::new(l.clone()), Box::new(r.clone())),
            stmts,
        );
        self.last_comparison = Some((Expr::Reg(sub, w), l, r));
    }

    fn lift_test(&mut self, instr: &Instr, stmts: &mut Vec<Stmt>)
        requires
            old(self).room(12),
        ensures
            final(self).at(final(stmts)@) == old(self).at(old(stmts)@).tests(*instr),
            final(self).took_at_most(*old(self), 11),
    {
        reveal(Lift::tests);
        let a = self.get_operand(instr, 0, stmts);
        let b = self.get_operand(instr, 1, stmts);
        let w = self.width_for_arch();
        let and = self.assign(Expr::BinOp(BinOp::And, Box::new(a), Box::new(b)), stmts);
        self.last_comparison = Some((Expr::Reg(and, w), Expr::Reg(and, w), Expr::Const(0, w)));
    }

    fn last_result(&self) -> (e: Expr)
        ensures
            forall|out: Seq<Stmt>| e == #[trigger] self.at(out).last_result(),
    {
        match &self.last_comparison {
            Some((result, _, _)) => result.clone(),
            None => Expr::Const(0, self.width_for_arch()),
        }
    }

    /// Get the two operands from the last CMP/TEST
    fn get_cmp_operands(&self) -> (operands: (Expr, Expr))
        ensures
            forall|out: Seq<Stmt>| operands == #[trigger] self.at(out).cmp_operands(),
    {
        match &self.last_comparison {
            Some((_, l, r)) => (l.clone(), r.clone()),
            None => {
                let w = self.width_for_arch();
                (Expr::Const(0, w), Expr::Const(0, w))
            },
        }
    }

    /// The comparison of the operands of the last comparison.
    fn compared(&self, op: BinOp, swap: bool) -> (e: Expr)
        ensures
            forall|out: Seq<Stmt>| e == #[trigger] self.at(out).compared(op, swap),
    {
        let (l, r) = self.get_cmp_operands();
        assert forall|out: Seq<Stmt>| (l, r) == #[trigger] self.at(out).cmp_operands() by {}
        if swap {
            Expr::BinOp(op, Box::new(r), Box::new(l))
        } else {
            Expr::BinOp(op, Box::new(l), Box::new(r))
        }
    }

    fn lift_setcc(&mut self, instr: &Instr, op: BinOp, swap: bool, stmts: &mut Vec<Stmt>)
        requires
            old(self).room(8),
        ensures
            final(self).at(final(stmts)@) == old(self).at(old(stmts)@).sets(*instr, op, swap),
            final(self).took_at_most(*old(self), 7),
    {
        reveal(Lift::sets);
        let e = self.compared(op, swap);
        let r = self.assign(e, stmts);
        let zext = self.assign(
            Expr::UnOp(UnOp::ZExt(Width::W8), Box::new(Expr::Reg(r, Width::W8))),
            stmts,
        );
        self.set_operand(instr, 0, Expr::Reg(zext, Width::W8), stmts);
    }

    /// The values of the argument registers that have one.
    fn call_args(&self) -> (args: Vec<Expr>)
        ensures
            forall|out: Seq<Stmt>| args@ == #[trigger] self.at(out).call_args(6),
    {
        let w = self.width_for_arch();
        let mut args: Vec<Expr> = Vec::new();
        let ghost lift = self.state();
        let mut i: usize = 0;
        while i < 6
            invariant
                i <= 6,
                lift == self.state(),
                w == lift.w(),
                args@ == lift.call_args(i as int),
            decreases 6 - i,
        {
            let key = sysv_arg(i).code();
            if let Some(v) = self.reg_map.get(&key) {
                args.push(Expr::Reg(VReg(*v), w));
            }
            i = i + 1;
        }
        proof {
            assert forall|out: Seq<Stmt>| args@ == #[trigger] self.at(out).call_args(6) by {
                lemma_args_same(lift, self.at(out), 6);
            }
        }
        args
    }

    fn lift_call(&mut self, instr: &Instr, stmts: &mut Vec<Stmt>)
        requires
            old(self).room(9),
        ensures
            final(self).at(final(stmts)@) == old(self).at(old(stmts)@).calls(*instr),
            final(self).took_at_most(*old(self), 8),
    {
        reveal(Lift::calls);
        let w = self.width_for_arch();
        let func = self.get_operand(instr, 0, stmts);
        // Build argument list from SysV ABI
        let args = self.call_args();
        let dst = self.fresh_vreg(stmts);
        let call = Stmt::Call { dst: Some(dst), func, args };
        emit(stmts, call);
        self.write_reg(Register::RAX, Expr::Reg(dst, w), stmts);
    }

    fn lift_ret(&mut self, stmts: &mut Vec<Stmt>)
        ensures
            final(self).at(final(stmts)@) == old(self).at(old(stmts)@).gives_back(),
            final(self).took_at_most(*old(self), 0),
    {
        reveal(Lift::gives_back);
        let w = self.width_for_arch();
        // Return rax if set
        let val = match self.reg_map.get(&Register::RAX.code()) {
            Some(v) => Some(Expr::Reg(VReg(*v), w)),
            None => None,
        };
        emit(stmts, Stmt::Return(val));
    }

    fn lift_jmp(&mut self, instr: &Instr, stmts: &mut Vec<Stmt>)
        requires
            old(self).room(6),
        ensures
            final(self).at(final(stmts)@) == old(self).at(old(stmts)@).jumps_on(*instr),
            final(self).took_at_most(*old(self), 5),
    {
        reveal(Lift::jumps_on);
        if wide_branch(instr.op0.kind) {
            let target = instr.near_branch_target;
            match self.addr_to_block.get(&target) {
                Some(id) => emit(stmts, Stmt::Jump(*id)),
                None => emit(stmts, Stmt::IndirectJump(Expr::Addr(target))),
            }
        } else {
            let e = self.get_operand(instr, 0, stmts);
            emit(stmts, Stmt::IndirectJump(e));
        }
    }

    fn build_branch_cond(&self, m: Mnemonic) -> (e: Expr)
        ensures
            forall|out: Seq<Stmt>| e == #[trigger] self.at(out).condition(m),
    {
        let lhs = self.last_result();
        assert forall|out: Seq<Stmt>| lhs == #[trigger] self.at(out).last_result() by {}
        let w = self.width_for_arch();
        match m {
            Mnemonic::Js => {
                Expr::BinOp(BinOp::Slt, Box::new(lhs), Box::new(Expr::Const(0, w)))
            },
            Mnemonic::Jns => {
                Expr::BinOp(BinOp::Sle, Box::new(Expr::Const(0, w)), Box::new(lhs))
            },
            _ => {
                let (op, swap) = comparison_of(m);
                let e = self.compared(op, swap);
                assert forall|out: Seq<Stmt>| e == #[trigger] self.at(out).compared(
                    op,
                    swap,
                ) by {}
                e
            },
        }
    }

    fn block_at(&self, addr: u64, otherwise: u32) -> (id: u32)
        ensures
            forall|out: Seq<Stmt>| id == #[trigger] self.at(out).block_at(addr, otherwise),
    {
        match self.addr_to_block.get(&addr) {
            Some(id) => *id,
            None => otherwise,
        }
    }

    fn lift_branch(&mut self, instr: &Instr, id: u32, stmts: &mut Vec<Stmt>)
        requires
            old(self).room(1),
            id < u32::MAX,
        ensures
            final(self).at(final(stmts)@) == old(self).at(old(stmts)@).branches_on(*instr, id),
            final(self).took_at_most(*old(self), 1),
    {
        reveal(Lift::branches_on);
        let e = self.build_branch_cond(instr.mnemonic);
        let true_id = self.block_at(instr.near_branch_target, 0);
        let false_id = self.block_at(instr.next_ip, id + 1);
        let v = self.assign(e, stmts);
        emit(stmts, Stmt::Branch { cond: Expr::Reg(v, Width::W8), true_id, false_id });
    }

    fn lift_sign(&mut self, stmts: &mut Vec<Stmt>)
        requires
            old(self).room(5),
        ensures
            final(self).at(final(stmts)@) == old(self).at(old(stmts)@).fills_sign(),
            final(self).took_at_most(*old(self), 5),
    {
        reveal(Lift::fills_sign);
        let w = self.width_for_arch();
        let bit: i64 = match self.arch {
            Arch::X86 => 31,
            Arch::X86_64 => 63,
        };
        // sign extend rax into rdx:rax
        let rax = self.read_reg(Register::RAX, w, stmts);
        let r = self.assign(
            Expr::BinOp(BinOp::AShr, Box::new(rax), Box::new(Expr::Const(bit, w))),
            stmts,
        );
        self.write_reg(Register::RDX, Expr::Reg(r, w), stmts);
    }

    fn lift_leave(&mut self, stmts: &mut Vec<Stmt>)
        requires
            old(self).room(10),
        ensures
            final(self).at(final(stmts)@) == old(self).at(old(stmts)@).leaves(),
            final(self).took_at_most(*old(self), 10),
    {
        reveal(Lift::leaves);
        let w = self.width_for_arch();
        let sz = self.word();
        // mov rsp, rbp; pop rbp
        let rbp = self.read_reg(Register::RBP, w, stmts);
        self.write_reg(Register::RSP, rbp, stmts);
        let rsp = self.read_reg(Register::RSP, w, stmts);
        let old_rbp = self.assign(Expr::Load(Box::new(rsp.clone()), w), stmts);
        self.write_reg(Register::RBP, Expr::Reg(old_rbp, w), stmts);
        let new_rsp = self.assign(
            Expr::BinOp(BinOp::Add, Box::new(rsp), Box::new(Expr::Const(sz, w))),
            stmts,
        );
        self.bind(Register::RSP, new_rsp);
    }

    fn lift_instr(&mut self, instr: &Instr, stmts: &mut Vec<Stmt>, block_id: u32)
        requires
            old(self).room(24),
            block_id < u32::MAX,
        ensures
            final(self).at(final(stmts)@) == old(self).at(old(stmts)@).instr(*instr, block_id),
            final(self).took_at_most(*old(self), 20),
    {
        match instr.mnemonic {
            Mnemonic::Nop | Mnemonic::Endbr32 | Mnemonic::Endbr64 => emit(stmts, Stmt::Nop),
            // A conditional move is taken as a move.
            Mnemonic::Mov
            | Mnemonic::Cmove
            | Mnemonic::Cmovne
            | Mnemonic::Cmovl
            | Mnemonic::Cmovle
            | Mnemonic::Cmovg
            | Mnemonic::Cmovge
            | Mnemonic::Cmovb
            | Mnemonic::Cmovbe
            | Mnemonic::Cmova
            | Mnemonic::Cmovae
            | Mnemonic::Cmovs
            | Mnemonic::Cmovns => self.lift_copy(instr, stmts),
            Mnemonic::Movsx | Mnemonic::Movsxd => self.lift_extend(instr, true, stmts),
            Mnemonic::Movzx => self.lift_extend(instr, false, stmts),
            Mnemonic::Xchg => self.lift_xchg(instr, stmts),
            Mnemonic::Lea => self.lift_lea(instr, stmts),
            Mnemonic::Push => self.lift_push(instr, stmts),
            Mnemonic::Pop => self.lift_pop(instr, stmts),
            Mnemonic::Add => self.lift_binop(instr, BinOp::Add, stmts),
            Mnemonic::Sub => self.lift_binop(instr, BinOp::Sub, stmts),
            Mnemonic::Imul => {
                if instr.op_count == 2 {
                    self.lift_binop(instr, BinOp::Mul, stmts);
                } else if instr.op_count == 3 {
                    self.lift_imul3(instr, stmts);
                } else {
                    self.lift_mul(instr, stmts);
                }
            },
            Mnemonic::Mul => self.lift_mul(instr, stmts),
            Mnemonic::Idiv => self.lift_div(instr, BinOp::SDiv, BinOp::SMod, stmts),
            Mnemonic::Div => self.lift_div(instr, BinOp::UDiv, BinOp::UMod, stmts),
            Mnemonic::Inc => self.lift_step(instr, BinOp::Add, stmts),
            Mnemonic::Dec => self.lift_step(instr, BinOp::Sub, stmts),
            Mnemonic::Neg => self.lift_unop(instr, UnOp::Neg, stmts),
            Mnemonic::Not => self.lift_unop(instr, UnOp::Not, stmts),
            Mnemonic::And => self.lift_binop(instr, BinOp::And, stmts),
            Mnemonic::Or => self.lift_binop(instr, BinOp::Or, stmts),
            Mnemonic::Xor => self.lift_xor(instr, stmts),
            Mnemonic::Shl | Mnemonic::Sal => self.lift_binop(instr, BinOp::Shl, stmts),
            Mnemonic::Shr => self.lift_binop(instr, BinOp::LShr, stmts),
            Mnemonic::Sar => self.lift_binop(instr, BinOp::AShr, stmts),
            Mnemonic::Cmp => self.lift_cmp(instr, stmts),
            Mnemonic::Test => self.lift_test(instr, stmts),
            Mnemonic::Sete
            | Mnemonic::Setne
            | Mnemonic::Setl
            | Mnemonic::Setle
            | Mnemonic::Setg
            | Mnemonic::Setge
            | Mnemonic::Setb
            | Mnemonic::Setbe
            | Mnemonic::Seta
            | Mnemonic::Setae => {
                let (op, swap) = comparison_of(instr.mnemonic);
                self.lift_setcc(instr, op, swap, stmts);
            },
            Mnemonic::Call => self.lift_call(instr, stmts),
            Mnemonic::Ret | Mnemonic::Retf => self.lift_ret(stmts),
            Mnemonic::Jmp => self.lift_jmp(instr, stmts),
            Mnemonic::Cdq | Mnemonic::Cqo => self.lift_sign(stmts),
            Mnemonic::Leave => self.lift_leave(stmts),
            m => {
                if is_conditional_branch(m) {
                    self.lift_branch(instr, block_id, stmts);
                } else {
                    emit(stmts, Stmt::Unhandled(m.to_text()));
                }
            },
        }
    }
}

fn ends_a_block(m: Mnemonic) -> (yes: bool)
    ensures
        yes == ends_block(m),
{
    is_conditional_branch(m) || is_unconditional_branch(m) || is_return(m)
}

/// The addresses at which the blocks of a function start, in ascending order.
fn find_block_starts(func: &DisasmFunction) -> (keys: Vec<u64>)
    ensures
        keys@ == block_starts(func.address, items_model(func.instrs@)),
        ascending(keys@),
{
    let ghost items = items_model(func.instrs@);
    let mut keys: Vec<u64> = Vec::new();
    keys.push(func.address);
    assert(keys@ =~= seq![func.address]);
    let n = func.instrs.len();
    let mut i: usize = 0;
    while i < n
        invariant
            i <= n,
            n == func.instrs@.len(),
            items == items_model(func.instrs@),
            ascending(keys@),
            keys@ == block_starts(func.address, items.take(i as int)),
        decreases n - i,
    {
        assert(items.take(i + 1).drop_last() =~= items.take(i as int));
        let instr = &func.instrs[i].instr;
        let m = instr.mnemonic;
        let first = i == 0 || ends_a_block(func.instrs[i - 1].instr.mnemonic);
        assert(first == begins(items.take(i + 1), i as int)) by {
            if i > 0 {
                assert(items.take(i + 1)[i - 1] == func.instrs@[i - 1]@);
            }
        }
        if first {
            insert_key(&mut keys, func.instrs[i].address);
        }
        if is_conditional_branch(m) {
            insert_key(&mut keys, instr.near_branch_target);
            insert_key(&mut keys, instr.next_ip);
        } else if is_unconditional_branch(m) {
            if wide_branch(instr.op0.kind) {
                insert_key(&mut keys, instr.near_branch_target);
            }
            insert_key(&mut keys, instr.next_ip);
        } else if is_return(m) {
            insert_key(&mut keys, instr.next_ip);
        }
        i = i + 1;
    }
    assert(items.take(n as int) =~= items);
    keys
}

/// Map address → block id
fn number_blocks(keys: &Vec<u64>) -> (ids: HashMap<u64, u32>)
    requires
        ascending(keys@),
        keys@.len() <= u32::MAX,
    ensures
        ids@ == numbered(keys@),
{
    let mut ids: HashMap<u64, u32> = HashMap::new();
    let n = keys.len();
    assert forall|a: u64| 0 <= #[trigger] slot(keys@, a) by {
        lemma_slot(keys@, a);
    }
    let mut i: usize = 0;
    while i < n
        invariant
            i <= n,
            n == keys@.len(),
            n <= u32::MAX,
            ascending(keys@),
            forall|a: u64| #[trigger]
                ids@.contains_key(a) <==> keys@.contains(a) && slot(keys@, a) < i,
            forall|a: u64| #[trigger] ids@.contains_key(a) ==> ids@[a] == slot(keys@, a) as u32,
        decreases n - i,
    {
        let a = keys[i];
        let ghost before = ids@;
        ids.insert(a, i as u32);
        proof {
            assert(keys@[i as int] == a);
            assert(keys@.contains(a));
            lemma_slot(keys@, a);
            let s = slot(keys@, a);
            if s < i {
                assert(keys@[s] < keys@[i as int]);
            }
            assert(s == i);
            assert forall|x: u64| #[trigger] ids@.contains_key(x) <==> keys@.contains(x) && slot(
                keys@,
                x,
            ) < i + 1 by {
                lemma_slot(keys@, x);
                if keys@.contains(x) && slot(keys@, x) == i {
                    assert(x == a);
                }
            }
        }
        i = i + 1;
    }
    proof {
        assert forall|a: u64| keys@.contains(a) implies slot(keys@, a) < n by {
            lemma_slot(keys@, a);
        }
        assert(ids@ =~= numbered(keys@));
    }
    ids
}

/// The value of an immediate operand.
fn immediate_value(op: &Operand) -> (v: Option<i64>)
    ensures
        match immediate_of(*op) {
            Some((n, _)) => v == Some(n as i64) && i64::MIN <= n <= i64::MAX,
            None => v is None,
        },
{
    match op.kind {
        OpKind::Immediate8 | OpKind::Immediate8Second => Some(byte_to_signed(op.immediate)),
        OpKind::Immediate16
        | OpKind::Immediate32
        | OpKind::Immediate64
        | OpKind::Immediate8to16
        | OpKind::Immediate8to32
        | OpKind::Immediate8to64
        | OpKind::Immediate32to64 => Some(to_signed(op.immediate)),
        _ => None,
    }
}

/// What an instruction adds to the space for local variables on the stack.
fn stack_change_of(instr: &Instr) -> (n: i128)
    ensures
        n == stack_change(*instr),
        -0x8000_0000_0000_0000 <= n <= 0x8000_0000_0000_0000,
{
    if is_register(instr.op0.kind) && matches!(canonical_reg(instr.op0.register), Register::RSP) {
        match immediate_value(&instr.op1) {
            Some(v) => match instr.mnemonic {
                Mnemonic::Sub => v as i128,
                Mnemonic::Add => -(v as i128),
                _ => 0,
            },
            None => 0,
        }
    } else {
        0
    }
}

/// The stack frame size: the greatest space for local variables that the instructions make.
fn frame_size_of(func: &DisasmFunction) -> (size: u32)
    ensures
        size == frame_of(items_model(func.instrs@)),
{
    let ghost items = items_model(func.instrs@);
    let n = func.instrs.len();
    let mut depth: i128 = 0;
    let mut size: i128 = 0;
    let mut i: usize = 0;
    while i < n
        invariant
            i <= n,
            n == func.instrs@.len(),
            items == items_model(func.instrs@),
            depth == stack_depth(items.take(i as int)),
            size == frame_of(items.take(i as int)),
            0 <= depth <= u32::MAX,
            0 <= size <= u32::MAX,
        decreases n - i,
    {
        assert(items.take(i + 1).drop_last() =~= items.take(i as int));
        assert(items.take(i + 1).last() == func.instrs@[i as int]@);
        let sum: i128 = depth + stack_change_of(&func.instrs[i].instr);
        depth = if sum < 0 {
            0
        } else if sum > 0xffff_ffff {
            0xffff_ffff
        } else {
            sum
        };
        if depth > size {
            size = depth;
        }
        i = i + 1;
    }
    assert(items.take(n as int) =~= items);
    size as u32
}

/// Ends each block with a terminator.
fn close_blocks(blocks: &mut Vec<BasicBlock>)
    ensures
        blocks_model(final(blocks)@) == all_closed(blocks_model(old(blocks)@)),
{
    let ghost all = blocks_model(blocks@);
    let m = blocks.len();
    let mut i: usize = 0;
    while i < m
        invariant
            i <= m,
            m == blocks@.len(),
            m == all.len(),
            forall|j: int|
                0 <= j < i ==> (#[trigger] blocks@[j])@ == closed(
                    all[j],
                    StmtModel::Return(None),
                ),
            forall|j: int| i <= j < m ==> (#[trigger] blocks@[j])@ == all[j],
        decreases m - i,
    {
        let open = blocks[i].terminator().is_none();
        if open {
            let b = &mut blocks[i];
            emit(&mut b.stmts, Stmt::Return(None));
        }
        i = i + 1;
    }
    assert(blocks_model(blocks@) =~= all_closed(all));
}

/// Puts the entry block in front.
fn enter(blocks: &mut Vec<BasicBlock>, id: u32, address: u64)
    requires
        old(blocks)@.len() > 0,
    ensures
        blocks_model(final(blocks)@) == entered(blocks_model(old(blocks)@), id, address),
{
    let ghost all = blocks_model(blocks@);
    let n = blocks.len();
    let mut k: usize = 0;
    assert(all.skip(0) =~= all);
    while k < n && blocks[k].id != id
        invariant
            k <= n,
            n == blocks@.len(),
            all == blocks_model(blocks@),
            place(all, id) == k + place(all.skip(k as int), id),
        decreases n - k,
    {
        assert(all.skip(k as int)[0] == blocks@[k as int]@);
        assert(all.skip(k as int).skip(1) =~= all.skip(k + 1));
        k = k + 1;
    }
    if k < n {
        assert(all.skip(k as int)[0] == blocks@[k as int]@);
    }
    assert(place(all, id) == k);
    let ghost before = blocks@;
    if k < n {
        let block = blocks.remove(k);
        assert(blocks_model(blocks@) =~= all.remove(k as int));
        let ghost rest = blocks@;
        blocks.insert(0, block);
        assert(blocks_model(blocks@) =~= all.remove(k as int).insert(0, all[k as int]));
    } else {
        let mut block = BasicBlock::new(id, address);
        assert(stmts_model(block.stmts@) =~= Seq::empty());
        let first = blocks[0].id;
        assert(all[0] == blocks@[0]@);
        emit(&mut block.stmts, Stmt::Jump(first));
        assert(block@.stmts =~= seq![StmtModel::Jump(first)]);
        blocks.insert(0, block);
        assert(blocks_model(blocks@) =~= all.insert(0, block@));
    }
}

impl Lifter {
    /// Groups the instructions into blocks that start at the given addresses.
    #[verifier::spinoff_prover]
    fn group(&mut self, func: &DisasmFunction, keys: &Vec<u64>) -> (blocks: Vec<BasicBlock>)
        requires
            old(self).room(24 * func.instrs@.len() as int),
            keys@ == block_starts(func.address, items_model(func.instrs@)),
            keys@.len() <= u32::MAX,
        ensures
            blocks_model(blocks@) == last_group(old(self).state(), func@).all(),
            final(self).state() == (Lift {
                out: Seq::empty(),
                ..last_group(old(self).state(), func@).lift
            }),
    {
        let ghost before = *self;
        let ghost code = func@;
        let ghost items = code.instrs;
        let n = func.instrs.len();
        proof {
            lemma_block_starts(code.address, items);
        }
        self.addr_to_block = number_blocks(keys);
        let ghost ids = numbered(keys@);
        let ghost first = first_group(before.state(), code);
        let mut blocks: Vec<BasicBlock> = Vec::new();
        let start = if n > 0 {
            func.instrs[0].address
        } else {
            func.address
        };
        proof {
            if n > 0 {
                assert(begins(items, 0));
                assert(items[0] == func.instrs@[0]@);
                assert(keys@.contains(items[0].address));
            }
            lemma_slot(keys@, start);
            assert(ids.contains_key(start));
        }
        let mut current_id = self.block_at(start, 0);
        let mut block = BasicBlock::new(current_id, start);
        proof {
            assert(self.state().blocks == ids);
            assert(self.at(block.stmts@).block_at(start, 0) == current_id);
            assert(stmts_model(block.stmts@) =~= Seq::empty());
            assert(blocks_model(blocks@) =~= Seq::empty());
            assert(self.at(block.stmts@) =~= first.lift);
            assert(items.take(0) =~= Seq::empty());
        }
        let mut i: usize = 0;
        while i < n
            invariant
                i <= n,
                n == func.instrs@.len(),
                code == func@,
                items == items_model(func.instrs@),
                before.room(24 * n),
                self.state().next <= before.state().next + 20 * i,
                self.state().blocks == ids,
                ids == numbered(keys@),
                ascending(keys@),
                keys@.len() <= u32::MAX,
                current_id < keys@.len(),
                block.id == current_id,
                first.steps(items.take(i as int)) == (Grouping {
                    lift: self.at(block.stmts@),
                    done: blocks_model(blocks@),
                    id: current_id,
                    addr: block.address,
                }),
            decreases n - i,
        {
            let di = &func.instrs[i];
            let ghost g = first.steps(items.take(i as int));
            proof {
                assert(items.take(i + 1).drop_last() =~= items.take(i as int));
                assert(items.take(i + 1).last() == di@);
                lemma_slot(keys@, di.address);
            }
            // Check if we're starting a new block
            if let Some(bid) = self.addr_to_block.get(&di.address) {
                let bid = *bid;
                assert(self.at(block.stmts@).blocks == ids);
                assert(ids.contains_key(di.address) && ids[di.address] == bid);
                if bid != current_id {
                    let full = self.turn(block, bid, di.address, &mut blocks);
                    current_id = bid;
                    block = full;
                    assert(self.at(block.stmts@) =~= (Lift { out: Seq::empty(), ..g.lift }));
                }
            }
            let ghost arrived = g.arrive(di.address);
            assert(arrived == (Grouping {
                lift: self.at(block.stmts@),
                done: blocks_model(blocks@),
                id: current_id,
                addr: block.address,
            }));
            self.lift_instr(&di.instr, &mut block.stmts, current_id);
            i = i + 1;
        }
        assert(items.take(n as int) =~= items);
        let ghost last = last_group(before.state(), code);
        let ghost out = block.stmts@;
        let ghost done = blocks@;
        blocks.push(block);
        assert(blocks_model(blocks@) =~= blocks_model(done).push(last.current()));
        assert(self.at(out) == last.lift);
        assert(self.state() =~= (Lift { out: Seq::empty(), ..last.lift }));
        blocks
    }

    /// Close previous block (add fall-through jump if needed); the result is the next one.
    fn turn(&self, block: BasicBlock, next: u32, address: u64, blocks: &mut Vec<BasicBlock>) -> (
        fresh: BasicBlock)
        ensures
            blocks_model(final(blocks)@) == blocks_model(old(blocks)@).push(
                closed(block@, StmtModel::Jump(next)),
            ),
            fresh@ == (BlockModel { id: next, address, stmts: Seq::empty() }),
    {
        let mut block = block;
        let ghost open = block@;
        let ghost done = blocks@;
        if block.terminator().is_none() {
            emit(&mut block.stmts, Stmt::Jump(next));
        }
        assert(block@ == closed(open, StmtModel::Jump(next)));
        blocks.push(block);
        assert(blocks_model(blocks@) =~= blocks_model(done).push(block@));
        let fresh = BasicBlock::new(next, address);
        assert(stmts_model(fresh.stmts@) =~= Seq::empty());
        fresh
    }

    /// Lifts a function whose blocks start at the given addresses, whether or not the numbers of
    /// registers suffice.
    fn lift_blocks(&mut self, func: &DisasmFunction, keys: &Vec<u64>) -> (ir: IrFunction)
        requires
            old(self).room(24 * func.instrs@.len() as int),
            keys@ == block_starts(func.address, items_model(func.instrs@)),
            keys@.len() <= u32::MAX,
        ensures
            ir@ == lifted(old(self).state(), func@),
            final(self).state() == (Lift {
                out: Seq::empty(),
                ..last_group(old(self).state(), func@).lift
            }),
    {
        let ghost last = last_group(self.state(), func@);
        let mut blocks = self.group(func, keys);
        close_blocks(&mut blocks);
        proof {
            lemma_steps_blocks(first_group(old(self).state(), func@), func@.instrs);
            lemma_block_starts(func.address, func@.instrs);
            assert(blocks@.len() == blocks_model(blocks@).len());
        }
        let entry = self.block_at(func.address, 0);
        assert(entry == self.at(Seq::empty()).block_at(func.address, 0));
        enter(&mut blocks, entry, func.address);
        let mut ir = IrFunction::new(func.address, func.name.clone());
        ir.blocks = blocks;
        ir.param_count = self.param_regs_used.len();
        ir.frame_size = frame_size_of(func);
        ir.vreg_counter = self.vreg_ctr as u32;
        ir
    }

    pub fn lift_function(&mut self, func: &DisasmFunction) -> (ir: IrFunction)
        requires
            fits(old(self).state(), func@),
        ensures
            ir@ == lifted(old(self).state(), func@),
            final(self).state() == (Lift {
                out: Seq::empty(),
                ..last_group(old(self).state(), func@).lift
            }),
    {
        proof {
            lemma_next_grows(self.state(), func@);
        }
        let n = func.instrs.len();
        assert(24 * n <= 24 * usize::MAX);
        let keys = find_block_starts(func);
        self.lift_blocks(func, &keys)
    }
}

/// The block at each address stays the same.
proof fn lemma_steps_blocks(g: Grouping, items: Seq<ItemModel>)
    ensures
        g.steps(items).lift.blocks == g.lift.blocks,
    decreases items.len(),
{
    if items.len() > 0 {
        lemma_steps_blocks(g, items.drop_last());
        let s = g.steps(items.drop_last()).arrive(items.last().address);
        lemma_instr_grows(s.lift, items.last().instr, s.id);
    }
}

/// Lifts one function.
pub fn lift(func: &DisasmFunction, arch: Arch) -> (ir: IrFunction)
    requires
        fits(fresh_lift(arch), func@),
    ensures
        ir@ == lifted(fresh_lift(arch), func@),
{
    let mut lifter = Lifter::new(arch);
    lifter.lift_function(func)
}

/// Lifts one function, unless the numbers of registers or blocks run out.
pub fn try_lift(func: &DisasmFunction, arch: Arch) -> (ir: Option<IrFunction>)
    ensures
        ir is Some <==> fits(fresh_lift(arch), func@),
        ir matches Some(f) ==> f@ == lifted(fresh_lift(arch), func@),
{
    let keys = find_block_starts(func);
    if keys.len() as u128 > 0xffff_ffff {
        return None;
    }
    let n = func.instrs.len();
    assert(24 * n <= 24 * usize::MAX);
    let mut lifter = Lifter::new(arch);
    let ir = lifter.lift_blocks(func, &keys);
    if lifter.vreg_ctr > 0xffff_ffff {
        return None;
    }
    Some(ir)
}

/// The arguments of a call depend on the registers alone.
proof fn lemma_args_same(a: Lift, b: Lift, n: int)
    requires
        a.regs == b.regs,
        a.w() == b.w(),
    ensures
        a.call_args(n) == b.call_args(n),
    decreases n,
{
    if n > 0 {
        lemma_args_same(a, b, n - 1);
    }
}

} // verus!

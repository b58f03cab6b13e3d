//! What an instruction means: the statements that it is lifted to.
use vstd::prelude::*;

use super::{BinOp, BlockModel, Expr, FunctionModel, StmtModel, UnOp, VReg, Width};
use crate::binary::Arch;
use crate::disasm::kinds::{bits_of, branches, canonical, jumps, leaves_function};
use crate::disasm::model::{CodeModel, ItemModel};
use crate::sorted::{ascending, lemma_insert, lemma_slot, slot, with_key};
use crate::x86::{Instr, MemorySize, Mnemonic, OpKind, Operand, Register};

verus! {

/// The number as a signed one, in two's complement.
pub open spec fn signed64(v: u64) -> int {
    if v < 0x8000_0000_0000_0000 {
        v as int
    } else {
        v - 0x1_0000_0000_0000_0000
    }
}

/// The lowest byte as a signed number, in two's complement.
pub open spec fn signed8(v: u64) -> int {
    if v % 256 < 128 {
        (v % 256) as int
    } else {
        v % 256 - 256
    }
}

/// The width of a value of the given size in memory.
pub open spec fn size_width(size: MemorySize) -> Width {
    match size {
        MemorySize::UInt8 | MemorySize::Int8 => Width::W8,
        MemorySize::UInt16 | MemorySize::Int16 | MemorySize::WordOffset => Width::W16,
        MemorySize::UInt32 | MemorySize::Int32 | MemorySize::DwordOffset => Width::W32,
        MemorySize::Other(_) => Width::W64,
    }
}

/// The registers that carry the first six arguments, in order.
pub open spec fn arg_reg(i: int) -> Register {
    if i == 0 {
        Register::RDI
    } else if i == 1 {
        Register::RSI
    } else if i == 2 {
        Register::RDX
    } else if i == 3 {
        Register::RCX
    } else if i == 4 {
        Register::R8
    } else {
        Register::R9
    }
}

/// The register carries an argument.
pub open spec fn is_arg(r: Register) -> bool {
    match r {
        Register::RDI
        | Register::RSI
        | Register::RDX
        | Register::RCX
        | Register::R8
        | Register::R9 => true,
        _ => false,
    }
}

/// The value of an immediate operand of the given kind, with its width.
pub open spec fn immediate_of(op: Operand) -> Option<(int, Width)> {
    match op.kind {
        OpKind::Immediate8 => Some((signed8(op.immediate), Width::W8)),
        OpKind::Immediate8Second => Some((signed8(op.immediate), Width::W8)),
        OpKind::Immediate16 => Some((signed64(op.immediate), Width::W16)),
        OpKind::Immediate32 => Some((signed64(op.immediate), Width::W32)),
        OpKind::Immediate64 => Some((signed64(op.immediate), Width::W64)),
        OpKind::Immediate8to16 => Some((signed64(op.immediate), Width::W16)),
        OpKind::Immediate8to32 => Some((signed64(op.immediate), Width::W32)),
        OpKind::Immediate8to64 => Some((signed64(op.immediate), Width::W64)),
        OpKind::Immediate32to64 => Some((signed64(op.immediate), Width::W64)),
        _ => None,
    }
}

/// A near branch of 32 or 64 bits.
pub open spec fn is_wide_branch(kind: OpKind) -> bool {
    kind == OpKind::NearBranch32 || kind == OpKind::NearBranch64
}

/// The comparison that a set or branch instruction makes of the operands of the last comparison,
/// and whether they are exchanged.
pub open spec fn comparison(m: Mnemonic) -> (BinOp, bool) {
    match m {
        Mnemonic::Sete | Mnemonic::Je | Mnemonic::Loope => (BinOp::Eq, false),
        Mnemonic::Setne | Mnemonic::Jne | Mnemonic::Loopne => (BinOp::Ne, false),
        Mnemonic::Setl | Mnemonic::Jl => (BinOp::Slt, false),
        Mnemonic::Setle | Mnemonic::Jle => (BinOp::Sle, false),
        Mnemonic::Setg | Mnemonic::Jg => (BinOp::Slt, true),
        Mnemonic::Setge | Mnemonic::Jge => (BinOp::Sle, true),
        Mnemonic::Setb | Mnemonic::Jb => (BinOp::Ult, false),
        Mnemonic::Setbe | Mnemonic::Jbe => (BinOp::Ule, false),
        Mnemonic::Seta | Mnemonic::Ja => (BinOp::Ult, true),
        Mnemonic::Setae | Mnemonic::Jae => (BinOp::Ule, true),
        _ => (BinOp::Ne, false),
    }
}

/// How far the lifting has come: the next register number, the register that holds the value of
/// each machine register (by the number of the machine register), the result and the operands of
/// the last comparison, the argument registers read before they were written, the block at each
/// address, and the statements of the current block.
#[verifier::ext_equal]
pub ghost struct Lift {
    pub arch: Arch,
    pub next: nat,
    pub regs: Map<u16, u32>,
    pub flags: Option<(Expr, Expr, Expr)>,
    pub params: Seq<u16>,
    pub blocks: Map<u64, u32>,
    pub out: Seq<StmtModel>,
}

impl Lift {
    /// The full width of a register.
    pub open spec fn w(self) -> Width {
        match self.arch {
            Arch::X86 => Width::W32,
            Arch::X86_64 => Width::W64,
        }
    }

    /// The number of bytes of a register in full width.
    pub open spec fn word(self) -> i64 {
        match self.arch {
            Arch::X86 => 4,
            Arch::X86_64 => 8,
        }
    }

    /// The number of the highest bit of a register in full width.
    pub open spec fn sign_bit(self) -> i64 {
        match self.arch {
            Arch::X86 => 31,
            Arch::X86_64 => 63,
        }
    }

    /// The next register.
    pub open spec fn vreg(self) -> VReg {
        VReg(self.next as u32)
    }

    /// After the next register has been taken.
    pub open spec fn took(self) -> Lift {
        Lift { next: self.next + 1, ..self }
    }

    /// After one more statement.
    pub open spec fn push(self, s: StmtModel) -> Lift {
        Lift { out: self.out.push(s), ..self }
    }

    /// After the next register has been given a value.
    pub open spec fn assign(self, e: Expr) -> Lift {
        self.took().push(StmtModel::Assign(self.vreg(), e))
    }

    /// The machine register has a new value.
    pub open spec fn bind(self, r: Register, v: VReg) -> Lift {
        Lift { regs: self.regs.insert(r.number(), v.0), ..self }
    }

    /// After the machine register has been looked up; one not seen before gets the next register,
    /// and is a parameter where it carries an argument.
    pub open spec fn seen(self, r: Register) -> Lift {
        let key = canonical(r).number();
        if self.regs.contains_key(key) {
            self
        } else {
            Lift {
                regs: self.regs.insert(key, self.vreg().0),
                params: if is_arg(canonical(r)) && !self.params.contains(key) {
                    self.params.push(key)
                } else {
                    self.params
                },
                ..self.took()
            }
        }
    }

    /// The value of a machine register, in the given width.
    pub open spec fn read_reg(self, r: Register, width: Width) -> (Lift, Expr) {
        let s = self.seen(r);
        let vr = VReg(s.regs[canonical(r).number()]);
        if width == self.w() || width == Width::W64 {
            (s, Expr::Reg(vr, width))
        } else {
            (
                s.assign(Expr::UnOp(UnOp::Trunc(width), Box::new(Expr::Reg(vr, self.w())))),
                Expr::Reg(s.vreg(), width),
            )
        }
    }

    /// After a write to a machine register. A value of 32 bits is extended to 64 bits, a narrower
    /// one to the full width.
    pub open spec fn write_reg(self, r: Register, val: Expr) -> Lift {
        let (s, full) = match val.value_width() {
            Width::W64 => (self, val),
            Width::W32 => (
                self.assign(Expr::UnOp(UnOp::ZExt(Width::W64), Box::new(val))),
                Expr::Reg(self.vreg(), Width::W64),
            ),
            _ => (
                self.assign(Expr::UnOp(UnOp::ZExt(self.w()), Box::new(val))),
                Expr::Reg(self.vreg(), self.w()),
            ),
        };
        s.assign(full).bind(canonical(r), s.vreg())
    }

    /// The base of a memory operand; for an address relative to the instruction, the address
    /// behind it.
    pub open spec fn mem_base(self, instr: Instr) -> (Lift, Option<Expr>) {
        match instr.memory.base {
            Register::NoRegister => (self, None),
            Register::RIP | Register::EIP => (
                self,
                Some(Expr::Const(signed64(instr.next_ip) as i64, self.w())),
            ),
            base => {
                let (s, e) = self.read_reg(base, self.w());
                (s, Some(e))
            },
        }
    }

    /// The sum of what there is and one more part.
    pub open spec fn plus(self, sum: Option<Expr>, part: Expr) -> (Lift, Expr) {
        match sum {
            Some(a) => (
                self.assign(Expr::BinOp(BinOp::Add, Box::new(a), Box::new(part))),
                Expr::Reg(self.vreg(), self.w()),
            ),
            None => (self, part),
        }
    }

    /// The index of a memory operand, times its scale.
    pub open spec fn mem_index(self, instr: Instr) -> (Lift, Expr) {
        let (s, e) = self.read_reg(instr.memory.index, self.w());
        if instr.memory.scale > 1 {
            (
                s.assign(
                    Expr::BinOp(
                        BinOp::Mul,
                        Box::new(e),
                        Box::new(Expr::Const(instr.memory.scale as i64, self.w())),
                    ),
                ),
                Expr::Reg(s.vreg(), self.w()),
            )
        } else {
            (s, e)
        }
    }

    /// The address of the memory operand: base, scaled index and displacement.
    pub open spec fn mem_addr(self, instr: Instr) -> (Lift, Expr) {
        let (s, base) = self.mem_base(instr);
        let (s, sum) = if instr.memory.index != Register::NoRegister {
            let (s, scaled) = s.mem_index(instr);
            let (s, e) = s.plus(base, scaled);
            (s, Some(e))
        } else {
            (s, base)
        };
        let disp = Expr::Const(signed64(instr.memory.displacement) as i64, self.w());
        match sum {
            Some(e) => if instr.memory.displacement != 0 {
                s.plus(Some(e), disp)
            } else {
                (s, e)
            },
            None => (s, disp),
        }
    }

    /// The value of an operand.
    pub open spec fn operand(self, instr: Instr, n: int) -> (Lift, Expr) {
        let op = instr.operand(n);
        match op.kind {
            OpKind::Register => self.read_reg(op.register, Width::of_bits(bits_of(op.register))),
            OpKind::Memory => {
                let (s, addr) = self.mem_addr(instr);
                (s, Expr::Load(Box::new(addr), size_width(instr.memory.size)))
            },
            OpKind::NearBranch32 | OpKind::NearBranch64 => (
                self,
                Expr::Addr(instr.near_branch_target),
            ),
            _ => match immediate_of(op) {
                Some((v, width)) => (self, Expr::Const(v as i64, width)),
                None => (self, Expr::Const(0, self.w())),
            },
        }
    }

    /// After a write to an operand.
    pub open spec fn set_operand(self, instr: Instr, n: int, val: Expr) -> Lift {
        let op = instr.operand(n);
        match op.kind {
            OpKind::Register => self.write_reg(op.register, val),
            OpKind::Memory => {
                let (s, addr) = self.mem_addr(instr);
                s.push(StmtModel::Store { addr, val, width: size_width(instr.memory.size) })
            },
            _ => self.push(StmtModel::Unhandled("cannot write to op kind "@ + op.kind.text())),
        }
    }

    /// The second operand goes to the first.
    #[verifier::opaque]
    pub open spec fn copies(self, instr: Instr) -> Lift {
        let (s, src) = self.operand(instr, 1);
        s.set_operand(instr, 0, src)
    }

    /// The width of the first operand where it is a register, else the full width.
    pub open spec fn target_width(self, instr: Instr) -> Width {
        if instr.op0.kind == OpKind::Register {
            Width::of_bits(bits_of(instr.op0.register))
        } else {
            self.w()
        }
    }

    /// The second operand goes to the first, extended to its width.
    #[verifier::opaque]
    pub open spec fn extends(self, instr: Instr, signed: bool) -> Lift {
        let (s, src) = self.operand(instr, 1);
        let width = self.target_width(instr);
        let op = if signed {
            UnOp::SExt(width)
        } else {
            UnOp::ZExt(width)
        };
        s.assign(Expr::UnOp(op, Box::new(src))).set_operand(
            instr,
            0,
            Expr::Reg(s.vreg(), width),
        )
    }

    #[verifier::opaque]
    pub open spec fn exchanges(self, instr: Instr) -> Lift {
        let (s, a) = self.operand(instr, 0);
        let (s, b) = s.operand(instr, 1);
        s.set_operand(instr, 0, b).set_operand(instr, 1, a)
    }

    #[verifier::opaque]
    pub open spec fn loads_address(self, instr: Instr) -> Lift {
        let (s, addr) = self.mem_addr(instr);
        s.set_operand(instr, 0, addr)
    }

    #[verifier::opaque]
    pub open spec fn pushes(self, instr: Instr) -> Lift {
        let w = self.w();
        let (s, val) = self.operand(instr, 0);
        let (s, rsp) = s.read_reg(Register::RSP, w);
        let top = s.vreg();
        s.assign(
            Expr::BinOp(BinOp::Sub, Box::new(rsp), Box::new(Expr::Const(self.word(), w))),
        ).bind(Register::RSP, top).push(
            StmtModel::Store { addr: Expr::Reg(top, w), val, width: w },
        )
    }

    #[verifier::opaque]
    pub open spec fn pops(self, instr: Instr) -> Lift {
        let w = self.w();
        let (s, rsp) = self.read_reg(Register::RSP, w);
        let s = s.assign(Expr::Load(Box::new(rsp), w)).set_operand(
            instr,
            0,
            Expr::Reg(s.vreg(), w),
        );
        let (s, rsp) = s.read_reg(Register::RSP, w);
        s.assign(
            Expr::BinOp(BinOp::Add, Box::new(rsp), Box::new(Expr::Const(self.word(), w))),
        ).bind(Register::RSP, s.vreg())
    }

    /// The first operand becomes the result of an operation on the first two.
    #[verifier::opaque]
    pub open spec fn combines(self, instr: Instr, op: BinOp) -> Lift {
        let (s, a) = self.operand(instr, 0);
        let (s, b) = s.operand(instr, 1);
        s.assign(Expr::BinOp(op, Box::new(a), Box::new(b))).set_operand(
            instr,
            0,
            Expr::Reg(s.vreg(), self.w()),
        )
    }

    /// The first operand becomes the product of the other two.
    #[verifier::opaque]
    pub open spec fn multiplies(self, instr: Instr) -> Lift {
        let (s, a) = self.operand(instr, 1);
        let (s, b) = s.operand(instr, 2);
        s.assign(Expr::BinOp(BinOp::Mul, Box::new(a), Box::new(b))).set_operand(
            instr,
            0,
            Expr::Reg(s.vreg(), self.w()),
        )
    }

    /// `rax` becomes its product with the first operand.
    #[verifier::opaque]
    pub open spec fn multiplies_rax(self, instr: Instr) -> Lift {
        let (s, src) = self.operand(instr, 0);
        let (s, rax) = s.read_reg(Register::RAX, self.w());
        s.assign(Expr::BinOp(BinOp::Mul, Box::new(rax), Box::new(src))).write_reg(
            Register::RAX,
            Expr::Reg(s.vreg(), self.w()),
        )
    }

    /// `rax` and `rdx` become quotient and remainder of `rax` and the first operand.
    #[verifier::opaque]
    pub open spec fn divides(self, instr: Instr, quotient: BinOp, remainder: BinOp) -> Lift {
        let w = self.w();
        let (s, src) = self.operand(instr, 0);
        let (s, rax) = s.read_reg(Register::RAX, w);
        let q = s.vreg();
        let r = s.took().vreg();
        s.took().took().push(
            StmtModel::Assign(q, Expr::BinOp(quotient, Box::new(rax), Box::new(src))),
        ).push(
            StmtModel::Assign(r, Expr::BinOp(remainder, Box::new(rax), Box::new(src))),
        ).write_reg(Register::RAX, Expr::Reg(q, w)).write_reg(Register::RDX, Expr::Reg(r, w))
    }

    /// The first operand is changed by one.
    #[verifier::opaque]
    pub open spec fn steps(self, instr: Instr, op: BinOp) -> Lift {
        let w = self.w();
        let (s, dst) = self.operand(instr, 0);
        s.assign(
            Expr::BinOp(op, Box::new(dst), Box::new(Expr::Const(1, w))),
        ).set_operand(instr, 0, Expr::Reg(s.vreg(), w))
    }

    /// The first operand becomes the result of an operation on it.
    #[verifier::opaque]
    pub open spec fn applies(self, instr: Instr, op: UnOp) -> Lift {
        let (s, src) = self.operand(instr, 0);
        s.assign(Expr::UnOp(op, Box::new(src))).set_operand(
            instr,
            0,
            Expr::Reg(s.vreg(), self.w()),
        )
    }

    /// An exclusive or; of a register with itself it is zero.
    #[verifier::opaque]
    pub open spec fn excludes(self, instr: Instr) -> Lift {
        if instr.op0.register == instr.op1.register && instr.op0.kind == OpKind::Register
            && instr.op1.kind == OpKind::Register {
            self.set_operand(instr, 0, Expr::Const(0, self.w()))
        } else {
            self.combines(instr, BinOp::Xor)
        }
    }

    /// The value of an expression now: what is loaded from memory gets a register.
    pub open spec fn latched(self, e: Expr) -> (Lift, Expr) {
        match e {
            Expr::Load(_, width) => (self.assign(e), Expr::Reg(self.vreg(), width)),
            _ => (self, e),
        }
    }

    /// The last comparison: its result and its operands.
    pub open spec fn compared_as(self, result: Expr, l: Expr, r: Expr) -> Lift {
        Lift { flags: Some((result, l, r)), ..self }
    }

    /// A comparison of the first two operands; its result is their difference.
    #[verifier::opaque]
    pub open spec fn compares(self, instr: Instr) -> Lift {
        let (s, a) = self.operand(instr, 0);
        let (s, b) = s.operand(instr, 1);
        let (s, l) = s.latched(a);
        let (s, r) = s.latched(b);
        s.assign(Expr::BinOp(BinOp::Sub, Box::new(l), Box::new(r))).compared_as(
            Expr::Reg(s.vreg(), self.w()),
            l,
            r,
        )
    }

    /// A test of the bits that the first two operands have in common: they are compared with zero.
    #[verifier::opaque]
    pub open spec fn tests(self, instr: Instr) -> Lift {
        let (s, a) = self.operand(instr, 0);
        let (s, b) = s.operand(instr, 1);
        let result = Expr::Reg(s.vreg(), self.w());
        s.assign(Expr::BinOp(BinOp::And, Box::new(a), Box::new(b))).compared_as(
            result,
            result,
            Expr::Const(0, self.w()),
        )
    }

    /// The result of the last comparison; zero where there was none.
    pub open spec fn last_result(self) -> Expr {
        match self.flags {
            Some((result, _, _)) => result,
            None => Expr::Const(0, self.w()),
        }
    }

    /// The two operands of the last comparison; zeros where there was none.
    pub open spec fn cmp_operands(self) -> (Expr, Expr) {
        match self.flags {
            Some((_, l, r)) => (l, r),
            None => (Expr::Const(0, self.w()), Expr::Const(0, self.w())),
        }
    }

    /// The comparison of the operands of the last comparison, exchanged or not.
    pub open spec fn compared(self, op: BinOp, swap: bool) -> Expr {
        let (l, r) = self.cmp_operands();
        if swap {
            Expr::BinOp(op, Box::new(r), Box::new(l))
        } else {
            Expr::BinOp(op, Box::new(l), Box::new(r))
        }
    }

    /// The first operand becomes the outcome of a comparison.
    #[verifier::opaque]
    pub open spec fn sets(self, instr: Instr, op: BinOp, swap: bool) -> Lift {
        let s = self.assign(self.compared(op, swap));
        s.assign(
            Expr::UnOp(UnOp::ZExt(Width::W8), Box::new(Expr::Reg(self.vreg(), Width::W8))),
        ).set_operand(instr, 0, Expr::Reg(s.vreg(), Width::W8))
    }

    /// The values of the first `n` argument registers that have one.
    pub open spec fn call_args(self, n: int) -> Seq<Expr>
        decreases n,
    {
        if n <= 0 {
            Seq::empty()
        } else {
            let before = self.call_args(n - 1);
            let key = arg_reg(n - 1).number();
            if self.regs.contains_key(key) {
                before.push(Expr::Reg(VReg(self.regs[key]), self.w()))
            } else {
                before
            }
        }
    }

    #[verifier::opaque]
    pub open spec fn calls(self, instr: Instr) -> Lift {
        let (s, func) = self.operand(instr, 0);
        let dst = s.vreg();
        s.took().push(
            StmtModel::Call { dst: Some(dst), func, args: s.call_args(6) },
        ).write_reg(Register::RAX, Expr::Reg(dst, self.w()))
    }

    /// A return, of the value of `rax` where it has one.
    #[verifier::opaque]
    pub open spec fn gives_back(self) -> Lift {
        let key = Register::RAX.number();
        self.push(
            StmtModel::Return(
                if self.regs.contains_key(key) {
                    Some(Expr::Reg(VReg(self.regs[key]), self.w()))
                } else {
                    None
                },
            ),
        )
    }

    #[verifier::opaque]
    pub open spec fn jumps_on(self, instr: Instr) -> Lift {
        if is_wide_branch(instr.op0.kind) {
            let target = instr.near_branch_target;
            if self.blocks.contains_key(target) {
                self.push(StmtModel::Jump(self.blocks[target]))
            } else {
                self.push(StmtModel::IndirectJump(Expr::Addr(target)))
            }
        } else {
            let (s, e) = self.operand(instr, 0);
            s.push(StmtModel::IndirectJump(e))
        }
    }

    /// The condition of a branch; one on the sign asks for that of the last result.
    pub open spec fn condition(self, m: Mnemonic) -> Expr {
        let zero = Expr::Const(0, self.w());
        match m {
            Mnemonic::Js => Expr::BinOp(
                BinOp::Slt,
                Box::new(self.last_result()),
                Box::new(zero),
            ),
            Mnemonic::Jns => Expr::BinOp(
                BinOp::Sle,
                Box::new(zero),
                Box::new(self.last_result()),
            ),
            _ => self.compared(comparison(m).0, comparison(m).1),
        }
    }

    /// The block at an address.
    pub open spec fn block_at(self, addr: u64, otherwise: u32) -> u32 {
        if self.blocks.contains_key(addr) {
            self.blocks[addr]
        } else {
            otherwise
        }
    }

    /// A branch out of block `id`: to the block at its target, or to the one behind it.
    #[verifier::opaque]
    pub open spec fn branches_on(self, instr: Instr, id: u32) -> Lift {
        self.assign(self.condition(instr.mnemonic)).push(
            StmtModel::Branch {
                cond: Expr::Reg(self.vreg(), Width::W8),
                true_id: self.block_at(instr.near_branch_target, 0),
                false_id: self.block_at(instr.next_ip, (id + 1) as u32),
            },
        )
    }

    /// `rdx` is filled with the sign of `rax`.
    #[verifier::opaque]
    pub open spec fn fills_sign(self) -> Lift {
        let w = self.w();
        let (s, rax) = self.read_reg(Register::RAX, w);
        s.assign(
            Expr::BinOp(BinOp::AShr, Box::new(rax), Box::new(Expr::Const(self.sign_bit(), w))),
        ).write_reg(Register::RDX, Expr::Reg(s.vreg(), w))
    }

    /// The stack frame is given up.
    #[verifier::opaque]
    pub open spec fn leaves(self) -> Lift {
        let w = self.w();
        let (s, rbp) = self.read_reg(Register::RBP, w);
        let (s, rsp) = s.write_reg(Register::RSP, rbp).read_reg(Register::RSP, w);
        let s = s.assign(Expr::Load(Box::new(rsp), w)).write_reg(
            Register::RBP,
            Expr::Reg(s.vreg(), w),
        );
        s.assign(
            Expr::BinOp(BinOp::Add, Box::new(rsp), Box::new(Expr::Const(self.word(), w))),
        ).bind(Register::RSP, s.vreg())
    }

    /// After one more instruction, in block `id`.
    pub open spec fn instr(self, instr: Instr, id: u32) -> Lift {
        match instr.mnemonic {
            Mnemonic::Nop | Mnemonic::Endbr32 | Mnemonic::Endbr64 => self.push(StmtModel::Nop),
            Mnemonic::Mov
            | Mnemonic::Cmove
            | Mnemonic::Cmovne
            | Mnemonic::Cmovl
            | Mnemonic::Cmovle
            | Mnemonic::Cmovg
            | Mnemonic::Cmovge
            | Mnemonic::Cmovb
            | Mnemonic::Cmovbe
            | Mnemonic::Cmova
            | Mnemonic::Cmovae
            | Mnemonic::Cmovs
            | Mnemonic::Cmovns => self.copies(instr),
            Mnemonic::Movsx | Mnemonic::Movsxd => self.extends(instr, true),
            Mnemonic::Movzx => self.extends(instr, false),
            Mnemonic::Xchg => self.exchanges(instr),
            Mnemonic::Lea => self.loads_address(instr),
            Mnemonic::Push => self.pushes(instr),
            Mnemonic::Pop => self.pops(instr),
            Mnemonic::Add => self.combines(instr, BinOp::Add),
            Mnemonic::Sub => self.combines(instr, BinOp::Sub),
            Mnemonic::Imul => if instr.op_count == 2 {
                self.combines(instr, BinOp::Mul)
            } else if instr.op_count == 3 {
                self.multiplies(instr)
            } else {
                self.multiplies_rax(instr)
            },
            Mnemonic::Mul => self.multiplies_rax(instr),
            Mnemonic::Idiv => self.divides(instr, BinOp::SDiv, BinOp::SMod),
            Mnemonic::Div => self.divides(instr, BinOp::UDiv, BinOp::UMod),
            Mnemonic::Inc => self.steps(instr, BinOp::Add),
            Mnemonic::Dec => self.steps(instr, BinOp::Sub),
            Mnemonic::Neg => self.applies(instr, UnOp::Neg),
            Mnemonic::Not => self.applies(instr, UnOp::Not),
            Mnemonic::And => self.combines(instr, BinOp::And),
            Mnemonic::Or => self.combines(instr, BinOp::Or),
            Mnemonic::Xor => self.excludes(instr),
            Mnemonic::Shl | Mnemonic::Sal => self.combines(instr, BinOp::Shl),
            Mnemonic::Shr => self.combines(instr, BinOp::LShr),
            Mnemonic::Sar => self.combines(instr, BinOp::AShr),
            Mnemonic::Cmp => self.compares(instr),
            Mnemonic::Test => self.tests(instr),
            Mnemonic::Sete
            | Mnemonic::Setne
            | Mnemonic::Setl
            | Mnemonic::Setle
            | Mnemonic::Setg
            | Mnemonic::Setge
            | Mnemonic::Setb
            | Mnemonic::Setbe
            | Mnemonic::Seta
            | Mnemonic::Setae => self.sets(
                instr,
                comparison(instr.mnemonic).0,
                comparison(instr.mnemonic).1,
            ),
            Mnemonic::Call => self.calls(instr),
            Mnemonic::Ret | Mnemonic::Retf => self.gives_back(),
            Mnemonic::Jmp => self.jumps_on(instr),
            Mnemonic::Cdq | Mnemonic::Cqo => self.fills_sign(),
            Mnemonic::Leave => self.leaves(),
            m => if branches(m) {
                self.branches_on(instr, id)
            } else {
                self.push(StmtModel::Unhandled(m.text()))
            },
        }
    }
}

/// The addresses at which blocks start because of an instruction: the targets of jumps and
/// branches, and the address behind what ends a block.
pub open spec fn starts_after(keys: Seq<u64>, instr: Instr) -> Seq<u64> {
    if branches(instr.mnemonic) {
        with_key(with_key(keys, instr.near_branch_target), instr.next_ip)
    } else if jumps(instr.mnemonic) {
        if is_wide_branch(instr.op0.kind) {
            with_key(with_key(keys, instr.near_branch_target), instr.next_ip)
        } else {
            with_key(keys, instr.next_ip)
        }
    } else if leaves_function(instr.mnemonic) {
        with_key(keys, instr.next_ip)
    } else {
        keys
    }
}

/// Control does not go on behind the operation, or not only there.
pub open spec fn ends_block(m: Mnemonic) -> bool {
    branches(m) || jumps(m) || leaves_function(m)
}

/// The instruction begins a block because of its place: it is the first one, or stands behind one
/// that ends a block.
pub open spec fn begins(items: Seq<ItemModel>, i: int) -> bool {
    i == 0 || ends_block(items[i - 1].instr.mnemonic)
}

/// The addresses at which the blocks of a function start, in ascending order: the start of the
/// function, the targets of jumps and branches, the addresses behind what ends a block, and the
/// instructions that begin a block because of their place.
pub open spec fn block_starts(address: u64, items: Seq<ItemModel>) -> Seq<u64>
    decreases items.len(),
{
    if items.len() == 0 {
        seq![address]
    } else {
        let before = block_starts(address, items.drop_last());
        let keys = if begins(items, items.len() - 1) {
            with_key(before, items.last().address)
        } else {
            before
        };
        starts_after(keys, items.last().instr)
    }
}

/// The block at each of the addresses: blocks are numbered in the order of their addresses.
pub open spec fn numbered(keys: Seq<u64>) -> Map<u64, u32> {
    Map::new(|a: u64| keys.contains(a), |a: u64| slot(keys, a) as u32)
}

/// A block ends with a terminator: where it has none, with the given one.
pub open spec fn closed(block: BlockModel, end: StmtModel) -> BlockModel {
    if block.terminator() is None {
        BlockModel { stmts: block.stmts.push(end), ..block }
    } else {
        block
    }
}

/// How far the grouping into blocks has come: the blocks that are done, and the current block with
/// its number and address.
pub ghost struct Grouping {
    pub lift: Lift,
    pub done: Seq<BlockModel>,
    pub id: u32,
    pub addr: u64,
}

impl Grouping {
    /// The current block as far as it has come.
    pub open spec fn current(self) -> BlockModel {
        BlockModel { id: self.id, address: self.addr, stmts: self.lift.out }
    }

    /// The current block is done, and goes on to block `next`, which starts at `addr`.
    pub open spec fn turn(self, next: u32, addr: u64) -> Grouping {
        Grouping {
            lift: Lift { out: Seq::empty(), ..self.lift },
            done: self.done.push(closed(self.current(), StmtModel::Jump(next))),
            id: next,
            addr,
        }
    }

    /// At the address of an instruction: a new block, where one starts there.
    pub open spec fn arrive(self, addr: u64) -> Grouping {
        if self.lift.blocks.contains_key(addr) && self.lift.blocks[addr] != self.id {
            self.turn(self.lift.blocks[addr], addr)
        } else {
            self
        }
    }

    /// After one more instruction.
    pub open spec fn step(self, item: ItemModel) -> Grouping {
        let g = self.arrive(item.address);
        Grouping { lift: g.lift.instr(item.instr, g.id), ..g }
    }

    /// After the instructions.
    pub open spec fn steps(self, items: Seq<ItemModel>) -> Grouping
        decreases items.len(),
    {
        if items.len() == 0 {
            self
        } else {
            self.steps(items.drop_last()).step(items.last())
        }
    }

    /// All blocks.
    pub open spec fn all(self) -> Seq<BlockModel> {
        self.done.push(self.current())
    }
}

/// The lifting of a function, before its first instruction, by a lifter that has come as far as
/// `lift`.
pub open spec fn first_group(lift: Lift, code: CodeModel) -> Grouping {
    let blocks = numbered(block_starts(code.address, code.instrs));
    let addr = if code.instrs.len() > 0 {
        code.instrs[0].address
    } else {
        code.address
    };
    Grouping {
        lift: Lift { blocks, out: Seq::empty(), ..lift },
        done: Seq::empty(),
        id: blocks[addr],
        addr,
    }
}

/// The lifting of a function, after its last instruction.
pub open spec fn last_group(lift: Lift, code: CodeModel) -> Grouping {
    first_group(lift, code).steps(code.instrs)
}

/// The blocks, each with a terminator.
pub open spec fn all_closed(blocks: Seq<BlockModel>) -> Seq<BlockModel> {
    blocks.map_values(|b: BlockModel| closed(b, StmtModel::Return(None)))
}

/// The place of the first block with the given id; behind the last block where there is none.
pub open spec fn place(blocks: Seq<BlockModel>, id: u32) -> int
    decreases blocks.len(),
{
    if blocks.len() == 0 || blocks[0].id == id {
        0
    } else {
        1 + place(blocks.skip(1), id)
    }
}

/// The blocks with the entry block in front: the one with the given id; where there is none, one
/// that jumps to the first block.
pub open spec fn entered(blocks: Seq<BlockModel>, id: u32, address: u64) -> Seq<BlockModel> {
    let k = place(blocks, id);
    if k < blocks.len() {
        blocks.remove(k).insert(0, blocks[k])
    } else {
        blocks.insert(
            0,
            BlockModel { id, address, stmts: seq![StmtModel::Jump(blocks[0].id)] },
        )
    }
}

/// What an instruction adds to the space for local variables on the stack: what is subtracted from
/// the stack pointer, as a number.
pub open spec fn stack_change(instr: Instr) -> int {
    if instr.op0.kind == OpKind::Register && canonical(instr.op0.register) == Register::RSP {
        match immediate_of(instr.op1) {
            Some((v, _)) => if instr.mnemonic == Mnemonic::Sub {
                v
            } else if instr.mnemonic == Mnemonic::Add {
                -v
            } else {
                0
            },
            None => 0,
        }
    } else {
        0
    }
}

/// The number, within the bounds of a size.
pub open spec fn bounded(n: int) -> int {
    if n < 0 {
        0
    } else if n > u32::MAX {
        u32::MAX as int
    } else {
        n
    }
}

/// The space for local variables after the instructions.
pub open spec fn stack_depth(items: Seq<ItemModel>) -> int
    decreases items.len(),
{
    if items.len() == 0 {
        0
    } else {
        bounded(stack_depth(items.drop_last()) + stack_change(items.last().instr))
    }
}

/// The stack frame size: the greatest space for local variables that the instructions make.
pub open spec fn frame_of(items: Seq<ItemModel>) -> int
    decreases items.len(),
{
    if items.len() == 0 {
        0
    } else {
        let before = frame_of(items.drop_last());
        if stack_depth(items) > before {
            stack_depth(items)
        } else {
            before
        }
    }
}

/// The function that a lifter makes that has come as far as `lift`.
pub open spec fn lifted(lift: Lift, code: CodeModel) -> FunctionModel {
    let last = last_group(lift, code);
    FunctionModel {
        address: code.address,
        name: code.name,
        blocks: entered(
            all_closed(last.all()),
            last.lift.blocks[code.address],
            code.address,
        ),
        param_count: last.lift.params.len(),
        frame_size: frame_of(code.instrs) as u32,
        vreg_counter: last.lift.next as u32,
    }
}

/// There are numbers for all registers and blocks of the function.
pub open spec fn fits(lift: Lift, code: CodeModel) -> bool {
    last_group(lift, code).lift.next <= u32::MAX && block_starts(
        code.address,
        code.instrs,
    ).len() <= u32::MAX
}

/// A lifter that has lifted nothing.
pub open spec fn fresh_lift(arch: Arch) -> Lift {
    Lift {
        arch,
        next: 0,
        regs: Map::empty(),
        flags: None,
        params: Seq::empty(),
        blocks: Map::empty(),
        out: Seq::empty(),
    }
}

pub proof fn lemma_starts_after(keys: Seq<u64>, instr: Instr)
    requires
        ascending(keys),
    ensures
        ascending(starts_after(keys, instr)),
        starts_after(keys, instr).len() <= keys.len() + 2,
        forall|a: u64| keys.contains(a) ==> #[trigger] starts_after(keys, instr).contains(a),
{
    lemma_with_key(keys, instr.near_branch_target);
    lemma_with_key(with_key(keys, instr.near_branch_target), instr.next_ip);
    lemma_with_key(keys, instr.next_ip);
}

pub(crate) proof fn lemma_with_key(keys: Seq<u64>, a: u64)
    requires
        ascending(keys),
    ensures
        ascending(with_key(keys, a)),
        with_key(keys, a).len() <= keys.len() + 1,
        forall|k: u64| #[trigger] with_key(keys, a).contains(k) <==> keys.contains(k) || k == a,
{
    if !keys.contains(a) {
        lemma_insert(keys, a);
        lemma_slot(keys, a);
    }
}

/// The block starts stand in ascending order, the start of the function and the instructions that
/// begin a block among them, and there are no more than three for each instruction besides.
pub proof fn lemma_block_starts(address: u64, items: Seq<ItemModel>)
    ensures
        ascending(block_starts(address, items)),
        block_starts(address, items).contains(address),
        forall|i: int|
            0 <= i < items.len() && begins(items, i) ==> block_starts(address, items).contains(
                (#[trigger] items[i]).address,
            ),
        block_starts(address, items).len() <= 1 + 3 * items.len(),
    decreases items.len(),
{
    if items.len() == 0 {
        assert(block_starts(address, items)[0] == address);
    } else {
        let rest = items.drop_last();
        let last = items.last();
        let before = block_starts(address, rest);
        lemma_block_starts(address, rest);
        lemma_with_key(before, last.address);
        let keys = if begins(items, items.len() - 1) {
            with_key(before, last.address)
        } else {
            before
        };
        lemma_starts_after(keys, last.instr);
        assert forall|i: int| 0 <= i < items.len() && begins(items, i) implies block_starts(
            address,
            items,
        ).contains((#[trigger] items[i]).address) by {
            if i < rest.len() {
                assert(rest[i] == items[i]);
                assert(begins(rest, i));
                assert(before.contains(rest[i].address));
                assert(keys.contains(rest[i].address));
            } else {
                assert(keys.contains(last.address));
            }
        }
    }
}

} // verus!

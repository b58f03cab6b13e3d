//! The numbers by which the decoder knows operations, registers, kinds of operands and sizes.
use vstd::prelude::*;

use super::decode::{decoded_head, decoded_operands, instr_at};
use super::{MemorySize, Mnemonic, OpKind, Register};

verus! {

/// The numbers of the operations; every number stands for the one that has it, or for one without a
/// name.
pub proof fn lemma_mnemonic_numbers(code: u16)
    ensures
        Mnemonic::Nop.number() == 465 && Mnemonic::of_number(465) == Mnemonic::Nop,
        Mnemonic::Mov.number() == 414 && Mnemonic::of_number(414) == Mnemonic::Mov,
        Mnemonic::Movsx.number() == 450 && Mnemonic::of_number(450) == Mnemonic::Movsx,
        Mnemonic::Movsxd.number() == 451 && Mnemonic::of_number(451) == Mnemonic::Movsxd,
        Mnemonic::Movzx.number() == 454 && Mnemonic::of_number(454) == Mnemonic::Movzx,
        Mnemonic::Cmove.number() == 81 && Mnemonic::of_number(81) == Mnemonic::Cmove,
        Mnemonic::Cmovne.number() == 86 && Mnemonic::of_number(86) == Mnemonic::Cmovne,
        Mnemonic::Cmovl.number() == 84 && Mnemonic::of_number(84) == Mnemonic::Cmovl,
        Mnemonic::Cmovle.number() == 85 && Mnemonic::of_number(85) == Mnemonic::Cmovle,
        Mnemonic::Cmovg.number() == 82 && Mnemonic::of_number(82) == Mnemonic::Cmovg,
        Mnemonic::Cmovge.number() == 83 && Mnemonic::of_number(83) == Mnemonic::Cmovge,
        Mnemonic::Cmovb.number() == 79 && Mnemonic::of_number(79) == Mnemonic::Cmovb,
        Mnemonic::Cmovbe.number() == 80 && Mnemonic::of_number(80) == Mnemonic::Cmovbe,
        Mnemonic::Cmova.number() == 77 && Mnemonic::of_number(77) == Mnemonic::Cmova,
        Mnemonic::Cmovae.number() == 78 && Mnemonic::of_number(78) == Mnemonic::Cmovae,
        Mnemonic::Cmovs.number() == 92 && Mnemonic::of_number(92) == Mnemonic::Cmovs,
        Mnemonic::Cmovns.number() == 89 && Mnemonic::of_number(89) == Mnemonic::Cmovns,
        Mnemonic::Xchg.number() == 1509 && Mnemonic::of_number(1509) == Mnemonic::Xchg,
        Mnemonic::Lea.number() == 374 && Mnemonic::of_number(374) == Mnemonic::Lea,
        Mnemonic::Push.number() == 640 && Mnemonic::of_number(640) == Mnemonic::Push,
        Mnemonic::Pop.number() == 590 && Mnemonic::of_number(590) == Mnemonic::Pop,
        Mnemonic::Add.number() == 7 && Mnemonic::of_number(7) == Mnemonic::Add,
        Mnemonic::Sub.number() == 740 && Mnemonic::of_number(740) == Mnemonic::Sub,
        Mnemonic::Imul.number() == 277 && Mnemonic::of_number(277) == Mnemonic::Imul,
        Mnemonic::Mul.number() == 456 && Mnemonic::of_number(456) == Mnemonic::Mul,
        Mnemonic::Idiv.number() == 276 && Mnemonic::of_number(276) == Mnemonic::Idiv,
        Mnemonic::Div.number() == 138 && Mnemonic::of_number(138) == Mnemonic::Div,
        Mnemonic::Inc.number() == 279 && Mnemonic::of_number(279) == Mnemonic::Inc,
        Mnemonic::Dec.number() == 137 && Mnemonic::of_number(137) == Mnemonic::Dec,
        Mnemonic::Neg.number() == 464 && Mnemonic::of_number(464) == Mnemonic::Neg,
        Mnemonic::And.number() == 21 && Mnemonic::of_number(21) == Mnemonic::And,
        Mnemonic::Or.number() == 467 && Mnemonic::of_number(467) == Mnemonic::Or,
        Mnemonic::Xor.number() == 1518 && Mnemonic::of_number(1518) == Mnemonic::Xor,
        Mnemonic::Not.number() == 466 && Mnemonic::of_number(466) == Mnemonic::Not,
        Mnemonic::Shl.number() == 712 && Mnemonic::of_number(712) == Mnemonic::Shl,
        Mnemonic::Sal.number() == 676 && Mnemonic::of_number(676) == Mnemonic::Sal,
        Mnemonic::Shr.number() == 715 && Mnemonic::of_number(715) == Mnemonic::Shr,
        Mnemonic::Sar.number() == 678 && Mnemonic::of_number(678) == Mnemonic::Sar,
        Mnemonic::Cmp.number() == 93 && Mnemonic::of_number(93) == Mnemonic::Cmp,
        Mnemonic::Test.number() == 751 && Mnemonic::of_number(751) == Mnemonic::Test,
        Mnemonic::Sete.number() == 690 && Mnemonic::of_number(690) == Mnemonic::Sete,
        Mnemonic::Setne.number() == 695 && Mnemonic::of_number(695) == Mnemonic::Setne,
        Mnemonic::Setl.number() == 693 && Mnemonic::of_number(693) == Mnemonic::Setl,
        Mnemonic::Setle.number() == 694 && Mnemonic::of_number(694) == Mnemonic::Setle,
        Mnemonic::Setg.number() == 691 && Mnemonic::of_number(691) == Mnemonic::Setg,
        Mnemonic::Setge.number() == 692 && Mnemonic::of_number(692) == Mnemonic::Setge,
        Mnemonic::Setb.number() == 688 && Mnemonic::of_number(688) == Mnemonic::Setb,
        Mnemonic::Setbe.number() == 689 && Mnemonic::of_number(689) == Mnemonic::Setbe,
        Mnemonic::Seta.number() == 686 && Mnemonic::of_number(686) == Mnemonic::Seta,
        Mnemonic::Setae.number() == 687 && Mnemonic::of_number(687) == Mnemonic::Setae,
        Mnemonic::Call.number() == 59 && Mnemonic::of_number(59) == Mnemonic::Call,
        Mnemonic::Ret.number() == 662 && Mnemonic::of_number(662) == Mnemonic::Ret,
        Mnemonic::Retf.number() == 663 && Mnemonic::of_number(663) == Mnemonic::Retf,
        Mnemonic::Iret.number() == 296 && Mnemonic::of_number(296) == Mnemonic::Iret,
        Mnemonic::Iretd.number() == 1618 && Mnemonic::of_number(1618) == Mnemonic::Iretd,
        Mnemonic::Iretq.number() == 1619 && Mnemonic::of_number(1619) == Mnemonic::Iretq,
        Mnemonic::Jmp.number() == 308 && Mnemonic::of_number(308) == Mnemonic::Jmp,
        Mnemonic::Je.number() == 302 && Mnemonic::of_number(302) == Mnemonic::Je,
        Mnemonic::Jne.number() == 310 && Mnemonic::of_number(310) == Mnemonic::Jne,
        Mnemonic::Jl.number() == 306 && Mnemonic::of_number(306) == Mnemonic::Jl,
        Mnemonic::Jle.number() == 307 && Mnemonic::of_number(307) == Mnemonic::Jle,
        Mnemonic::Jg.number() == 304 && Mnemonic::of_number(304) == Mnemonic::Jg,
        Mnemonic::Jge.number() == 305 && Mnemonic::of_number(305) == Mnemonic::Jge,
        Mnemonic::Jb.number() == 299 && Mnemonic::of_number(299) == Mnemonic::Jb,
        Mnemonic::Jbe.number() == 300 && Mnemonic::of_number(300) == Mnemonic::Jbe,
        Mnemonic::Ja.number() == 297 && Mnemonic::of_number(297) == Mnemonic::Ja,
        Mnemonic::Jae.number() == 298 && Mnemonic::of_number(298) == Mnemonic::Jae,
        Mnemonic::Js.number() == 317 && Mnemonic::of_number(317) == Mnemonic::Js,
        Mnemonic::Jns.number() == 313 && Mnemonic::of_number(313) == Mnemonic::Jns,
        Mnemonic::Jo.number() == 314 && Mnemonic::of_number(314) == Mnemonic::Jo,
        Mnemonic::Jno.number() == 311 && Mnemonic::of_number(311) == Mnemonic::Jno,
        Mnemonic::Jp.number() == 315 && Mnemonic::of_number(315) == Mnemonic::Jp,
        Mnemonic::Jnp.number() == 312 && Mnemonic::of_number(312) == Mnemonic::Jnp,
        Mnemonic::Jcxz.number() == 301 && Mnemonic::of_number(301) == Mnemonic::Jcxz,
        Mnemonic::Jecxz.number() == 303 && Mnemonic::of_number(303) == Mnemonic::Jecxz,
        Mnemonic::Jrcxz.number() == 316 && Mnemonic::of_number(316) == Mnemonic::Jrcxz,
        Mnemonic::Loop.number() == 390 && Mnemonic::of_number(390) == Mnemonic::Loop,
        Mnemonic::Loope.number() == 391 && Mnemonic::of_number(391) == Mnemonic::Loope,
        Mnemonic::Loopne.number() == 392 && Mnemonic::of_number(392) == Mnemonic::Loopne,
        Mnemonic::Cdq.number() == 61 && Mnemonic::of_number(61) == Mnemonic::Cdq,
        Mnemonic::Cqo.number() == 107 && Mnemonic::of_number(107) == Mnemonic::Cqo,
        Mnemonic::Leave.number() == 375 && Mnemonic::of_number(375) == Mnemonic::Leave,
        Mnemonic::Endbr32.number() == 151 && Mnemonic::of_number(151) == Mnemonic::Endbr32,
        Mnemonic::Endbr64.number() == 152 && Mnemonic::of_number(152) == Mnemonic::Endbr64,
        Mnemonic::of_number(code).number() == code,
{
    Mnemonic::lemma_number_of_number(code);
}

/// The numbers of the registers; every number stands for the one that has it, or for one without a
/// name.
pub proof fn lemma_register_numbers(code: u16)
    ensures
        Register::NoRegister.number() == 0 && Register::of_number(0) == Register::NoRegister,
        Register::AL.number() == 1 && Register::of_number(1) == Register::AL,
        Register::CL.number() == 2 && Register::of_number(2) == Register::CL,
        Register::DL.number() == 3 && Register::of_number(3) == Register::DL,
        Register::BL.number() == 4 && Register::of_number(4) == Register::BL,
        Register::AH.number() == 5 && Register::of_number(5) == Register::AH,
        Register::CH.number() == 6 && Register::of_number(6) == Register::CH,
        Register::DH.number() == 7 && Register::of_number(7) == Register::DH,
        Register::BH.number() == 8 && Register::of_number(8) == Register::BH,
        Register::SPL.number() == 9 && Register::of_number(9) == Register::SPL,
        Register::BPL.number() == 10 && Register::of_number(10) == Register::BPL,
        Register::SIL.number() == 11 && Register::of_number(11) == Register::SIL,
        Register::DIL.number() == 12 && Register::of_number(12) == Register::DIL,
        Register::R8L.number() == 13 && Register::of_number(13) == Register::R8L,
        Register::R9L.number() == 14 && Register::of_number(14) == Register::R9L,
        Register::R10L.number() == 15 && Register::of_number(15) == Register::R10L,
        Register::R11L.number() == 16 && Register::of_number(16) == Register::R11L,
        Register::R12L.number() == 17 && Register::of_number(17) == Register::R12L,
        Register::R13L.number() == 18 && Register::of_number(18) == Register::R13L,
        Register::R14L.number() == 19 && Register::of_number(19) == Register::R14L,
        Register::R15L.number() == 20 && Register::of_number(20) == Register::R15L,
        Register::AX.number() == 21 && Register::of_number(21) == Register::AX,
        Register::CX.number() == 22 && Register::of_number(22) == Register::CX,
        Register::DX.number() == 23 && Register::of_number(23) == Register::DX,
        Register::BX.number() == 24 && Register::of_number(24) == Register::BX,
        Register::SP.number() == 25 && Register::of_number(25) == Register::SP,
        Register::BP.number() == 26 && Register::of_number(26) == Register::BP,
        Register::SI.number() == 27 && Register::of_number(27) == Register::SI,
        Register::DI.number() == 28 && Register::of_number(28) == Register::DI,
        Register::R8W.number() == 29 && Register::of_number(29) == Register::R8W,
        Register::R9W.number() == 30 && Register::of_number(30) == Register::R9W,
        Register::R10W.number() == 31 && Register::of_number(31) == Register::R10W,
        Register::R11W.number() == 32 && Register::of_number(32) == Register::R11W,
        Register::R12W.number() == 33 && Register::of_number(33) == Register::R12W,
        Register::R13W.number() == 34 && Register::of_number(34) == Register::R13W,
        Register::R14W.number() == 35 && Register::of_number(35) == Register::R14W,
        Register::R15W.number() == 36 && Register::of_number(36) == Register::R15W,
        Register::EAX.number() == 37 && Register::of_number(37) == Register::EAX,
        Register::ECX.number() == 38 && Register::of_number(38) == Register::ECX,
        Register::EDX.number() == 39 && Register::of_number(39) == Register::EDX,
        Register::EBX.number() == 40 && Register::of_number(40) == Register::EBX,
        Register::ESP.number() == 41 && Register::of_number(41) == Register::ESP,
        Register::EBP.number() == 42 && Register::of_number(42) == Register::EBP,
        Register::ESI.number() == 43 && Register::of_number(43) == Register::ESI,
        Register::EDI.number() == 44 && Register::of_number(44) == Register::EDI,
        Register::R8D.number() == 45 && Register::of_number(45) == Register::R8D,
        Register::R9D.number() == 46 && Register::of_number(46) == Register::R9D,
        Register::R10D.number() == 47 && Register::of_number(47) == Register::R10D,
        Register::R11D.number() == 48 && Register::of_number(48) == Register::R11D,
        Register::R12D.number() == 49 && Register::of_number(49) == Register::R12D,
        Register::R13D.number() == 50 && Register::of_number(50) == Register::R13D,
        Register::R14D.number() == 51 && Register::of_number(51) == Register::R14D,
        Register::R15D.number() == 52 && Register::of_number(52) == Register::R15D,
        Register::RAX.number() == 53 && Register::of_number(53) == Register::RAX,
        Register::RCX.number() == 54 && Register::of_number(54) == Register::RCX,
        Register::RDX.number() == 55 && Register::of_number(55) == Register::RDX,
        Register::RBX.number() == 56 && Register::of_number(56) == Register::RBX,
        Register::RSP.number() == 57 && Register::of_number(57) == Register::RSP,
        Register::RBP.number() == 58 && Register::of_number(58) == Register::RBP,
        Register::RSI.number() == 59 && Register::of_number(59) == Register::RSI,
        Register::RDI.number() == 60 && Register::of_number(60) == Register::RDI,
        Register::R8.number() == 61 && Register::of_number(61) == Register::R8,
        Register::R9.number() == 62 && Register::of_number(62) == Register::R9,
        Register::R10.number() == 63 && Register::of_number(63) == Register::R10,
        Register::R11.number() == 64 && Register::of_number(64) == Register::R11,
        Register::R12.number() == 65 && Register::of_number(65) == Register::R12,
        Register::R13.number() == 66 && Register::of_number(66) == Register::R13,
        Register::R14.number() == 67 && Register::of_number(67) == Register::R14,
        Register::R15.number() == 68 && Register::of_number(68) == Register::R15,
        Register::EIP.number() == 69 && Register::of_number(69) == Register::EIP,
        Register::RIP.number() == 70 && Register::of_number(70) == Register::RIP,
        Register::of_number(code).number() == code,
{
    Register::lemma_number_of_number(code);
}

/// The numbers of the kinds of operands; every number stands for the one that has it, or for one
/// without a name.
pub proof fn lemma_opkind_numbers(code: u8)
    ensures
        OpKind::Register.number() == 0 && OpKind::of_number(0) == OpKind::Register,
        OpKind::NearBranch16.number() == 1 && OpKind::of_number(1) == OpKind::NearBranch16,
        OpKind::NearBranch32.number() == 2 && OpKind::of_number(2) == OpKind::NearBranch32,
        OpKind::NearBranch64.number() == 3 && OpKind::of_number(3) == OpKind::NearBranch64,
        OpKind::Immediate8.number() == 6 && OpKind::of_number(6) == OpKind::Immediate8,
        OpKind::Immediate8Second.number() == 7 && OpKind::of_number(7) == OpKind::Immediate8Second,
        OpKind::Immediate16.number() == 8 && OpKind::of_number(8) == OpKind::Immediate16,
        OpKind::Immediate32.number() == 9 && OpKind::of_number(9) == OpKind::Immediate32,
        OpKind::Immediate64.number() == 10 && OpKind::of_number(10) == OpKind::Immediate64,
        OpKind::Immediate8to16.number() == 11 && OpKind::of_number(11) == OpKind::Immediate8to16,
        OpKind::Immediate8to32.number() == 12 && OpKind::of_number(12) == OpKind::Immediate8to32,
        OpKind::Immediate8to64.number() == 13 && OpKind::of_number(13) == OpKind::Immediate8to64,
        OpKind::Immediate32to64.number() == 14 && OpKind::of_number(14) == OpKind::Immediate32to64,
        OpKind::Memory.number() == 24 && OpKind::of_number(24) == OpKind::Memory,
        OpKind::of_number(code).number() == code,
{
    OpKind::lemma_number_of_number(code);
}

/// The numbers of the sizes in memory; every number stands for the one that has it, or for one
/// without a name.
pub proof fn lemma_memorysize_numbers(code: u8)
    ensures
        MemorySize::UInt8.number() == 1 && MemorySize::of_number(1) == MemorySize::UInt8,
        MemorySize::UInt16.number() == 2 && MemorySize::of_number(2) == MemorySize::UInt16,
        MemorySize::UInt32.number() == 3 && MemorySize::of_number(3) == MemorySize::UInt32,
        MemorySize::Int8.number() == 9 && MemorySize::of_number(9) == MemorySize::Int8,
        MemorySize::Int16.number() == 10 && MemorySize::of_number(10) == MemorySize::Int16,
        MemorySize::Int32.number() == 11 && MemorySize::of_number(11) == MemorySize::Int32,
        MemorySize::WordOffset.number() == 19
            && MemorySize::of_number(19) == MemorySize::WordOffset,
        MemorySize::DwordOffset.number() == 20
            && MemorySize::of_number(20) == MemorySize::DwordOffset,
        MemorySize::of_number(code).number() == code,
{
    MemorySize::lemma_number_of_number(code);
}

/// A decoded instruction holds what the decoder says of it: its place, its operation, its operands
/// and their values, the target of a branch, and the parts of its memory operand.
pub proof fn lemma_decoded(bits: u32, code: Seq<u8>, ip: u64)
    ensures
        ({
            let i = instr_at(bits, code, ip);
            let h = decoded_head(bits, code, ip);
            let (a, b, c) = decoded_operands(bits, code, ip);
            &&& i.ip == h.ip && i.len == h.len && i.next_ip == h.next_ip
            &&& i.mnemonic.number() == h.mnemonic && i.mnemonic == Mnemonic::of_number(h.mnemonic)
            &&& i.op_count == h.op_count && i.near_branch_target == h.target
            &&& i.op0.kind == OpKind::of_number(a.0) && i.op0.register == Register::of_number(a.1)
            &&& i.op1.kind == OpKind::of_number(b.0) && i.op1.register == Register::of_number(b.1)
            &&& i.op2.kind == OpKind::of_number(c.0) && i.op2.register == Register::of_number(c.1)
            &&& a.2 matches Some(v) ==> i.op0.immediate == v
            &&& b.2 matches Some(v) ==> i.op1.immediate == v
            &&& c.2 matches Some(v) ==> i.op2.immediate == v
            &&& a.2 is None ==> i.op0.immediate == 0
            &&& b.2 is None ==> i.op1.immediate == 0
            &&& c.2 is None ==> i.op2.immediate == 0
            &&& i.memory.base == Register::of_number(h.base)
            &&& i.memory.index == Register::of_number(h.index)
            &&& i.memory.scale == h.scale && i.memory.displacement == h.displacement
            &&& i.memory.size == MemorySize::of_number(h.size)
            &&& i.operand(0) == i.op0 && i.operand(1) == i.op1 && i.operand(2) == i.op2
        }),
{
    Mnemonic::lemma_number_of_number(decoded_head(bits, code, ip).mnemonic);
}

} // verus!

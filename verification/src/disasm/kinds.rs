//! What the disassembler needs to know of operations and registers.
use vstd::prelude::*;

use crate::x86::{Instr, Mnemonic, OpKind, Register};

verus! {

/// A jump that is always taken.
pub open spec fn jumps(m: Mnemonic) -> bool {
    m == Mnemonic::Jmp
}

/// A jump that is taken under a condition, loop instructions among them.
pub open spec fn branches(m: Mnemonic) -> bool {
    match m {
        Mnemonic::Je | Mnemonic::Jne | Mnemonic::Jl | Mnemonic::Jle | Mnemonic::Jg
        | Mnemonic::Jge | Mnemonic::Jb | Mnemonic::Jbe | Mnemonic::Ja | Mnemonic::Jae
        | Mnemonic::Js | Mnemonic::Jns | Mnemonic::Jo | Mnemonic::Jno | Mnemonic::Jp
        | Mnemonic::Jnp | Mnemonic::Jcxz | Mnemonic::Jecxz | Mnemonic::Jrcxz
        | Mnemonic::Loop | Mnemonic::Loope | Mnemonic::Loopne => true,
        _ => false,
    }
}

/// A return from a function or an interrupt.
pub open spec fn leaves_function(m: Mnemonic) -> bool {
    match m {
        Mnemonic::Ret | Mnemonic::Retf | Mnemonic::Iret | Mnemonic::Iretd | Mnemonic::Iretq => true,
        _ => false,
    }
}

pub fn is_unconditional_branch(m: Mnemonic) -> (yes: bool)
    ensures
        yes == jumps(m),
{
    matches!(m, Mnemonic::Jmp)
}

pub fn is_conditional_branch(m: Mnemonic) -> (yes: bool)
    ensures
        yes == branches(m),
{
    match m {
        Mnemonic::Je | Mnemonic::Jne | Mnemonic::Jl | Mnemonic::Jle | Mnemonic::Jg
        | Mnemonic::Jge | Mnemonic::Jb | Mnemonic::Jbe | Mnemonic::Ja | Mnemonic::Jae
        | Mnemonic::Js | Mnemonic::Jns | Mnemonic::Jo | Mnemonic::Jno | Mnemonic::Jp
        | Mnemonic::Jnp | Mnemonic::Jcxz | Mnemonic::Jecxz | Mnemonic::Jrcxz
        | Mnemonic::Loop | Mnemonic::Loope | Mnemonic::Loopne => true,
        _ => false,
    }
}

pub fn is_return(m: Mnemonic) -> (yes: bool)
    ensures
        yes == leaves_function(m),
{
    match m {
        Mnemonic::Ret | Mnemonic::Retf | Mnemonic::Iret | Mnemonic::Iretd | Mnemonic::Iretq => true,
        _ => false,
    }
}

/// The 64-bit register that a general-purpose register is a part of; any other register is its
/// own.
pub open spec fn canonical(r: Register) -> Register {
    match r {
        Register::AL | Register::AH | Register::AX | Register::EAX => Register::RAX,
        Register::BL | Register::BH | Register::BX | Register::EBX => Register::RBX,
        Register::CL | Register::CH | Register::CX | Register::ECX => Register::RCX,
        Register::DL | Register::DH | Register::DX | Register::EDX => Register::RDX,
        Register::SIL | Register::SI | Register::ESI => Register::RSI,
        Register::DIL | Register::DI | Register::EDI => Register::RDI,
        Register::BPL | Register::BP | Register::EBP => Register::RBP,
        Register::SPL | Register::SP | Register::ESP => Register::RSP,
        Register::R8L | Register::R8W | Register::R8D => Register::R8,
        Register::R9L | Register::R9W | Register::R9D => Register::R9,
        Register::R10L | Register::R10W | Register::R10D => Register::R10,
        Register::R11L | Register::R11W | Register::R11D => Register::R11,
        Register::R12L | Register::R12W | Register::R12D => Register::R12,
        Register::R13L | Register::R13W | Register::R13D => Register::R13,
        Register::R14L | Register::R14W | Register::R14D => Register::R14,
        Register::R15L | Register::R15W | Register::R15D => Register::R15,
        _ => r,
    }
}

/// Return the 64-bit canonical register (e.g. al/ax/eax → rax)
pub fn canonical_reg(r: Register) -> (full: Register)
    ensures
        full == canonical(r),
{
    match r {
        Register::AL | Register::AH | Register::AX | Register::EAX => Register::RAX,
        Register::BL | Register::BH | Register::BX | Register::EBX => Register::RBX,
        Register::CL | Register::CH | Register::CX | Register::ECX => Register::RCX,
        Register::DL | Register::DH | Register::DX | Register::EDX => Register::RDX,
        Register::SIL | Register::SI | Register::ESI => Register::RSI,
        Register::DIL | Register::DI | Register::EDI => Register::RDI,
        Register::BPL | Register::BP | Register::EBP => Register::RBP,
        Register::SPL | Register::SP | Register::ESP => Register::RSP,
        Register::R8L | Register::R8W | Register::R8D => Register::R8,
        Register::R9L | Register::R9W | Register::R9D => Register::R9,
        Register::R10L | Register::R10W | Register::R10D => Register::R10,
        Register::R11L | Register::R11W | Register::R11D => Register::R11,
        Register::R12L | Register::R12W | Register::R12D => Register::R12,
        Register::R13L | Register::R13W | Register::R13D => Register::R13,
        Register::R14L | Register::R14W | Register::R14D => Register::R14,
        Register::R15L | Register::R15W | Register::R15D => Register::R15,
        _ => r,
    }
}

/// The number of bits of the register with the given number, which is none of those with a name:
/// segment, vector, mask, bound, control, debug, floating-point, test and tile registers.
pub open spec fn other_bits(n: u16) -> u16 {
    if 71 <= n <= 76 {
        16
    } else if 77 <= n <= 108 {
        128
    } else if 109 <= n <= 140 {
        256
    } else if 141 <= n <= 172 {
        512
    } else if 181 <= n <= 184 {
        128
    } else if 217 <= n <= 224 {
        80
    } else if 233 <= n <= 240 {
        32
    } else if 241 <= n <= 248 {
        8192
    } else {
        64
    }
}

/// The number of bits of a register; 64 where there is no register.
pub open spec fn bits_of(r: Register) -> u16 {
    match r {
        Register::AL | Register::AH | Register::BL | Register::BH | Register::CL
        | Register::CH | Register::DL | Register::DH | Register::SIL | Register::DIL
        | Register::BPL | Register::SPL | Register::R8L | Register::R9L | Register::R10L
        | Register::R11L | Register::R12L | Register::R13L | Register::R14L
        | Register::R15L => 8u16,
        Register::AX | Register::BX | Register::CX | Register::DX | Register::SI
        | Register::DI | Register::BP | Register::SP | Register::R8W | Register::R9W
        | Register::R10W | Register::R11W | Register::R12W | Register::R13W
        | Register::R14W | Register::R15W => 16u16,
        Register::EAX | Register::EBX | Register::ECX | Register::EDX | Register::ESI
        | Register::EDI | Register::EBP | Register::ESP | Register::R8D | Register::R9D
        | Register::R10D | Register::R11D | Register::R12D | Register::R13D
        | Register::R14D | Register::R15D => 32u16,
        Register::EIP => 32u16,
        Register::Other(n) => other_bits(n),
        _ => 64u16,
    }
}

/// The number of bits of a register without a name.
fn other_size(n: u16) -> (bits: u16)
    ensures
        bits == other_bits(n),
{
    match n {
        71..=76 => 16,
        77..=108 => 128,
        109..=140 => 256,
        141..=172 => 512,
        181..=184 => 128,
        217..=224 => 80,
        233..=240 => 32,
        241..=248 => 8192,
        _ => 64,
    }
}

/// Return bit-width of a register
pub fn reg_size(r: Register) -> (bits: u16)
    ensures
        bits == bits_of(r),
{
    match r {
        Register::AL | Register::AH | Register::BL | Register::BH | Register::CL
        | Register::CH | Register::DL | Register::DH | Register::SIL | Register::DIL
        | Register::BPL | Register::SPL | Register::R8L | Register::R9L | Register::R10L
        | Register::R11L | Register::R12L | Register::R13L | Register::R14L
        | Register::R15L => 8,
        Register::AX | Register::BX | Register::CX | Register::DX | Register::SI
        | Register::DI | Register::BP | Register::SP | Register::R8W | Register::R9W
        | Register::R10W | Register::R11W | Register::R12W | Register::R13W
        | Register::R14W | Register::R15W => 16,
        Register::EAX | Register::EBX | Register::ECX | Register::EDX | Register::ESI
        | Register::EDI | Register::EBP | Register::ESP | Register::R8D | Register::R9D
        | Register::R10D | Register::R11D | Register::R12D | Register::R13D
        | Register::R14D | Register::R15D | Register::EIP => 32,
        Register::Other(n) => other_size(n),
        _ => 64,
    }
}

/// One of the sixteen general-purpose registers in full width.
pub open spec fn is_full(r: Register) -> bool {
    match r {
        Register::RAX | Register::RBX | Register::RCX | Register::RDX | Register::RSI
        | Register::RDI | Register::RBP | Register::RSP | Register::R8 | Register::R9
        | Register::R10 | Register::R11 | Register::R12 | Register::R13 | Register::R14
        | Register::R15 => true,
        _ => false,
    }
}

/// The canonical register is its own canonical register; a register that has another one is
/// narrower than 64 bits, and the other one is a general-purpose register of 64 bits.
pub proof fn lemma_canonical(r: Register)
    ensures
        canonical(canonical(r)) == canonical(r),
        canonical(r) != r ==> bits_of(r) < 64 && is_full(canonical(r)),
        is_full(r) ==> bits_of(r) == 64,
{
}

/// The operand is the target of a near branch, of any width.
pub open spec fn is_near(kind: OpKind) -> bool {
    kind == OpKind::NearBranch16 || kind == OpKind::NearBranch32 || kind == OpKind::NearBranch64
}

pub fn near(kind: OpKind) -> (yes: bool)
    ensures
        yes == is_near(kind),
{
    matches!(kind, OpKind::NearBranch16 | OpKind::NearBranch32 | OpKind::NearBranch64)
}

/// What comes after an instruction: an address to be looked at later, and whether the sweep ends.
#[derive(Debug, Clone, Copy, PartialEq, Eq, Structural)]
pub struct Move {
    pub target: Option<u64>,
    pub stop: bool,
}

/// What comes after the `count`-th instruction of the function that starts at `start`; `known`
/// says that a function is known to start behind the instruction. An unconditional jump ends the
/// sweep, so does a return; so does the start of another function, but not after the first
/// instruction; so does the limit on their number.
pub open spec fn move_after(instr: Instr, start: u64, count: nat, known: bool) -> Move {
    if jumps(instr.mnemonic) {
        Move {
            target: if is_near(instr.op0.kind) {
                Some(instr.near_branch_target)
            } else {
                None
            },
            stop: true,
        }
    } else {
        Move {
            target: if branches(instr.mnemonic) {
                Some(instr.near_branch_target)
            } else {
                None
            },
            stop: leaves_function(instr.mnemonic) || (count > 1 && instr.next_ip != start && known)
                || count > 4096,
        }
    }
}

pub fn next_move(instr: &Instr, start: u64, count: usize, known: bool) -> (step: Move)
    ensures
        step == move_after(*instr, start, count as nat, known),
{
    let m = instr.mnemonic;
    if is_unconditional_branch(m) {
        let target = if near(instr.op0.kind) {
            Some(instr.near_branch_target)
        } else {
            None
        };
        return Move { target, stop: true };
    }
    let target = if is_conditional_branch(m) {
        Some(instr.near_branch_target)
    } else {
        None
    };
    let stop = is_return(m) || (count > 1 && instr.next_ip != start && known) || count > 4096;
    Move { target, stop }
}

} // verus!

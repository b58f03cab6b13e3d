//! x86 instructions as plain values.
use vstd::prelude::*;

pub mod decode;
pub mod laws;

verus! {

/// The operation of an instruction.
#[derive(Debug, Clone, Copy, PartialEq, Eq, Structural)]
pub enum Mnemonic {
    Nop,
    Mov,
    Movsx,
    Movsxd,
    Movzx,
    Cmove,
    Cmovne,
    Cmovl,
    Cmovle,
    Cmovg,
    Cmovge,
    Cmovb,
    Cmovbe,
    Cmova,
    Cmovae,
    Cmovs,
    Cmovns,
    Xchg,
    Lea,
    Push,
    Pop,
    Add,
    Sub,
    Imul,
    Mul,
    Idiv,
    Div,
    Inc,
    Dec,
    Neg,
    And,
    Or,
    Xor,
    Not,
    Shl,
    Sal,
    Shr,
    Sar,
    Cmp,
    Test,
    Sete,
    Setne,
    Setl,
    Setle,
    Setg,
    Setge,
    Setb,
    Setbe,
    Seta,
    Setae,
    Call,
    Ret,
    Retf,
    Iret,
    Iretd,
    Iretq,
    Jmp,
    Je,
    Jne,
    Jl,
    Jle,
    Jg,
    Jge,
    Jb,
    Jbe,
    Ja,
    Jae,
    Js,
    Jns,
    Jo,
    Jno,
    Jp,
    Jnp,
    Jcxz,
    Jecxz,
    Jrcxz,
    Loop,
    Loope,
    Loopne,
    Cdq,
    Cqo,
    Leave,
    Endbr32,
    Endbr64,
    /// Any other operation.
    Other(u16),
}

impl Mnemonic {
    /// The number by which the decoder knows it.
    pub open spec fn number(self) -> u16 {
        match self {
            Mnemonic::Nop => 465u16,
            Mnemonic::Mov => 414u16,
            Mnemonic::Movsx => 450u16,
            Mnemonic::Movsxd => 451u16,
            Mnemonic::Movzx => 454u16,
            Mnemonic::Cmove => 81u16,
            Mnemonic::Cmovne => 86u16,
            Mnemonic::Cmovl => 84u16,
            Mnemonic::Cmovle => 85u16,
            Mnemonic::Cmovg => 82u16,
            Mnemonic::Cmovge => 83u16,
            Mnemonic::Cmovb => 79u16,
            Mnemonic::Cmovbe => 80u16,
            Mnemonic::Cmova => 77u16,
            Mnemonic::Cmovae => 78u16,
            Mnemonic::Cmovs => 92u16,
            Mnemonic::Cmovns => 89u16,
            Mnemonic::Xchg => 1509u16,
            Mnemonic::Lea => 374u16,
            Mnemonic::Push => 640u16,
            Mnemonic::Pop => 590u16,
            Mnemonic::Add => 7u16,
            Mnemonic::Sub => 740u16,
            Mnemonic::Imul => 277u16,
            Mnemonic::Mul => 456u16,
            Mnemonic::Idiv => 276u16,
            Mnemonic::Div => 138u16,
            Mnemonic::Inc => 279u16,
            Mnemonic::Dec => 137u16,
            Mnemonic::Neg => 464u16,
            Mnemonic::And => 21u16,
            Mnemonic::Or => 467u16,
            Mnemonic::Xor => 1518u16,
            Mnemonic::Not => 466u16,
            Mnemonic::Shl => 712u16,
            Mnemonic::Sal => 676u16,
            Mnemonic::Shr => 715u16,
            Mnemonic::Sar => 678u16,
            Mnemonic::Cmp => 93u16,
            Mnemonic::Test => 751u16,
            Mnemonic::Sete => 690u16,
            Mnemonic::Setne => 695u16,
            Mnemonic::Setl => 693u16,
            Mnemonic::Setle => 694u16,
            Mnemonic::Setg => 691u16,
            Mnemonic::Setge => 692u16,
            Mnemonic::Setb => 688u16,
            Mnemonic::Setbe => 689u16,
            Mnemonic::Seta => 686u16,
            Mnemonic::Setae => 687u16,
            Mnemonic::Call => 59u16,
            Mnemonic::Ret => 662u16,
            Mnemonic::Retf => 663u16,
            Mnemonic::Iret => 296u16,
            Mnemonic::Iretd => 1618u16,
            Mnemonic::Iretq => 1619u16,
            Mnemonic::Jmp => 308u16,
            Mnemonic::Je => 302u16,
            Mnemonic::Jne => 310u16,
            Mnemonic::Jl => 306u16,
            Mnemonic::Jle => 307u16,
            Mnemonic::Jg => 304u16,
            Mnemonic::Jge => 305u16,
            Mnemonic::Jb => 299u16,
            Mnemonic::Jbe => 300u16,
            Mnemonic::Ja => 297u16,
            Mnemonic::Jae => 298u16,
            Mnemonic::Js => 317u16,
            Mnemonic::Jns => 313u16,
            Mnemonic::Jo => 314u16,
            Mnemonic::Jno => 311u16,
            Mnemonic::Jp => 315u16,
            Mnemonic::Jnp => 312u16,
            Mnemonic::Jcxz => 301u16,
            Mnemonic::Jecxz => 303u16,
            Mnemonic::Jrcxz => 316u16,
            Mnemonic::Loop => 390u16,
            Mnemonic::Loope => 391u16,
            Mnemonic::Loopne => 392u16,
            Mnemonic::Cdq => 61u16,
            Mnemonic::Cqo => 107u16,
            Mnemonic::Leave => 375u16,
            Mnemonic::Endbr32 => 151u16,
            Mnemonic::Endbr64 => 152u16,
            Mnemonic::Other(code) => code,
        }
    }

    /// What the decoder knows by the number.
    pub open spec fn of_number(code: u16) -> Mnemonic {
        match code {
            465u16 => Mnemonic::Nop,
            414u16 => Mnemonic::Mov,
            450u16 => Mnemonic::Movsx,
            451u16 => Mnemonic::Movsxd,
            454u16 => Mnemonic::Movzx,
            81u16 => Mnemonic::Cmove,
            86u16 => Mnemonic::Cmovne,
            84u16 => Mnemonic::Cmovl,
            85u16 => Mnemonic::Cmovle,
            82u16 => Mnemonic::Cmovg,
            83u16 => Mnemonic::Cmovge,
            79u16 => Mnemonic::Cmovb,
            80u16 => Mnemonic::Cmovbe,
            77u16 => Mnemonic::Cmova,
            78u16 => Mnemonic::Cmovae,
            92u16 => Mnemonic::Cmovs,
            89u16 => Mnemonic::Cmovns,
            1509u16 => Mnemonic::Xchg,
            374u16 => Mnemonic::Lea,
            640u16 => Mnemonic::Push,
            590u16 => Mnemonic::Pop,
            7u16 => Mnemonic::Add,
            740u16 => Mnemonic::Sub,
            277u16 => Mnemonic::Imul,
            456u16 => Mnemonic::Mul,
            276u16 => Mnemonic::Idiv,
            138u16 => Mnemonic::Div,
            279u16 => Mnemonic::Inc,
            137u16 => Mnemonic::Dec,
            464u16 => Mnemonic::Neg,
            21u16 => Mnemonic::And,
            467u16 => Mnemonic::Or,
            1518u16 => Mnemonic::Xor,
            466u16 => Mnemonic::Not,
            712u16 => Mnemonic::Shl,
            676u16 => Mnemonic::Sal,
            715u16 => Mnemonic::Shr,
            678u16 => Mnemonic::Sar,
            93u16 => Mnemonic::Cmp,
            751u16 => Mnemonic::Test,
            690u16 => Mnemonic::Sete,
            695u16 => Mnemonic::Setne,
            693u16 => Mnemonic::Setl,
            694u16 => Mnemonic::Setle,
            691u16 => Mnemonic::Setg,
            692u16 => Mnemonic::Setge,
            688u16 => Mnemonic::Setb,
            689u16 => Mnemonic::Setbe,
            686u16 => Mnemonic::Seta,
            687u16 => Mnemonic::Setae,
            59u16 => Mnemonic::Call,
            662u16 => Mnemonic::Ret,
            663u16 => Mnemonic::Retf,
            296u16 => Mnemonic::Iret,
            1618u16 => Mnemonic::Iretd,
            1619u16 => Mnemonic::Iretq,
            308u16 => Mnemonic::Jmp,
            302u16 => Mnemonic::Je,
            310u16 => Mnemonic::Jne,
            306u16 => Mnemonic::Jl,
            307u16 => Mnemonic::Jle,
            304u16 => Mnemonic::Jg,
            305u16 => Mnemonic::Jge,
            299u16 => Mnemonic::Jb,
            300u16 => Mnemonic::Jbe,
            297u16 => Mnemonic::Ja,
            298u16 => Mnemonic::Jae,
            317u16 => Mnemonic::Js,
            313u16 => Mnemonic::Jns,
            314u16 => Mnemonic::Jo,
            311u16 => Mnemonic::Jno,
            315u16 => Mnemonic::Jp,
            312u16 => Mnemonic::Jnp,
            301u16 => Mnemonic::Jcxz,
            303u16 => Mnemonic::Jecxz,
            316u16 => Mnemonic::Jrcxz,
            390u16 => Mnemonic::Loop,
            391u16 => Mnemonic::Loope,
            392u16 => Mnemonic::Loopne,
            61u16 => Mnemonic::Cdq,
            107u16 => Mnemonic::Cqo,
            375u16 => Mnemonic::Leave,
            151u16 => Mnemonic::Endbr32,
            152u16 => Mnemonic::Endbr64,
            _ => Mnemonic::Other(code),
        }
    }

    pub fn code(self) -> (code: u16)
        ensures
            code == self.number(),
    {
        match self {
            Mnemonic::Nop => 465,
            Mnemonic::Mov => 414,
            Mnemonic::Movsx => 450,
            Mnemonic::Movsxd => 451,
            Mnemonic::Movzx => 454,
            Mnemonic::Cmove => 81,
            Mnemonic::Cmovne => 86,
            Mnemonic::Cmovl => 84,
            Mnemonic::Cmovle => 85,
            Mnemonic::Cmovg => 82,
            Mnemonic::Cmovge => 83,
            Mnemonic::Cmovb => 79,
            Mnemonic::Cmovbe => 80,
            Mnemonic::Cmova => 77,
            Mnemonic::Cmovae => 78,
            Mnemonic::Cmovs => 92,
            Mnemonic::Cmovns => 89,
            Mnemonic::Xchg => 1509,
            Mnemonic::Lea => 374,
            Mnemonic::Push => 640,
            Mnemonic::Pop => 590,
            Mnemonic::Add => 7,
            Mnemonic::Sub => 740,
            Mnemonic::Imul => 277,
            Mnemonic::Mul => 456,
            Mnemonic::Idiv => 276,
            Mnemonic::Div => 138,
            Mnemonic::Inc => 279,
            Mnemonic::Dec => 137,
            Mnemonic::Neg => 464,
            Mnemonic::And => 21,
            Mnemonic::Or => 467,
            Mnemonic::Xor => 1518,
            Mnemonic::Not => 466,
            Mnemonic::Shl => 712,
            Mnemonic::Sal => 676,
            Mnemonic::Shr => 715,
            Mnemonic::Sar => 678,
            Mnemonic::Cmp => 93,
            Mnemonic::Test => 751,
            Mnemonic::Sete => 690,
            Mnemonic::Setne => 695,
            Mnemonic::Setl => 693,
            Mnemonic::Setle => 694,
            Mnemonic::Setg => 691,
            Mnemonic::Setge => 692,
            Mnemonic::Setb => 688,
            Mnemonic::Setbe => 689,
            Mnemonic::Seta => 686,
            Mnemonic::Setae => 687,
            Mnemonic::Call => 59,
            Mnemonic::Ret => 662,
            Mnemonic::Retf => 663,
            Mnemonic::Iret => 296,
            Mnemonic::Iretd => 1618,
            Mnemonic::Iretq => 1619,
            Mnemonic::Jmp => 308,
            Mnemonic::Je => 302,
            Mnemonic::Jne => 310,
            Mnemonic::Jl => 306,
            Mnemonic::Jle => 307,
            Mnemonic::Jg => 304,
            Mnemonic::Jge => 305,
            Mnemonic::Jb => 299,
            Mnemonic::Jbe => 300,
            Mnemonic::Ja => 297,
            Mnemonic::Jae => 298,
            Mnemonic::Js => 317,
            Mnemonic::Jns => 313,
            Mnemonic::Jo => 314,
            Mnemonic::Jno => 311,
            Mnemonic::Jp => 315,
            Mnemonic::Jnp => 312,
            Mnemonic::Jcxz => 301,
            Mnemonic::Jecxz => 303,
            Mnemonic::Jrcxz => 316,
            Mnemonic::Loop => 390,
            Mnemonic::Loope => 391,
            Mnemonic::Loopne => 392,
            Mnemonic::Cdq => 61,
            Mnemonic::Cqo => 107,
            Mnemonic::Leave => 375,
            Mnemonic::Endbr32 => 151,
            Mnemonic::Endbr64 => 152,
            Mnemonic::Other(code) => code,
        }
    }

    pub fn from_code(code: u16) -> (value: Self)
        ensures
            value == Mnemonic::of_number(code),
    {
        match code {
            465 => Mnemonic::Nop,
            414 => Mnemonic::Mov,
            450 => Mnemonic::Movsx,
            451 => Mnemonic::Movsxd,
            454 => Mnemonic::Movzx,
            81 => Mnemonic::Cmove,
            86 => Mnemonic::Cmovne,
            84 => Mnemonic::Cmovl,
            85 => Mnemonic::Cmovle,
            82 => Mnemonic::Cmovg,
            83 => Mnemonic::Cmovge,
            79 => Mnemonic::Cmovb,
            80 => Mnemonic::Cmovbe,
            77 => Mnemonic::Cmova,
            78 => Mnemonic::Cmovae,
            92 => Mnemonic::Cmovs,
            89 => Mnemonic::Cmovns,
            1509 => Mnemonic::Xchg,
            374 => Mnemonic::Lea,
            640 => Mnemonic::Push,
            590 => Mnemonic::Pop,
            7 => Mnemonic::Add,
            740 => Mnemonic::Sub,
            277 => Mnemonic::Imul,
            456 => Mnemonic::Mul,
            276 => Mnemonic::Idiv,
            138 => Mnemonic::Div,
            279 => Mnemonic::Inc,
            137 => Mnemonic::Dec,
            464 => Mnemonic::Neg,
            21 => Mnemonic::And,
            467 => Mnemonic::Or,
            1518 => Mnemonic::Xor,
            466 => Mnemonic::Not,
            712 => Mnemonic::Shl,
            676 => Mnemonic::Sal,
            715 => Mnemonic::Shr,
            678 => Mnemonic::Sar,
            93 => Mnemonic::Cmp,
            751 => Mnemonic::Test,
            690 => Mnemonic::Sete,
            695 => Mnemonic::Setne,
            693 => Mnemonic::Setl,
            694 => Mnemonic::Setle,
            691 => Mnemonic::Setg,
            692 => Mnemonic::Setge,
            688 => Mnemonic::Setb,
            689 => Mnemonic::Setbe,
            686 => Mnemonic::Seta,
            687 => Mnemonic::Setae,
            59 => Mnemonic::Call,
            662 => Mnemonic::Ret,
            663 => Mnemonic::Retf,
            296 => Mnemonic::Iret,
            1618 => Mnemonic::Iretd,
            1619 => Mnemonic::Iretq,
            308 => Mnemonic::Jmp,
            302 => Mnemonic::Je,
            310 => Mnemonic::Jne,
            306 => Mnemonic::Jl,
            307 => Mnemonic::Jle,
            304 => Mnemonic::Jg,
            305 => Mnemonic::Jge,
            299 => Mnemonic::Jb,
            300 => Mnemonic::Jbe,
            297 => Mnemonic::Ja,
            298 => Mnemonic::Jae,
            317 => Mnemonic::Js,
            313 => Mnemonic::Jns,
            314 => Mnemonic::Jo,
            311 => Mnemonic::Jno,
            315 => Mnemonic::Jp,
            312 => Mnemonic::Jnp,
            301 => Mnemonic::Jcxz,
            303 => Mnemonic::Jecxz,
            316 => Mnemonic::Jrcxz,
            390 => Mnemonic::Loop,
            391 => Mnemonic::Loope,
            392 => Mnemonic::Loopne,
            61 => Mnemonic::Cdq,
            107 => Mnemonic::Cqo,
            375 => Mnemonic::Leave,
            151 => Mnemonic::Endbr32,
            152 => Mnemonic::Endbr64,
            _ => Mnemonic::Other(code),
        }
    }

    /// No two numbers stand for the same thing.
    pub proof fn lemma_number_of_number(code: u16)
        ensures
            Mnemonic::of_number(code).number() == code,
    {
    }
}

/// A register.
#[derive(Debug, Clone, Copy, PartialEq, Eq, Structural)]
pub enum Register {
    NoRegister,
    AL,
    CL,
    DL,
    BL,
    AH,
    CH,
    DH,
    BH,
    SPL,
    BPL,
    SIL,
    DIL,
    R8L,
    R9L,
    R10L,
    R11L,
    R12L,
    R13L,
    R14L,
    R15L,
    AX,
    CX,
    DX,
    BX,
    SP,
    BP,
    SI,
    DI,
    R8W,
    R9W,
    R10W,
    R11W,
    R12W,
    R13W,
    R14W,
    R15W,
    EAX,
    ECX,
    EDX,
    EBX,
    ESP,
    EBP,
    ESI,
    EDI,
    R8D,
    R9D,
    R10D,
    R11D,
    R12D,
    R13D,
    R14D,
    R15D,
    RAX,
    RCX,
    RDX,
    RBX,
    RSP,
    RBP,
    RSI,
    RDI,
    R8,
    R9,
    R10,
    R11,
    R12,
    R13,
    R14,
    R15,
    EIP,
    RIP,
    /// Any other register.
    Other(u16),
}

impl Register {
    /// The number by which the decoder knows it.
    pub open spec fn number(self) -> u16 {
        match self {
            Register::NoRegister => 0u16,
            Register::AL => 1u16,
            Register::CL => 2u16,
            Register::DL => 3u16,
            Register::BL => 4u16,
            Register::AH => 5u16,
            Register::CH => 6u16,
            Register::DH => 7u16,
            Register::BH => 8u16,
            Register::SPL => 9u16,
            Register::BPL => 10u16,
            Register::SIL => 11u16,
            Register::DIL => 12u16,
            Register::R8L => 13u16,
            Register::R9L => 14u16,
            Register::R10L => 15u16,
            Register::R11L => 16u16,
            Register::R12L => 17u16,
            Register::R13L => 18u16,
            Register::R14L => 19u16,
            Register::R15L => 20u16,
            Register::AX => 21u16,
            Register::CX => 22u16,
            Register::DX => 23u16,
            Register::BX => 24u16,
            Register::SP => 25u16,
            Register::BP => 26u16,
            Register::SI => 27u16,
            Register::DI => 28u16,
            Register::R8W => 29u16,
            Register::R9W => 30u16,
            Register::R10W => 31u16,
            Register::R11W => 32u16,
            Register::R12W => 33u16,
            Register::R13W => 34u16,
            Register::R14W => 35u16,
            Register::R15W => 36u16,
            Register::EAX => 37u16,
            Register::ECX => 38u16,
            Register::EDX => 39u16,
            Register::EBX => 40u16,
            Register::ESP => 41u16,
            Register::EBP => 42u16,
            Register::ESI => 43u16,
            Register::EDI => 44u16,
            Register::R8D => 45u16,
            Register::R9D => 46u16,
            Register::R10D => 47u16,
            Register::R11D => 48u16,
            Register::R12D => 49u16,
            Register::R13D => 50u16,
            Register::R14D => 51u16,
            Register::R15D => 52u16,
            Register::RAX => 53u16,
            Register::RCX => 54u16,
            Register::RDX => 55u16,
            Register::RBX => 56u16,
            Register::RSP => 57u16,
            Register::RBP => 58u16,
            Register::RSI => 59u16,
            Register::RDI => 60u16,
            Register::R8 => 61u16,
            Register::R9 => 62u16,
            Register::R10 => 63u16,
            Register::R11 => 64u16,
            Register::R12 => 65u16,
            Register::R13 => 66u16,
            Register::R14 => 67u16,
            Register::R15 => 68u16,
            Register::EIP => 69u16,
            Register::RIP => 70u16,
            Register::Other(code) => code,
        }
    }

    /// What the decoder knows by the number.
    pub open spec fn of_number(code: u16) -> Register {
        match code {
            0u16 => Register::NoRegister,
            1u16 => Register::AL,
            2u16 => Register::CL,
            3u16 => Register::DL,
            4u16 => Register::BL,
            5u16 => Register::AH,
            6u16 => Register::CH,
            7u16 => Register::DH,
            8u16 => Register::BH,
            9u16 => Register::SPL,
            10u16 => Register::BPL,
            11u16 => Register::SIL,
            12u16 => Register::DIL,
            13u16 => Register::R8L,
            14u16 => Register::R9L,
            15u16 => Register::R10L,
            16u16 => Register::R11L,
            17u16 => Register::R12L,
            18u16 => Register::R13L,
            19u16 => Register::R14L,
            20u16 => Register::R15L,
            21u16 => Register::AX,
            22u16 => Register::CX,
            23u16 => Register::DX,
            24u16 => Register::BX,
            25u16 => Register::SP,
            26u16 => Register::BP,
            27u16 => Register::SI,
            28u16 => Register::DI,
            29u16 => Register::R8W,
            30u16 => Register::R9W,
            31u16 => Register::R10W,
            32u16 => Register::R11W,
            33u16 => Register::R12W,
            34u16 => Register::R13W,
            35u16 => Register::R14W,
            36u16 => Register::R15W,
            37u16 => Register::EAX,
            38u16 => Register::ECX,
            39u16 => Register::EDX,
            40u16 => Register::EBX,
            41u16 => Register::ESP,
            42u16 => Register::EBP,
            43u16 => Register::ESI,
            44u16 => Register::EDI,
            45u16 => Register::R8D,
            46u16 => Register::R9D,
            47u16 => Register::R10D,
            48u16 => Register::R11D,
            49u16 => Register::R12D,
            50u16 => Register::R13D,
            51u16 => Register::R14D,
            52u16 => Register::R15D,
            53u16 => Register::RAX,
            54u16 => Register::RCX,
            55u16 => Register::RDX,
            56u16 => Register::RBX,
            57u16 => Register::RSP,
            58u16 => Register::RBP,
            59u16 => Register::RSI,
            60u16 => Register::RDI,
            61u16 => Register::R8,
            62u16 => Register::R9,
            63u16 => Register::R10,
            64u16 => Register::R11,
            65u16 => Register::R12,
            66u16 => Register::R13,
            67u16 => Register::R14,
            68u16 => Register::R15,
            69u16 => Register::EIP,
            70u16 => Register::RIP,
            _ => Register::Other(code),
        }
    }

    pub fn code(self) -> (code: u16)
        ensures
            code == self.number(),
    {
        match self {
            Register::NoRegister => 0,
            Register::AL => 1,
            Register::CL => 2,
            Register::DL => 3,
            Register::BL => 4,
            Register::AH => 5,
            Register::CH => 6,
            Register::DH => 7,
            Register::BH => 8,
            Register::SPL => 9,
            Register::BPL => 10,
            Register::SIL => 11,
            Register::DIL => 12,
            Register::R8L => 13,
            Register::R9L => 14,
            Register::R10L => 15,
            Register::R11L => 16,
            Register::R12L => 17,
            Register::R13L => 18,
            Register::R14L => 19,
            Register::R15L => 20,
            Register::AX => 21,
            Register::CX => 22,
            Register::DX => 23,
            Register::BX => 24,
            Register::SP => 25,
            Register::BP => 26,
            Register::SI => 27,
            Register::DI => 28,
            Register::R8W => 29,
            Register::R9W => 30,
            Register::R10W => 31,
            Register::R11W => 32,
            Register::R12W => 33,
            Register::R13W => 34,
            Register::R14W => 35,
            Register::R15W => 36,
            Register::EAX => 37,
            Register::ECX => 38,
            Register::EDX => 39,
            Register::EBX => 40,
            Register::ESP => 41,
            Register::EBP => 42,
            Register::ESI => 43,
            Register::EDI => 44,
            Register::R8D => 45,
            Register::R9D => 46,
            Register::R10D => 47,
            Register::R11D => 48,
            Register::R12D => 49,
            Register::R13D => 50,
            Register::R14D => 51,
            Register::R15D => 52,
            Register::RAX => 53,
            Register::RCX => 54,
            Register::RDX => 55,
            Register::RBX => 56,
            Register::RSP => 57,
            Register::RBP => 58,
            Register::RSI => 59,
            Register::RDI => 60,
            Register::R8 => 61,
            Register::R9 => 62,
            Register::R10 => 63,
            Register::R11 => 64,
            Register::R12 => 65,
            Register::R13 => 66,
            Register::R14 => 67,
            Register::R15 => 68,
            Register::EIP => 69,
            Register::RIP => 70,
            Register::Other(code) => code,
        }
    }

    pub fn from_code(code: u16) -> (value: Self)
        ensures
            value == Register::of_number(code),
    {
        match code {
            0 => Register::NoRegister,
            1 => Register::AL,
            2 => Register::CL,
            3 => Register::DL,
            4 => Register::BL,
            5 => Register::AH,
            6 => Register::CH,
            7 => Register::DH,
            8 => Register::BH,
            9 => Register::SPL,
            10 => Register::BPL,
            11 => Register::SIL,
            12 => Register::DIL,
            13 => Register::R8L,
            14 => Register::R9L,
            15 => Register::R10L,
            16 => Register::R11L,
            17 => Register::R12L,
            18 => Register::R13L,
            19 => Register::R14L,
            20 => Register::R15L,
            21 => Register::AX,
            22 => Register::CX,
            23 => Register::DX,
            24 => Register::BX,
            25 => Register::SP,
            26 => Register::BP,
            27 => Register::SI,
            28 => Register::DI,
            29 => Register::R8W,
            30 => Register::R9W,
            31 => Register::R10W,
            32 => Register::R11W,
            33 => Register::R12W,
            34 => Register::R13W,
            35 => Register::R14W,
            36 => Register::R15W,
            37 => Register::EAX,
            38 => Register::ECX,
            39 => Register::EDX,
            40 => Register::EBX,
            41 => Register::ESP,
            42 => Register::EBP,
            43 => Register::ESI,
            44 => Register::EDI,
            45 => Register::R8D,
            46 => Register::R9D,
            47 => Register::R10D,
            48 => Register::R11D,
            49 => Register::R12D,
            50 => Register::R13D,
            51 => Register::R14D,
            52 => Register::R15D,
            53 => Register::RAX,
            54 => Register::RCX,
            55 => Register::RDX,
            56 => Register::RBX,
            57 => Register::RSP,
            58 => Register::RBP,
            59 => Register::RSI,
            60 => Register::RDI,
            61 => Register::R8,
            62 => Register::R9,
            63 => Register::R10,
            64 => Register::R11,
            65 => Register::R12,
            66 => Register::R13,
            67 => Register::R14,
            68 => Register::R15,
            69 => Register::EIP,
            70 => Register::RIP,
            _ => Register::Other(code),
        }
    }

    /// No two numbers stand for the same thing.
    pub proof fn lemma_number_of_number(code: u16)
        ensures
            Register::of_number(code).number() == code,
    {
    }
}

/// What an operand is.
#[derive(Debug, Clone, Copy, PartialEq, Eq, Structural)]
pub enum OpKind {
    Register,
    NearBranch16,
    NearBranch32,
    NearBranch64,
    Immediate8,
    Immediate8Second,
    Immediate16,
    Immediate32,
    Immediate64,
    Immediate8to16,
    Immediate8to32,
    Immediate8to64,
    Immediate32to64,
    Memory,
    /// Any other kind of operand.
    Other(u8),
}

impl OpKind {
    /// The number by which the decoder knows it.
    pub open spec fn number(self) -> u8 {
        match self {
            OpKind::Register => 0u8,
            OpKind::NearBranch16 => 1u8,
            OpKind::NearBranch32 => 2u8,
            OpKind::NearBranch64 => 3u8,
            OpKind::Immediate8 => 6u8,
            OpKind::Immediate8Second => 7u8,
            OpKind::Immediate16 => 8u8,
            OpKind::Immediate32 => 9u8,
            OpKind::Immediate64 => 10u8,
            OpKind::Immediate8to16 => 11u8,
            OpKind::Immediate8to32 => 12u8,
            OpKind::Immediate8to64 => 13u8,
            OpKind::Immediate32to64 => 14u8,
            OpKind::Memory => 24u8,
            OpKind::Other(code) => code,
        }
    }

    /// What the decoder knows by the number.
    pub open spec fn of_number(code: u8) -> OpKind {
        match code {
            0u8 => OpKind::Register,
            1u8 => OpKind::NearBranch16,
            2u8 => OpKind::NearBranch32,
            3u8 => OpKind::NearBranch64,
            6u8 => OpKind::Immediate8,
            7u8 => OpKind::Immediate8Second,
            8u8 => OpKind::Immediate16,
            9u8 => OpKind::Immediate32,
            10u8 => OpKind::Immediate64,
            11u8 => OpKind::Immediate8to16,
            12u8 => OpKind::Immediate8to32,
            13u8 => OpKind::Immediate8to64,
            14u8 => OpKind::Immediate32to64,
            24u8 => OpKind::Memory,
            _ => OpKind::Other(code),
        }
    }

    pub fn code(self) -> (code: u8)
        ensures
            code == self.number(),
    {
        match self {
            OpKind::Register => 0,
            OpKind::NearBranch16 => 1,
            OpKind::NearBranch32 => 2,
            OpKind::NearBranch64 => 3,
            OpKind::Immediate8 => 6,
            OpKind::Immediate8Second => 7,
            OpKind::Immediate16 => 8,
            OpKind::Immediate32 => 9,
            OpKind::Immediate64 => 10,
            OpKind::Immediate8to16 => 11,
            OpKind::Immediate8to32 => 12,
            OpKind::Immediate8to64 => 13,
            OpKind::Immediate32to64 => 14,
            OpKind::Memory => 24,
            OpKind::Other(code) => code,
        }
    }

    pub fn from_code(code: u8) -> (value: Self)
        ensures
            value == OpKind::of_number(code),
    {
        match code {
            0 => OpKind::Register,
            1 => OpKind::NearBranch16,
            2 => OpKind::NearBranch32,
            3 => OpKind::NearBranch64,
            6 => OpKind::Immediate8,
            7 => OpKind::Immediate8Second,
            8 => OpKind::Immediate16,
            9 => OpKind::Immediate32,
            10 => OpKind::Immediate64,
            11 => OpKind::Immediate8to16,
            12 => OpKind::Immediate8to32,
            13 => OpKind::Immediate8to64,
            14 => OpKind::Immediate32to64,
            24 => OpKind::Memory,
            _ => OpKind::Other(code),
        }
    }

    /// No two numbers stand for the same thing.
    pub proof fn lemma_number_of_number(code: u8)
        ensures
            OpKind::of_number(code).number() == code,
    {
    }
}

/// The size and type of a memory operand.
#[derive(Debug, Clone, Copy, PartialEq, Eq, Structural)]
pub enum MemorySize {
    UInt8,
    UInt16,
    UInt32,
    Int8,
    Int16,
    Int32,
    WordOffset,
    DwordOffset,
    /// Any other size.
    Other(u8),
}

impl MemorySize {
    /// The number by which the decoder knows it.
    pub open spec fn number(self) -> u8 {
        match self {
            MemorySize::UInt8 => 1u8,
            MemorySize::UInt16 => 2u8,
            MemorySize::UInt32 => 3u8,
            MemorySize::Int8 => 9u8,
            MemorySize::Int16 => 10u8,
            MemorySize::Int32 => 11u8,
            MemorySize::WordOffset => 19u8,
            MemorySize::DwordOffset => 20u8,
            MemorySize::Other(code) => code,
        }
    }

    /// What the decoder knows by the number.
    pub open spec fn of_number(code: u8) -> MemorySize {
        match code {
            1u8 => MemorySize::UInt8,
            2u8 => MemorySize::UInt16,
            3u8 => MemorySize::UInt32,
            9u8 => MemorySize::Int8,
            10u8 => MemorySize::Int16,
            11u8 => MemorySize::Int32,
            19u8 => MemorySize::WordOffset,
            20u8 => MemorySize::DwordOffset,
            _ => MemorySize::Other(code),
        }
    }

    pub fn code(self) -> (code: u8)
        ensures
            code == self.number(),
    {
        match self {
            MemorySize::UInt8 => 1,
            MemorySize::UInt16 => 2,
            MemorySize::UInt32 => 3,
            MemorySize::Int8 => 9,
            MemorySize::Int16 => 10,
            MemorySize::Int32 => 11,
            MemorySize::WordOffset => 19,
            MemorySize::DwordOffset => 20,
            MemorySize::Other(code) => code,
        }
    }

    pub fn from_code(code: u8) -> (value: Self)
        ensures
            value == MemorySize::of_number(code),
    {
        match code {
            1 => MemorySize::UInt8,
            2 => MemorySize::UInt16,
            3 => MemorySize::UInt32,
            9 => MemorySize::Int8,
            10 => MemorySize::Int16,
            11 => MemorySize::Int32,
            19 => MemorySize::WordOffset,
            20 => MemorySize::DwordOffset,
            _ => MemorySize::Other(code),
        }
    }

    /// No two numbers stand for the same thing.
    pub proof fn lemma_number_of_number(code: u8)
        ensures
            MemorySize::of_number(code).number() == code,
    {
    }
}

/// One operand of an instruction.
#[derive(Debug, Clone, Copy, PartialEq, Eq, Structural)]
pub struct Operand {
    pub kind: OpKind,
    /// The register of a register operand
    pub register: Register,
    /// The value of an immediate operand, extended to 64 bits; 0 for any other operand
    pub immediate: u64,
}

/// The memory operand of an instruction: base + index * scale + displacement.
#[derive(Debug, Clone, Copy, PartialEq, Eq, Structural)]
pub struct Memory {
    pub base: Register,
    pub index: Register,
    pub scale: u32,
    pub displacement: u64,
    pub size: MemorySize,
}

/// A decoded instruction. An operand that it does not have is a register operand without a
/// register.
#[derive(Debug, Clone, Copy, PartialEq, Eq, Structural)]
pub struct Instr {
    /// Address
    pub ip: u64,
    /// Number of bytes
    pub len: usize,
    /// Address of the instruction behind it
    pub next_ip: u64,
    pub mnemonic: Mnemonic,
    pub op_count: u32,
    pub op0: Operand,
    pub op1: Operand,
    pub op2: Operand,
    /// Target of a near branch, else 0
    pub near_branch_target: u64,
    pub memory: Memory,
}

impl Instr {
    /// The operand with the given number: 0, 1 or 2.
    pub open spec fn operand(self, n: int) -> Operand {
        if n == 0 {
            self.op0
        } else if n == 1 {
            self.op1
        } else {
            self.op2
        }
    }

    pub fn op(&self, n: u32) -> (operand: Operand)
        requires
            n < 3,
        ensures
            operand == self.operand(n as int),
    {
        match n {
            0 => self.op0,
            1 => self.op1,
            _ => self.op2,
        }
    }
}

} // verus!

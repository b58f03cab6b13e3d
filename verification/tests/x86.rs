use simple_decompiler::x86::decode::decode;
use simple_decompiler::x86::{MemorySize, Mnemonic, OpKind, Register};

#[test]
fn mnemonics_have_the_decoders_numbers() {
    let pairs = [
        (Mnemonic::Nop, iced_x86::Mnemonic::Nop),
        (Mnemonic::Mov, iced_x86::Mnemonic::Mov),
        (Mnemonic::Movsx, iced_x86::Mnemonic::Movsx),
        (Mnemonic::Movsxd, iced_x86::Mnemonic::Movsxd),
        (Mnemonic::Movzx, iced_x86::Mnemonic::Movzx),
        (Mnemonic::Cmove, iced_x86::Mnemonic::Cmove),
        (Mnemonic::Cmovne, iced_x86::Mnemonic::Cmovne),
        (Mnemonic::Cmovl, iced_x86::Mnemonic::Cmovl),
        (Mnemonic::Cmovle, iced_x86::Mnemonic::Cmovle),
        (Mnemonic::Cmovg, iced_x86::Mnemonic::Cmovg),
        (Mnemonic::Cmovge, iced_x86::Mnemonic::Cmovge),
        (Mnemonic::Cmovb, iced_x86::Mnemonic::Cmovb),
        (Mnemonic::Cmovbe, iced_x86::Mnemonic::Cmovbe),
        (Mnemonic::Cmova, iced_x86::Mnemonic::Cmova),
        (Mnemonic::Cmovae, iced_x86::Mnemonic::Cmovae),
        (Mnemonic::Cmovs, iced_x86::Mnemonic::Cmovs),
        (Mnemonic::Cmovns, iced_x86::Mnemonic::Cmovns),
        (Mnemonic::Xchg, iced_x86::Mnemonic::Xchg),
        (Mnemonic::Lea, iced_x86::Mnemonic::Lea),
        (Mnemonic::Push, iced_x86::Mnemonic::Push),
        (Mnemonic::Pop, iced_x86::Mnemonic::Pop),
        (Mnemonic::Add, iced_x86::Mnemonic::Add),
        (Mnemonic::Sub, iced_x86::Mnemonic::Sub),
        (Mnemonic::Imul, iced_x86::Mnemonic::Imul),
        (Mnemonic::Mul, iced_x86::Mnemonic::Mul),
        (Mnemonic::Idiv, iced_x86::Mnemonic::Idiv),
        (Mnemonic::Div, iced_x86::Mnemonic::Div),
        (Mnemonic::Inc, iced_x86::Mnemonic::Inc),
        (Mnemonic::Dec, iced_x86::Mnemonic::Dec),
        (Mnemonic::Neg, iced_x86::Mnemonic::Neg),
        (Mnemonic::And, iced_x86::Mnemonic::And),
        (Mnemonic::Or, iced_x86::Mnemonic::Or),
        (Mnemonic::Xor, iced_x86::Mnemonic::Xor),
        (Mnemonic::Not, iced_x86::Mnemonic::Not),
        (Mnemonic::Shl, iced_x86::Mnemonic::Shl),
        (Mnemonic::Sal, iced_x86::Mnemonic::Sal),
        (Mnemonic::Shr, iced_x86::Mnemonic::Shr),
        (Mnemonic::Sar, iced_x86::Mnemonic::Sar),
        (Mnemonic::Cmp, iced_x86::Mnemonic::Cmp),
        (Mnemonic::Test, iced_x86::Mnemonic::Test),
        (Mnemonic::Sete, iced_x86::Mnemonic::Sete),
        (Mnemonic::Setne, iced_x86::Mnemonic::Setne),
        (Mnemonic::Setl, iced_x86::Mnemonic::Setl),
        (Mnemonic::Setle, iced_x86::Mnemonic::Setle),
        (Mnemonic::Setg, iced_x86::Mnemonic::Setg),
        (Mnemonic::Setge, iced_x86::Mnemonic::Setge),
        (Mnemonic::Setb, iced_x86::Mnemonic::Setb),
        (Mnemonic::Setbe, iced_x86::Mnemonic::Setbe),
        (Mnemonic::Seta, iced_x86::Mnemonic::Seta),
        (Mnemonic::Setae, iced_x86::Mnemonic::Setae),
        (Mnemonic::Call, iced_x86::Mnemonic::Call),
        (Mnemonic::Ret, iced_x86::Mnemonic::Ret),
        (Mnemonic::Retf, iced_x86::Mnemonic::Retf),
        (Mnemonic::Iret, iced_x86::Mnemonic::Iret),
        (Mnemonic::Iretd, iced_x86::Mnemonic::Iretd),
        (Mnemonic::Iretq, iced_x86::Mnemonic::Iretq),
        (Mnemonic::Jmp, iced_x86::Mnemonic::Jmp),
        (Mnemonic::Je, iced_x86::Mnemonic::Je),
        (Mnemonic::Jne, iced_x86::Mnemonic::Jne),
        (Mnemonic::Jl, iced_x86::Mnemonic::Jl),
        (Mnemonic::Jle, iced_x86::Mnemonic::Jle),
        (Mnemonic::Jg, iced_x86::Mnemonic::Jg),
        (Mnemonic::Jge, iced_x86::Mnemonic::Jge),
        (Mnemonic::Jb, iced_x86::Mnemonic::Jb),
        (Mnemonic::Jbe, iced_x86::Mnemonic::Jbe),
        (Mnemonic::Ja, iced_x86::Mnemonic::Ja),
        (Mnemonic::Jae, iced_x86::Mnemonic::Jae),
        (Mnemonic::Js, iced_x86::Mnemonic::Js),
        (Mnemonic::Jns, iced_x86::Mnemonic::Jns),
        (Mnemonic::Jo, iced_x86::Mnemonic::Jo),
        (Mnemonic::Jno, iced_x86::Mnemonic::Jno),
        (Mnemonic::Jp, iced_x86::Mnemonic::Jp),
        (Mnemonic::Jnp, iced_x86::Mnemonic::Jnp),
        (Mnemonic::Jcxz, iced_x86::Mnemonic::Jcxz),
        (Mnemonic::Jecxz, iced_x86::Mnemonic::Jecxz),
        (Mnemonic::Jrcxz, iced_x86::Mnemonic::Jrcxz),
        (Mnemonic::Loop, iced_x86::Mnemonic::Loop),
        (Mnemonic::Loope, iced_x86::Mnemonic::Loope),
        (Mnemonic::Loopne, iced_x86::Mnemonic::Loopne),
        (Mnemonic::Cdq, iced_x86::Mnemonic::Cdq),
        (Mnemonic::Cqo, iced_x86::Mnemonic::Cqo),
        (Mnemonic::Leave, iced_x86::Mnemonic::Leave),
        (Mnemonic::Endbr32, iced_x86::Mnemonic::Endbr32),
        (Mnemonic::Endbr64, iced_x86::Mnemonic::Endbr64),
    ];
    for (ours, theirs) in pairs {
        assert_eq!(ours.code(), theirs as u16);
        assert_eq!(Mnemonic::from_code(theirs as u16), ours);
    }
}

#[test]
fn registers_have_the_decoders_numbers() {
    let pairs = [
        (Register::NoRegister, iced_x86::Register::None),
        (Register::AL, iced_x86::Register::AL),
        (Register::CL, iced_x86::Register::CL),
        (Register::DL, iced_x86::Register::DL),
        (Register::BL, iced_x86::Register::BL),
        (Register::AH, iced_x86::Register::AH),
        (Register::CH, iced_x86::Register::CH),
        (Register::DH, iced_x86::Register::DH),
        (Register::BH, iced_x86::Register::BH),
        (Register::SPL, iced_x86::Register::SPL),
        (Register::BPL, iced_x86::Register::BPL),
        (Register::SIL, iced_x86::Register::SIL),
        (Register::DIL, iced_x86::Register::DIL),
        (Register::R8L, iced_x86::Register::R8L),
        (Register::R9L, iced_x86::Register::R9L),
        (Register::R10L, iced_x86::Register::R10L),
        (Register::R11L, iced_x86::Register::R11L),
        (Register::R12L, iced_x86::Register::R12L),
        (Register::R13L, iced_x86::Register::R13L),
        (Register::R14L, iced_x86::Register::R14L),
        (Register::R15L, iced_x86::Register::R15L),
        (Register::AX, iced_x86::Register::AX),
        (Register::CX, iced_x86::Register::CX),
        (Register::DX, iced_x86::Register::DX),
        (Register::BX, iced_x86::Register::BX),
        (Register::SP, iced_x86::Register::SP),
        (Register::BP, iced_x86::Register::BP),
        (Register::SI, iced_x86::Register::SI),
        (Register::DI, iced_x86::Register::DI),
        (Register::R8W, iced_x86::Register::R8W),
        (Register::R9W, iced_x86::Register::R9W),
        (Register::R10W, iced_x86::Register::R10W),
        (Register::R11W, iced_x86::Register::R11W),
        (Register::R12W, iced_x86::Register::R12W),
        (Register::R13W, iced_x86::Register::R13W),
        (Register::R14W, iced_x86::Register::R14W),
        (Register::R15W, iced_x86::Register::R15W),
        (Register::EAX, iced_x86::Register::EAX),
        (Register::ECX, iced_x86::Register::ECX),
        (Register::EDX, iced_x86::Register::EDX),
        (Register::EBX, iced_x86::Register::EBX),
        (Register::ESP, iced_x86::Register::ESP),
        (Register::EBP, iced_x86::Register::EBP),
        (Register::ESI, iced_x86::Register::ESI),
        (Register::EDI, iced_x86::Register::EDI),
        (Register::R8D, iced_x86::Register::R8D),
        (Register::R9D, iced_x86::Register::R9D),
        (Register::R10D, iced_x86::Register::R10D),
        (Register::R11D, iced_x86::Register::R11D),
        (Register::R12D, iced_x86::Register::R12D),
        (Register::R13D, iced_x86::Register::R13D),
        (Register::R14D, iced_x86::Register::R14D),
        (Register::R15D, iced_x86::Register::R15D),
        (Register::RAX, iced_x86::Register::RAX),
        (Register::RCX, iced_x86::Register::RCX),
        (Register::RDX, iced_x86::Register::RDX),
        (Register::RBX, iced_x86::Register::RBX),
        (Register::RSP, iced_x86::Register::RSP),
        (Register::RBP, iced_x86::Register::RBP),
        (Register::RSI, iced_x86::Register::RSI),
        (Register::RDI, iced_x86::Register::RDI),
        (Register::R8, iced_x86::Register::R8),
        (Register::R9, iced_x86::Register::R9),
        (Register::R10, iced_x86::Register::R10),
        (Register::R11, iced_x86::Register::R11),
        (Register::R12, iced_x86::Register::R12),
        (Register::R13, iced_x86::Register::R13),
        (Register::R14, iced_x86::Register::R14),
        (Register::R15, iced_x86::Register::R15),
        (Register::EIP, iced_x86::Register::EIP),
        (Register::RIP, iced_x86::Register::RIP),
    ];
    for (ours, theirs) in pairs {
        assert_eq!(ours.code(), theirs as u16);
        assert_eq!(Register::from_code(theirs as u16), ours);
    }
}

#[test]
fn operand_kinds_have_the_decoders_numbers() {
    let pairs = [
        (OpKind::Register, iced_x86::OpKind::Register),
        (OpKind::NearBranch16, iced_x86::OpKind::NearBranch16),
        (OpKind::NearBranch32, iced_x86::OpKind::NearBranch32),
        (OpKind::NearBranch64, iced_x86::OpKind::NearBranch64),
        (OpKind::Immediate8, iced_x86::OpKind::Immediate8),
        (OpKind::Immediate8Second, iced_x86::OpKind::Immediate8_2nd),
        (OpKind::Immediate16, iced_x86::OpKind::Immediate16),
        (OpKind::Immediate32, iced_x86::OpKind::Immediate32),
        (OpKind::Immediate64, iced_x86::OpKind::Immediate64),
        (OpKind::Immediate8to16, iced_x86::OpKind::Immediate8to16),
        (OpKind::Immediate8to32, iced_x86::OpKind::Immediate8to32),
        (OpKind::Immediate8to64, iced_x86::OpKind::Immediate8to64),
        (OpKind::Immediate32to64, iced_x86::OpKind::Immediate32to64),
        (OpKind::Memory, iced_x86::OpKind::Memory),
        (OpKind::Other(4), iced_x86::OpKind::FarBranch16),
    ];
    for (ours, theirs) in pairs {
        assert_eq!(ours.code(), theirs as u8);
        assert_eq!(OpKind::from_code(theirs as u8), ours);
        assert_eq!(ours.to_text(), format!("{:?}", theirs));
    }
}

#[test]
fn memory_sizes_have_the_decoders_numbers() {
    let pairs = [
        (MemorySize::UInt8, iced_x86::MemorySize::UInt8),
        (MemorySize::UInt16, iced_x86::MemorySize::UInt16),
        (MemorySize::UInt32, iced_x86::MemorySize::UInt32),
        (MemorySize::Int8, iced_x86::MemorySize::Int8),
        (MemorySize::Int16, iced_x86::MemorySize::Int16),
        (MemorySize::Int32, iced_x86::MemorySize::Int32),
        (MemorySize::WordOffset, iced_x86::MemorySize::WordOffset),
        (MemorySize::DwordOffset, iced_x86::MemorySize::DwordOffset),
        (MemorySize::Other(5), iced_x86::MemorySize::UInt64),
    ];
    for (ours, theirs) in pairs {
        assert_eq!(ours.code(), theirs as u8);
        assert_eq!(MemorySize::from_code(theirs as u8), ours);
    }
}

#[test]
fn every_number_comes_back() {
    for code in 0..=u16::MAX {
        assert_eq!(Mnemonic::from_code(code).code(), code);
        assert_eq!(Register::from_code(code).code(), code);
    }
    for code in 0..=u8::MAX {
        assert_eq!(OpKind::from_code(code).code(), code);
        assert_eq!(MemorySize::from_code(code).code(), code);
    }
}

#[test]
fn names_of_operations() {
    assert_eq!(Mnemonic::Je.to_text(), "Je");
    assert_eq!(Mnemonic::Iretq.to_text(), "Iretq");
    let cpuid = iced_x86::Mnemonic::Cpuid as u16;
    assert_eq!(Mnemonic::from_code(cpuid), Mnemonic::Other(cpuid));
    assert_eq!(Mnemonic::Other(cpuid).to_text(), "Cpuid");
    assert_eq!(Mnemonic::Other(1893).to_text().is_empty(), false);
    assert_eq!(Mnemonic::Other(1894).to_text(), "");
    assert_eq!(OpKind::Other(25).to_text(), "");
}

#[test]
fn decode_mov_with_memory() {
    // mov eax, [rbx+rcx*4+0x10]
    let i = decode(64, &[0x8b, 0x44, 0x8b, 0x10], 0x1000);
    assert_eq!(i.ip, 0x1000);
    assert_eq!(i.len, 4);
    assert_eq!(i.next_ip, 0x1004);
    assert_eq!(i.mnemonic, Mnemonic::Mov);
    assert_eq!(i.op_count, 2);
    assert_eq!(i.op0.kind, OpKind::Register);
    assert_eq!(i.op0.register, Register::EAX);
    assert_eq!(i.op1.kind, OpKind::Memory);
    assert_eq!(i.op(1).kind, OpKind::Memory);
    assert_eq!(i.memory.base, Register::RBX);
    assert_eq!(i.memory.index, Register::RCX);
    assert_eq!(i.memory.scale, 4);
    assert_eq!(i.memory.displacement, 0x10);
    assert_eq!(i.memory.size, MemorySize::UInt32);
    assert_eq!(i.near_branch_target, 0);
}

#[test]
fn decode_immediate_is_sign_extended() {
    // sub rsp, -8
    let i = decode(64, &[0x48, 0x83, 0xec, 0xf8], 0);
    assert_eq!(i.mnemonic, Mnemonic::Sub);
    assert_eq!(i.op1.kind, OpKind::Immediate8to64);
    assert_eq!(i.op1.immediate, 0xffff_ffff_ffff_fff8);
    // an operand that is not there
    assert_eq!(i.op2.kind, OpKind::Register);
    assert_eq!(i.op2.register, Register::NoRegister);
    assert_eq!(i.op2.immediate, 0);
}

#[test]
fn decode_depends_on_bitness() {
    // 0x40 is inc eax in 32-bit code and a prefix in 64-bit code
    let i = decode(32, &[0x40, 0x90], 0);
    assert_eq!(i.mnemonic, Mnemonic::Inc);
    assert_eq!(i.len, 1);
    let i = decode(64, &[0x40, 0x90], 0);
    assert_eq!(i.mnemonic, Mnemonic::Nop);
    assert_eq!(i.len, 2);
}

#[test]
fn decode_call_target() {
    let i = decode(64, &[0xe8, 0x10, 0x00, 0x00, 0x00], 0x400000);
    assert_eq!(i.mnemonic, Mnemonic::Call);
    assert_eq!(i.op0.kind, OpKind::NearBranch64);
    assert_eq!(i.near_branch_target, 0x400015);
}

#[test]
fn decode_of_cut_code_takes_what_is_there() {
    let i = decode(64, &[0xe8, 0x10], 0x10);
    assert_eq!(i.len, 2);
    assert_eq!(i.next_ip, 0x12);
    assert_eq!(i.mnemonic, Mnemonic::from_code(iced_x86::Mnemonic::INVALID as u16));
}

#[test]
fn decode_wraps_at_the_end_of_the_address_space() {
    let i = decode(64, &[0x90], u64::MAX);
    assert_eq!(i.ip, u64::MAX);
    assert_eq!(i.next_ip, 0);
}

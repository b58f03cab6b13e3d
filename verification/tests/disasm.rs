use simple_decompiler::binary::{Arch, LoadedBinary, Section, Symbol};
use simple_decompiler::disasm::kinds::{next_move, Move};
use simple_decompiler::disasm::{
    canonical_reg, is_conditional_branch, is_return, is_unconditional_branch, reg_size,
    Disassembler,
};
use simple_decompiler::x86::decode::decode;
use simple_decompiler::x86::{Mnemonic, Register};

fn section(name: &str, addr: u64, data: &[u8], executable: bool) -> Section {
    Section {
        name: name.to_string(),
        virtual_address: addr,
        data: data.to_vec(),
        executable,
    }
}

fn symbol(name: &str, addr: u64) -> Symbol {
    Symbol { name: name.to_string(), address: addr, size: 0 }
}

fn binary(code: &[u8], symbols: Vec<Symbol>) -> LoadedBinary {
    LoadedBinary {
        arch: Arch::X86_64,
        entry_point: 0x1000,
        sections: vec![section(".text", 0x1000, code, true)],
        symbols,
        imports: vec![],
    }
}

fn addresses(b: &LoadedBinary, start: u64) -> Vec<u64> {
    match Disassembler::new(b).disassemble_function(start, "f".to_string()) {
        Some(f) => f.instrs.iter().map(|i| i.address).collect(),
        None => vec![],
    }
}

#[test]
fn kinds_of_operations() {
    assert!(is_unconditional_branch(Mnemonic::Jmp));
    assert!(!is_unconditional_branch(Mnemonic::Je));
    assert!(!is_unconditional_branch(Mnemonic::Call));
    for m in [Mnemonic::Je, Mnemonic::Jnp, Mnemonic::Jrcxz, Mnemonic::Loop, Mnemonic::Loopne] {
        assert!(is_conditional_branch(m));
    }
    assert!(!is_conditional_branch(Mnemonic::Jmp));
    assert!(!is_conditional_branch(Mnemonic::Sete));
    for m in [Mnemonic::Ret, Mnemonic::Retf, Mnemonic::Iret, Mnemonic::Iretd, Mnemonic::Iretq] {
        assert!(is_return(m));
    }
    assert!(!is_return(Mnemonic::Leave));
}

#[test]
fn registers_and_their_sizes() {
    assert_eq!(canonical_reg(Register::AL), Register::RAX);
    assert_eq!(canonical_reg(Register::BH), Register::RBX);
    assert_eq!(canonical_reg(Register::ECX), Register::RCX);
    assert_eq!(canonical_reg(Register::SIL), Register::RSI);
    assert_eq!(canonical_reg(Register::BP), Register::RBP);
    assert_eq!(canonical_reg(Register::R9D), Register::R9);
    assert_eq!(canonical_reg(Register::R15L), Register::R15);
    assert_eq!(canonical_reg(Register::RDX), Register::RDX);
    assert_eq!(canonical_reg(Register::RIP), Register::RIP);
    assert_eq!(canonical_reg(Register::Other(100)), Register::Other(100));
    assert_eq!(reg_size(Register::AH), 8);
    assert_eq!(reg_size(Register::R10W), 16);
    assert_eq!(reg_size(Register::ESP), 32);
    assert_eq!(reg_size(Register::RSP), 64);
    assert_eq!(reg_size(Register::NoRegister), 64);
}

#[test]
fn sizes_are_those_of_the_decoder() {
    assert_eq!(reg_size(Register::from_code(iced_x86::Register::XMM0 as u16)), 128);
    for r in iced_x86::Register::values() {
        if r.size() > 0 {
            assert_eq!(reg_size(Register::from_code(r as u16)) as usize, 8 * r.size(), "{:?}", r);
        }
    }
}

#[test]
fn canonical_register_is_stable_and_wide() {
    for code in 0..300u16 {
        let r = Register::from_code(code);
        let full = canonical_reg(r);
        assert_eq!(canonical_reg(full), full);
        if full != r {
            assert!(reg_size(r) < 64);
            assert_eq!(reg_size(full), 64);
        }
    }
}

#[test]
fn moves_after_instructions() {
    // jmp +0
    let jmp = decode(64, &[0xeb, 0x00], 0x10);
    assert_eq!(next_move(&jmp, 0, 1, false), Move { target: Some(0x12), stop: true });
    // jmp rax
    let jmp_rax = decode(64, &[0xff, 0xe0], 0x10);
    assert_eq!(next_move(&jmp_rax, 0, 1, false), Move { target: None, stop: true });
    // je -2
    let je = decode(64, &[0x74, 0xfe], 0x10);
    assert_eq!(next_move(&je, 0, 1, false), Move { target: Some(0x10), stop: false });
    let ret = decode(64, &[0xc3], 0x10);
    assert_eq!(next_move(&ret, 0, 1, false), Move { target: None, stop: true });
    let nop = decode(64, &[0x90], 0x10);
    assert_eq!(next_move(&nop, 0, 1, false), Move { target: None, stop: false });
    // another function starts behind it: not after the first instruction, not its own start
    assert!(!next_move(&nop, 0, 1, true).stop);
    assert!(next_move(&nop, 0, 2, true).stop);
    assert!(!next_move(&nop, 0x11, 2, true).stop);
    // the limit
    assert!(!next_move(&nop, 0, 4096, false).stop);
    assert!(next_move(&nop, 0, 4097, false).stop);
}

#[test]
fn linear_function() {
    // push rbp; mov rbp, rsp; pop rbp; ret; nop
    let b = binary(&[0x55, 0x48, 0x89, 0xe5, 0x5d, 0xc3, 0x90], vec![]);
    let f = Disassembler::new(&b).disassemble_function(0x1000, "main".to_string()).unwrap();
    assert_eq!(f.address, 0x1000);
    assert_eq!(f.name, "main");
    let got: Vec<(u64, Vec<u8>, Mnemonic)> =
        f.instrs.iter().map(|i| (i.address, i.bytes.clone(), i.instr.mnemonic)).collect();
    assert_eq!(
        got,
        vec![
            (0x1000, vec![0x55], Mnemonic::Push),
            (0x1001, vec![0x48, 0x89, 0xe5], Mnemonic::Mov),
            (0x1004, vec![0x5d], Mnemonic::Pop),
            (0x1005, vec![0xc3], Mnemonic::Ret),
        ]
    );
}

#[test]
fn targets_are_followed_and_sorted() {
    // 1000: je 1005; 1002: ret; 1003: nop; 1004: ret; 1005: jmp 1003
    let b = binary(&[0x74, 0x03, 0xc3, 0x90, 0xc3, 0xeb, 0xfc], vec![]);
    assert_eq!(addresses(&b, 0x1000), vec![0x1000, 0x1002, 0x1003, 0x1004, 0x1005]);
}

#[test]
fn backward_targets_come_before_the_start() {
    // 1000: ret; 1001: jmp 1000
    let b = binary(&[0xc3, 0xeb, 0xfd], vec![]);
    assert_eq!(addresses(&b, 0x1001), vec![0x1000, 0x1001]);
}

#[test]
fn targets_outside_the_binary_are_left() {
    // je far away; ret
    let b = binary(&[0x74, 0x70, 0xc3], vec![]);
    assert_eq!(addresses(&b, 0x1000), vec![0x1000, 0x1002]);
}

#[test]
fn no_code_no_function() {
    let b = binary(&[0xc3], vec![]);
    assert!(Disassembler::new(&b).disassemble_function(0x2000, "f".to_string()).is_none());
    assert!(Disassembler::new(&b).disassemble_function(0x1001, "f".to_string()).is_none());
}

#[test]
fn another_symbol_ends_the_function() {
    // nop; nop; nop; ret
    let b = binary(&[0x90, 0x90, 0x90, 0xc3], vec![symbol("g", 0x1002)]);
    assert_eq!(addresses(&b, 0x1000), vec![0x1000, 0x1001]);
    let b = binary(&[0x90, 0x90, 0x90, 0xc3], vec![symbol("g", 0x1001)]);
    assert_eq!(addresses(&b, 0x1000), vec![0x1000, 0x1001, 0x1002, 0x1003]);
}

#[test]
fn sweep_stops_at_the_limit() {
    let b = binary(&vec![0x90u8; 5000], vec![]);
    assert_eq!(addresses(&b, 0x1000).len(), 4097);
}

#[test]
fn call_targets_of_executable_sections() {
    // 1000: call 100a; 1005: call rax; 1007: call 100a
    let code = [0xe8, 5, 0, 0, 0, 0xff, 0xd0, 0xe8, 0xfe, 0xff, 0xff, 0xff];
    let mut b = binary(&code, vec![]);
    b.sections.push(section(".data", 0x3000, &[0xe8, 0, 0, 0, 0], false));
    assert_eq!(Disassembler::new(&b).discover_call_targets(), vec![0x100a, 0x100a]);
}

#[test]
fn entries_by_address_first_name_wins() {
    let b = binary(
        &[0xc3],
        vec![
            symbol("late", 0x1010),
            symbol("", 0x1004),
            symbol("one", 0x1008),
            symbol("two", 0x1008),
        ],
    );
    let targets = vec![0x1008, 0x2000, 0x1004, 0x2000];
    assert_eq!(
        Disassembler::new(&b).find_entries(&targets),
        vec![
            (0x1000, "entry".to_string()),
            (0x1008, "one".to_string()),
            (0x1010, "late".to_string()),
            (0x2000, "sub_2000".to_string()),
        ]
    );
}

#[test]
fn symbol_at_the_entry_point_keeps_its_name() {
    let b = binary(&[0xc3], vec![symbol("start", 0x1000)]);
    assert_eq!(
        Disassembler::new(&b).find_entries(&vec![]),
        vec![(0x1000, "start".to_string())]
    );
}

#[test]
fn all_functions() {
    // 1000: call 1006; 1005: ret; 1006: ret
    let b = binary(&[0xe8, 1, 0, 0, 0, 0xc3, 0xc3], vec![symbol("gone", 0x9000)]);
    let all = Disassembler::new(&b).disassemble_all();
    let got: Vec<(u64, &str, usize)> =
        all.iter().map(|f| (f.address, f.name.as_str(), f.instrs.len())).collect();
    assert_eq!(got, vec![(0x1000, "entry", 2), (0x1006, "sub_1006", 1)]);
}

#[test]
fn thirty_two_bit_code() {
    // inc eax; ret
    let mut b = binary(&[0x40, 0xc3], vec![]);
    b.arch = Arch::X86;
    assert_eq!(addresses(&b, 0x1000), vec![0x1000, 0x1001]);
}

#[test]
fn targets_inside_the_binary_are_instructions() {
    // 1000: je 1008; 1002: jmp 1006; 1004: nop; nop; 1006: jne 1000; 1008: jmp 3000
    let code = [
        0x74, 0x06, 0xeb, 0x02, 0x90, 0x90, 0x75, 0xf8, 0xe9, 0xf3, 0x1f, 0, 0,
    ];
    let b = binary(&code, vec![]);
    let found = addresses(&b, 0x1000);
    assert_eq!(found, vec![0x1000, 0x1002, 0x1006, 0x1008]);
    let f = Disassembler::new(&b).disassemble_function(0x1000, "f".to_string()).unwrap();
    for i in &f.instrs {
        let t = i.instr.near_branch_target;
        assert!(found.contains(&t) || t == 0x3000);
    }
}

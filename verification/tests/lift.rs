use simple_decompiler::analysis::FunctionAnalysis;
use simple_decompiler::binary::{Arch, LoadedBinary, Section};
use simple_decompiler::codegen::generate;
use simple_decompiler::disasm::{DisasmFunction, Disassembler};
use simple_decompiler::ir::lift::{lift, try_lift, Lifter};
use simple_decompiler::ir::{Expr, IrFunction, Stmt, VReg, Width};
use simple_decompiler::x86::{OpKind, Register};

fn disassemble(arch: Arch, code: &[u8], start: u64) -> DisasmFunction {
    let b = LoadedBinary {
        arch,
        entry_point: start,
        sections: vec![Section {
            name: ".text".to_string(),
            virtual_address: 0x1000,
            data: code.to_vec(),
            executable: true,
        }],
        symbols: vec![],
        imports: vec![],
    };
    Disassembler::new(&b).disassemble_function(start, "f".to_string()).unwrap()
}

fn lifted(code: &[u8]) -> IrFunction {
    lift(&disassemble(Arch::X86_64, code, 0x1000), Arch::X86_64)
}

/// The statements of the first block, as they print for debugging.
fn stmts(code: &[u8]) -> Vec<String> {
    lifted(code).blocks[0].stmts.iter().map(|s| format!("{:?}", s)).collect()
}

#[test]
fn mov_between_registers() {
    // mov rax, rdi; ret
    let f = lifted(&[0x48, 0x89, 0xf8, 0xc3]);
    assert_eq!(f.address, 0x1000);
    assert_eq!(f.name, "f");
    assert_eq!(f.param_count, 1);
    assert_eq!(f.frame_size, 0);
    assert_eq!(f.vreg_counter, 2);
    assert_eq!(
        stmts(&[0x48, 0x89, 0xf8, 0xc3]),
        vec![
            "Assign(VReg(1), Reg(VReg(0), W64))",
            "Return(Some(Reg(VReg(1), W64)))",
        ]
    );
}

#[test]
fn narrow_registers_are_cut_and_extended() {
    // mov eax, edi; ret
    assert_eq!(
        stmts(&[0x89, 0xf8, 0xc3]),
        vec![
            "Assign(VReg(1), UnOp(Trunc(W32), Reg(VReg(0), W64)))",
            "Assign(VReg(2), UnOp(ZExt(W64), Reg(VReg(1), W32)))",
            "Assign(VReg(3), Reg(VReg(2), W64))",
            "Return(Some(Reg(VReg(3), W64)))",
        ]
    );
}

#[test]
fn return_without_a_value() {
    assert_eq!(stmts(&[0xc3]), vec!["Return(None)"]);
}

#[test]
fn add_with_immediate_and_memory() {
    // add rax, [rbx+rcx*8+0x10]; ret
    assert_eq!(
        stmts(&[0x48, 0x03, 0x44, 0xcb, 0x10, 0xc3]),
        vec![
            "Assign(VReg(3), BinOp(Mul, Reg(VReg(2), W64), Const(8, W64)))",
            "Assign(VReg(4), BinOp(Add, Reg(VReg(1), W64), Reg(VReg(3), W64)))",
            "Assign(VReg(5), BinOp(Add, Reg(VReg(4), W64), Const(16, W64)))",
            "Assign(VReg(6), BinOp(Add, Reg(VReg(0), W64), Load(Reg(VReg(5), W64), W64)))",
            "Assign(VReg(7), Reg(VReg(6), W64))",
            "Return(Some(Reg(VReg(7), W64)))",
        ]
    );
    // sub al, 0xff; ret
    assert_eq!(
        stmts(&[0x2c, 0xff, 0xc3])[1],
        "Assign(VReg(2), BinOp(Sub, Reg(VReg(1), W8), Const(-1, W8)))"
    );
    // add eax, 0xffffffff (32-bit immediate, zero-extended); ret
    assert_eq!(
        stmts(&[0x05, 0xff, 0xff, 0xff, 0xff, 0xc3])[1],
        "Assign(VReg(2), BinOp(Add, Reg(VReg(1), W32), Const(4294967295, W32)))"
    );
}

#[test]
fn rip_relative_address_has_the_next_address_as_base() {
    // lea rax, [rip+8]; ret: the displacement is the absolute address
    assert_eq!(
        stmts(&[0x48, 0x8d, 0x05, 8, 0, 0, 0, 0xc3])[0],
        "Assign(VReg(0), BinOp(Add, Const(4103, W64), Const(4111, W64)))"
    );
}

#[test]
fn absolute_memory_operand() {
    // mov eax, ds:[0x10] by SIB without base and index; ret
    assert_eq!(
        stmts(&[0x8b, 0x04, 0x25, 0x10, 0, 0, 0, 0xc3])[0],
        "Assign(VReg(0), UnOp(ZExt(W64), Load(Const(16, W64), W32)))"
    );
}

#[test]
fn push_and_pop() {
    // push rbp; pop rbp; ret
    assert_eq!(
        stmts(&[0x55, 0x5d, 0xc3]),
        vec![
            "Assign(VReg(2), BinOp(Sub, Reg(VReg(1), W64), Const(8, W64)))",
            "Store { addr: Reg(VReg(2), W64), val: Reg(VReg(0), W64), width: W64 }",
            "Assign(VReg(3), Load(Reg(VReg(2), W64), W64))",
            "Assign(VReg(4), Reg(VReg(3), W64))",
            "Assign(VReg(5), BinOp(Add, Reg(VReg(2), W64), Const(8, W64)))",
            "Return(None)",
        ]
    );
}

#[test]
fn store_to_memory() {
    // mov byte ptr [rdi], 5; ret
    assert_eq!(
        stmts(&[0xc6, 0x07, 5, 0xc3]),
        vec![
            "Store { addr: Reg(VReg(0), W64), val: Const(5, W8), width: W8 }",
            "Return(None)",
        ]
    );
}

#[test]
fn clearing_idiom() {
    // xor eax, eax; ret
    assert_eq!(
        stmts(&[0x31, 0xc0, 0xc3]),
        vec!["Assign(VReg(0), Const(0, W64))", "Return(Some(Reg(VReg(0), W64)))"]
    );
    // xor eax, ecx
    assert_eq!(
        stmts(&[0x31, 0xc8, 0xc3])[2],
        "Assign(VReg(4), BinOp(Xor, Reg(VReg(1), W32), Reg(VReg(3), W32)))"
    );
}

#[test]
fn division_gives_quotient_and_remainder() {
    // idiv rcx; ret
    assert_eq!(
        stmts(&[0x48, 0xf7, 0xf9, 0xc3]),
        vec![
            "Assign(VReg(2), BinOp(SDiv, Reg(VReg(1), W64), Reg(VReg(0), W64)))",
            "Assign(VReg(3), BinOp(SMod, Reg(VReg(1), W64), Reg(VReg(0), W64)))",
            "Assign(VReg(4), Reg(VReg(2), W64))",
            "Assign(VReg(5), Reg(VReg(3), W64))",
            "Return(Some(Reg(VReg(4), W64)))",
        ]
    );
}

#[test]
fn multiplication_forms() {
    // imul rax, rcx
    assert!(stmts(&[0x48, 0x0f, 0xaf, 0xc1, 0xc3])[0]
        .contains("BinOp(Mul, Reg(VReg(0), W64), Reg(VReg(1), W64))"));
    // imul rax, rcx, 7
    assert!(stmts(&[0x48, 0x6b, 0xc1, 7, 0xc3])[0]
        .contains("BinOp(Mul, Reg(VReg(0), W64), Const(7, W64))"));
    // mul rcx
    assert!(stmts(&[0x48, 0xf7, 0xe1, 0xc3])[0]
        .contains("BinOp(Mul, Reg(VReg(1), W64), Reg(VReg(0), W64))"));
}

#[test]
fn compare_and_set() {
    // cmp rdi, rsi; setg al; ret
    assert_eq!(
        stmts(&[0x48, 0x39, 0xf7, 0x0f, 0x9f, 0xc0, 0xc3]),
        vec![
            "Assign(VReg(2), BinOp(Sub, Reg(VReg(0), W64), Reg(VReg(1), W64)))",
            "Assign(VReg(3), BinOp(Slt, Reg(VReg(1), W64), Reg(VReg(0), W64)))",
            "Assign(VReg(4), UnOp(ZExt(W8), Reg(VReg(3), W8)))",
            "Assign(VReg(5), UnOp(ZExt(W64), Reg(VReg(4), W8)))",
            "Assign(VReg(6), Reg(VReg(5), W64))",
            "Return(Some(Reg(VReg(6), W64)))",
        ]
    );
    // sete al without a comparison before
    assert_eq!(
        stmts(&[0x0f, 0x94, 0xc0, 0xc3])[0],
        "Assign(VReg(0), BinOp(Eq, Const(0, W64), Const(0, W64)))"
    );
}

#[test]
fn conditional_branch_makes_three_blocks() {
    // 1000: test rdi, rdi; 1003: js 1006; 1005: ret; 1006: ret
    let f = lifted(&[0x48, 0x85, 0xff, 0x78, 0x01, 0xc3, 0xc3]);
    let ids: Vec<(u32, u64)> = f.blocks.iter().map(|b| (b.id, b.address)).collect();
    assert_eq!(ids, vec![(0, 0x1000), (1, 0x1005), (2, 0x1006)]);
    assert_eq!(f.blocks[0].successors(), vec![2, 1]);
    assert_eq!(
        format!("{:?}", f.blocks[0].stmts),
        "[Assign(VReg(1), BinOp(And, Reg(VReg(0), W64), Reg(VReg(0), W64))), \
         Assign(VReg(2), BinOp(Slt, Reg(VReg(1), W64), Const(0, W64))), \
         Branch { cond: Reg(VReg(2), W8), true_id: 2, false_id: 1 }]"
    );
}

#[test]
fn fall_through_is_a_jump() {
    // 1000: nop; 1001: je 1001; 1003: ret
    let f = lifted(&[0x90, 0x74, 0xfe, 0xc3]);
    assert_eq!(f.blocks.len(), 3);
    assert!(matches!(f.blocks[0].stmts[0], Stmt::Nop));
    assert_eq!(f.blocks[0].successors(), vec![1]);
    assert_eq!(f.blocks[1].successors(), vec![1, 2]);
}

#[test]
fn calls_pass_the_argument_registers_with_a_value() {
    // mov rdi, rax; call 1020; ret
    let s = stmts(&[0x48, 0x89, 0xc7, 0xe8, 0x18, 0, 0, 0, 0xc3]);
    assert_eq!(
        s,
        vec![
            "Assign(VReg(1), Reg(VReg(0), W64))",
            "Call { dst: Some(VReg(2)), func: Addr(4128), args: [Reg(VReg(1), W64)] }",
            "Assign(VReg(3), Reg(VReg(2), W64))",
            "Return(Some(Reg(VReg(3), W64)))",
        ]
    );
}

#[test]
fn jumps_out_of_the_function() {
    // jmp rax
    assert_eq!(stmts(&[0xff, 0xe0]), vec!["IndirectJump(Reg(VReg(0), W64))"]);
    // jmp to an address that holds no code: it still starts a block
    assert_eq!(stmts(&[0xeb, 0x70]), vec!["Jump(2)"]);
}

#[test]
fn unknown_operations_are_named() {
    // cpuid; ret
    assert_eq!(stmts(&[0x0f, 0xa2, 0xc3])[0], "Unhandled(\"Cpuid\")");
    // iretq is a return that lifting does not know
    let s = stmts(&[0x48, 0xcf]);
    assert_eq!(s, vec!["Unhandled(\"Iretq\")", "Return(None)"]);
}

#[test]
fn writes_to_other_operands_are_reported() {
    // mov rax, rdi, made to write to an immediate operand
    let mut code = disassemble(Arch::X86_64, &[0x48, 0x89, 0xf8, 0xc3], 0x1000);
    code.instrs[0].instr.op0.kind = OpKind::Immediate8;
    let f = lift(&code, Arch::X86_64);
    assert_eq!(
        format!("{:?}", f.blocks[0].stmts[0]),
        "Unhandled(\"cannot write to op kind Immediate8\")"
    );
    assert!(matches!(f.blocks[0].stmts[1], Stmt::Return(None)));
}

#[test]
fn string_operations_are_not_lifted() {
    // movsb; ret
    assert_eq!(stmts(&[0xa4, 0xc3])[0], "Unhandled(\"Movsb\")");
}

#[test]
fn leave_and_sign_fill() {
    // leave; ret
    assert_eq!(
        stmts(&[0xc9, 0xc3]),
        vec![
            "Assign(VReg(1), Reg(VReg(0), W64))",
            "Assign(VReg(2), Load(Reg(VReg(1), W64), W64))",
            "Assign(VReg(3), Reg(VReg(2), W64))",
            "Assign(VReg(4), BinOp(Add, Reg(VReg(1), W64), Const(8, W64)))",
            "Return(None)",
        ]
    );
    // cqo; ret
    assert_eq!(
        stmts(&[0x48, 0x99, 0xc3]),
        vec![
            "Assign(VReg(1), BinOp(AShr, Reg(VReg(0), W64), Const(63, W64)))",
            "Assign(VReg(2), Reg(VReg(1), W64))",
            "Return(Some(Reg(VReg(0), W64)))",
        ]
    );
}

#[test]
fn thirty_two_bit_registers() {
    // mov eax, ecx; push eax; ret
    let f = lift(&disassemble(Arch::X86, &[0x89, 0xc8, 0x50, 0xc3], 0x1000), Arch::X86);
    let s: Vec<String> = f.blocks[0].stmts.iter().map(|s| format!("{:?}", s)).collect();
    assert_eq!(
        s,
        vec![
            "Assign(VReg(1), UnOp(ZExt(W64), Reg(VReg(0), W32)))",
            "Assign(VReg(2), Reg(VReg(1), W64))",
            "Assign(VReg(4), BinOp(Sub, Reg(VReg(3), W32), Const(4, W32)))",
            "Store { addr: Reg(VReg(4), W32), val: Reg(VReg(2), W32), width: W32 }",
            "Return(Some(Reg(VReg(2), W32)))",
        ]
    );
}

#[test]
fn start_behind_its_code() {
    // 1000: ret; 1001: nop; 1002: jmp 1000
    let f = lift(&disassemble(Arch::X86_64, &[0xc3, 0x90, 0xeb, 0xfc], 0x1001), Arch::X86_64);
    let ids: Vec<(u32, u64)> = f.blocks.iter().map(|b| (b.id, b.address)).collect();
    assert_eq!(ids, vec![(1, 0x1001), (0, 0x1000)]);
    assert_eq!(format!("{:?}", f.blocks[0].stmts), "[Nop, Jump(0)]");
    assert_eq!(format!("{:?}", f.blocks[1].stmts), "[Return(None)]");
}

#[test]
fn start_without_code() {
    let mut code = disassemble(Arch::X86_64, &[0x90, 0xc3], 0x1000);
    code.address = 0x900;
    let f = lift(&code, Arch::X86_64);
    assert_eq!(f.blocks[0].address, 0x900);
    assert_eq!(format!("{:?}", f.blocks[0].stmts), "[Jump(1)]");
    assert_eq!((f.blocks[1].id, f.blocks[1].address), (1, 0x1000));
    code.instrs.clear();
    let f = lift(&code, Arch::X86_64);
    assert_eq!(f.blocks.len(), 1);
    assert_eq!(format!("{:?}", f.blocks[0].stmts), "[Return(None)]");
}

#[test]
fn code_behind_a_return_is_a_block_of_its_own() {
    // 1000: ret; 1010: nop, with nothing that leads to it
    let mut code = disassemble(Arch::X86_64, &[0xc3], 0x1000);
    let mut nop = disassemble(Arch::X86_64, &[0x90], 0x1000).instrs[0].clone();
    nop.address = 0x1010;
    code.instrs.push(nop);
    let f = lift(&code, Arch::X86_64);
    assert_eq!(f.blocks.len(), 2);
    assert_eq!(format!("{:?}", f.blocks[0].stmts), "[Return(None)]");
    assert_eq!(format!("{:?}", f.blocks[1].stmts), "[Nop, Return(None)]");
}

#[test]
fn frame_size_from_the_stack_pointer() {
    let frame = |code: &[u8]| lifted(code).frame_size;
    // sub rsp, 0x20; add rsp, 0x20; ret
    assert_eq!(frame(&[0x48, 0x83, 0xec, 0x20, 0x48, 0x83, 0xc4, 0x20, 0xc3]), 0x20);
    // add rsp, -0x80; sub rsp, 8; sub rsp, -0x88; ret
    assert_eq!(
        frame(&[
            0x48, 0x83, 0xc4, 0x80, 0x48, 0x83, 0xec, 0x08, 0x48, 0x81, 0xec, 0x78, 0xff, 0xff,
            0xff, 0xc3
        ]),
        0x88
    );
    // push rbp; ret
    assert_eq!(frame(&[0x55, 0xc3]), 0);
    // sub rax, 0x20; ret
    assert_eq!(frame(&[0x48, 0x83, 0xe8, 0x20, 0xc3]), 0);
    // sub esp, 0x10; ret
    let code = disassemble(Arch::X86, &[0x83, 0xec, 0x10, 0xc3], 0x1000);
    assert_eq!(lift(&code, Arch::X86).frame_size, 0x10);
}

#[test]
fn branches_compare_the_operands() {
    let cond = |code: &[u8]| -> String {
        let all = stmts(code);
        all[all.len() - 2].clone()
    };
    // cmp rdi, rsi; then jb, ja, jl, je to the ret
    assert_eq!(
        cond(&[0x48, 0x39, 0xf7, 0x72, 0x00, 0xc3]),
        "Assign(VReg(3), BinOp(Ult, Reg(VReg(0), W64), Reg(VReg(1), W64)))"
    );
    assert_eq!(
        cond(&[0x48, 0x39, 0xf7, 0x77, 0x00, 0xc3]),
        "Assign(VReg(3), BinOp(Ult, Reg(VReg(1), W64), Reg(VReg(0), W64)))"
    );
    assert_eq!(
        cond(&[0x48, 0x39, 0xf7, 0x7c, 0x00, 0xc3]),
        "Assign(VReg(3), BinOp(Slt, Reg(VReg(0), W64), Reg(VReg(1), W64)))"
    );
    // js asks for the sign of the difference
    assert_eq!(
        cond(&[0x48, 0x39, 0xf7, 0x78, 0x00, 0xc3]),
        "Assign(VReg(3), BinOp(Slt, Reg(VReg(2), W64), Const(0, W64)))"
    );
    // test rdi, rdi; jne
    assert_eq!(
        cond(&[0x48, 0x85, 0xff, 0x75, 0x00, 0xc3]),
        "Assign(VReg(2), BinOp(Ne, Reg(VReg(1), W64), Const(0, W64)))"
    );
    // test al, al; je: the result has the full width
    assert_eq!(
        cond(&[0x84, 0xc0, 0x74, 0x00, 0xc3]),
        "Assign(VReg(4), BinOp(Eq, Reg(VReg(3), W64), Const(0, W64)))"
    );
    // cmp byte [rdi], 5; jb: the value in memory is that at the comparison
    assert_eq!(
        stmts(&[0x80, 0x3f, 0x05, 0x72, 0x00, 0xc3]),
        vec![
            "Assign(VReg(1), Load(Reg(VReg(0), W64), W8))",
            "Assign(VReg(2), BinOp(Sub, Reg(VReg(1), W8), Const(5, W8)))",
            "Assign(VReg(3), BinOp(Ult, Reg(VReg(1), W8), Const(5, W8)))",
            "Branch { cond: Reg(VReg(3), W8), true_id: 1, false_id: 1 }",
        ]
    );
}

#[test]
fn sign_fill_by_the_width() {
    // cdq; ret
    let f = lift(&disassemble(Arch::X86, &[0x99, 0xc3], 0x1000), Arch::X86);
    assert_eq!(
        format!("{:?}", f.blocks[0].stmts[0]),
        "Assign(VReg(1), BinOp(AShr, Reg(VReg(0), W32), Const(31, W32)))"
    );
    assert_eq!(
        stmts(&[0x48, 0x99, 0xc3])[0],
        "Assign(VReg(1), BinOp(AShr, Reg(VReg(0), W64), Const(63, W64)))"
    );
}

#[test]
fn every_block_has_a_terminator_and_every_register_one_definition() {
    // a loop with a call, a division and conditional moves
    let code = [
        0x48, 0x85, 0xff, // test rdi, rdi
        0x74, 0x12, // je +0x12
        0x48, 0x0f, 0x44, 0xc1, // cmove rax, rcx
        0x48, 0xf7, 0xfe, // idiv rsi
        0xe8, 0x10, 0, 0, 0, // call
        0x48, 0xff, 0xcf, // dec rdi
        0x75, 0xe9, // jne start
        0x90, // nop
        0xc3, // ret
    ];
    let f = lifted(&code);
    let mut seen = std::collections::HashSet::new();
    for b in &f.blocks {
        assert!(b.terminator().is_some());
        for s in &b.stmts {
            let dst = match s {
                Stmt::Assign(d, _) => Some(d.0),
                Stmt::Call { dst: Some(d), .. } => Some(d.0),
                _ => None,
            };
            if let Some(d) = dst {
                assert!(d < f.vreg_counter);
                assert!(seen.insert(d));
            }
        }
    }
    assert_eq!(f.blocks[0].address, 0x1000);
}

#[test]
fn a_lifter_goes_on_counting() {
    // mov rax, rdi; ret
    let code = disassemble(Arch::X86_64, &[0x48, 0x89, 0xf8, 0xc3], 0x1000);
    let mut lifter = Lifter::new(Arch::X86_64);
    let first = lifter.lift_function(&code);
    let second = lifter.lift_function(&code);
    assert_eq!(first.vreg_counter, 2);
    assert_eq!(second.vreg_counter, 3);
    assert_eq!(
        format!("{:?}", second.blocks[0].stmts),
        "[Assign(VReg(2), Reg(VReg(0), W64)), Return(Some(Reg(VReg(2), W64)))]"
    );
}

#[test]
fn from_code_to_c() {
    // lea rax, [rdi+rsi]; ret
    let f = lifted(&[0x48, 0x8d, 0x04, 0x37, 0xc3]);
    let analysis = FunctionAnalysis::analyze(&f);
    let code = generate(&[f], &[analysis], &std::collections::HashMap::new());
    assert!(code.ends_with(
        "uint64_t f(uint64_t param_rdi, uint64_t param_rsi) {\n    uint64_t v2;\n    \
         v2 = (param_rdi + param_rsi);\n    uint64_t v3;\n    v3 = v2;\n    return v3;\n}\n\n"
    ));
}

/// The greatest number of a register that the expression reads, and 0 where it reads none.
fn greatest(e: &Expr) -> u32 {
    match e {
        Expr::Reg(v, _) => v.0,
        Expr::BinOp(_, l, r) => greatest(l).max(greatest(r)),
        Expr::UnOp(_, x) => greatest(x),
        Expr::Load(a, _) => greatest(a),
        _ => 0,
    }
}

#[test]
fn registers_that_are_read_lie_below_the_counter() {
    let code = [
        0x48, 0x3b, 0x3e, // cmp rdi, [rsi]
        0x7c, 0x05, // jl +5
        0x48, 0x89, 0x54, 0x8e, 0x08, // mov [rsi+rcx*4+8], rdx
        0xff, 0xd0, // call rax
        0x0f, 0x9f, 0xc0, // setg al
        0xc3, // ret
    ];
    let f = lifted(&code);
    for b in &f.blocks {
        for s in &b.stmts {
            let read = match s {
                Stmt::Assign(_, e) => greatest(e),
                Stmt::Store { addr, val, .. } => greatest(addr).max(greatest(val)),
                Stmt::Call { func, args, .. } => {
                    args.iter().map(greatest).max().unwrap_or(0).max(greatest(func))
                }
                Stmt::Return(Some(e)) => greatest(e),
                Stmt::Branch { cond, .. } => greatest(cond),
                _ => 0,
            };
            assert!(read < f.vreg_counter);
        }
    }
}

#[test]
fn a_register_keeps_what_was_written() {
    // mov rax, rdi; mov rcx, rax; mov rdx, rdi; ret
    assert_eq!(
        stmts(&[0x48, 0x89, 0xf8, 0x48, 0x89, 0xc1, 0x48, 0x89, 0xfa, 0xc3]),
        vec![
            "Assign(VReg(1), Reg(VReg(0), W64))",
            "Assign(VReg(2), Reg(VReg(1), W64))",
            "Assign(VReg(3), Reg(VReg(0), W64))",
            "Return(Some(Reg(VReg(1), W64)))",
        ]
    );
}

#[test]
fn a_function_that_fits_is_lifted() {
    let code = disassemble(Arch::X86_64, &[0x48, 0x89, 0xf8, 0xc3], 0x1000);
    let f = try_lift(&code, Arch::X86_64).unwrap();
    let g = lift(&code, Arch::X86_64);
    assert_eq!(format!("{:?}", f), format!("{:?}", g));
}

#[test]
fn names_of_one_machine_register() {
    let mut lifter = Lifter::new(Arch::X86_64);
    let mut out: Vec<Stmt> = vec![];
    let first = lifter.read_reg(Register::RDI, Width::W64, &mut out);
    assert_eq!(format!("{:?}", first), "Reg(VReg(0), W64)");
    let again = lifter.read_reg(Register::DIL, Width::W64, &mut out);
    assert_eq!(format!("{:?}", again), "Reg(VReg(0), W64)");
    assert!(out.is_empty());
    lifter.write_reg(Register::EAX, Expr::Reg(VReg(0), Width::W64), &mut out);
    let read = lifter.read_reg(Register::AH, Width::W64, &mut out);
    assert_eq!(format!("{:?}", read), "Reg(VReg(1), W64)");
    assert_eq!(format!("{:?}", out), "[Assign(VReg(1), Reg(VReg(0), W64))]");
    // the other register keeps its value
    let kept = lifter.read_reg(Register::EDI, Width::W64, &mut out);
    assert_eq!(format!("{:?}", kept), "Reg(VReg(0), W64)");
    // a narrow reading cuts it
    let cut = lifter.read_reg(Register::DI, Width::W16, &mut out);
    assert_eq!(format!("{:?}", cut), "Reg(VReg(2), W16)");
    assert_eq!(out.len(), 2);
}

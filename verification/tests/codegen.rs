use std::collections::HashMap;

use simple_decompiler::analysis::FunctionAnalysis;
use simple_decompiler::codegen::region::{find_join, is_post_dominator};
use simple_decompiler::codegen::{generate, sanitize_name, CGenerator};
use simple_decompiler::ir::{BasicBlock, BinOp, Expr, IrFunction, Stmt, UnOp, VReg, Width};

fn reg(n: u32, w: Width) -> Expr {
    Expr::Reg(VReg(n), w)
}

fn num(v: i64, w: Width) -> Expr {
    Expr::Const(v, w)
}

fn bin(op: BinOp, l: Expr, r: Expr) -> Expr {
    Expr::BinOp(op, Box::new(l), Box::new(r))
}

/// A function of blocks with ids from 0 on.
fn func(name: &str, blocks: Vec<Vec<Stmt>>) -> IrFunction {
    let mut f = IrFunction::new(0x1000, name.to_string());
    for (i, stmts) in blocks.into_iter().enumerate() {
        let mut b = BasicBlock::new(i as u32, 0x1000 + i as u64);
        b.stmts = stmts;
        f.blocks.push(b);
    }
    f
}

fn code_of(f: &IrFunction) -> String {
    let analysis = FunctionAnalysis::analyze(f);
    CGenerator::new(HashMap::new()).generate_function(f, &analysis)
}

/// The C text of one expression.
fn text(e: Expr) -> String {
    let code = code_of(&func("f", vec![vec![Stmt::Return(Some(e))]]));
    let line = code.lines().find(|l| l.contains("return ")).unwrap().trim().to_string();
    line["return ".len()..line.len() - 1].to_string()
}

#[test]
fn empty_function() {
    assert_eq!(code_of(&func("f", vec![])), "uint64_t f() {\n}\n");
}

#[test]
fn straight_line() {
    let f = func(
        "add",
        vec![vec![
            Stmt::Assign(VReg(2), bin(BinOp::Add, reg(0, Width::W64), reg(1, Width::W64))),
            Stmt::Return(Some(reg(2, Width::W64))),
        ]],
    );
    assert_eq!(
        code_of(&f),
        "uint64_t add(uint64_t param_rdi, uint64_t param_rsi) {\n    \
         uint64_t v2;\n    v2 = (param_rdi + param_rsi);\n    return v2;\n}\n"
    );
}

#[test]
fn at_most_six_parameters_in_order_of_first_reading() {
    let mut sum = reg(10, Width::W64);
    for n in [11, 12, 10, 13, 14, 15, 16] {
        sum = bin(BinOp::Add, sum, reg(n, Width::W64));
    }
    let code = code_of(&func("f", vec![vec![Stmt::Return(Some(sum))]]));
    assert_eq!(
        code,
        "uint64_t f(uint64_t param_rdi, uint64_t param_rsi, uint64_t param_rdx, \
         uint64_t param_rcx, uint64_t param_r8, uint64_t param_r9) {\n    uint64_t v16;\n    \
         return (((((((param_rdi + param_rsi) + param_rdx) + param_rdi) + param_rcx) + param_r8) \
         + param_r9) + v16);\n}\n"
    );
}

#[test]
fn a_register_written_first_is_no_parameter() {
    let f = func(
        "f",
        vec![vec![
            Stmt::Assign(VReg(0), num(1, Width::W32)),
            Stmt::Return(Some(reg(0, Width::W32))),
        ]],
    );
    assert_eq!(
        code_of(&f),
        "uint64_t f() {\n    uint32_t v0;\n    v0 = 1U;\n    return v0;\n}\n"
    );
}

#[test]
fn constants_by_width() {
    assert_eq!(text(num(5, Width::W64)), "5ULL");
    assert_eq!(text(num(-5, Width::W32)), "-5U");
    assert_eq!(text(num(7, Width::W16)), "7");
    assert_eq!(text(num(i64::MIN, Width::W8)), "-9223372036854775808");
}

#[test]
fn signed_operations_cast_their_operands() {
    let a = || num(1, Width::W32);
    let b = || num(2, Width::W32);
    assert_eq!(text(bin(BinOp::SDiv, a(), b())), "((int32_t)1U / (int32_t)2U)");
    assert_eq!(text(bin(BinOp::SMod, a(), b())), "((int32_t)1U % (int32_t)2U)");
    assert_eq!(text(bin(BinOp::Slt, a(), b())), "((int32_t)1U < (int32_t)2U)");
    assert_eq!(text(bin(BinOp::Sle, a(), b())), "((int32_t)1U <= (int32_t)2U)");
    assert_eq!(text(bin(BinOp::AShr, a(), b())), "((int32_t)1U >> 2U)");
    assert_eq!(text(bin(BinOp::LShr, a(), b())), "(1U >> 2U)");
    assert_eq!(text(bin(BinOp::UDiv, a(), b())), "(1U / 2U)");
    assert_eq!(text(bin(BinOp::Ne, a(), b())), "(1U != 2U)");
}

#[test]
fn unary_operations() {
    let e = || Box::new(num(1, Width::W8));
    assert_eq!(text(Expr::UnOp(UnOp::Neg, e())), "(-1)");
    assert_eq!(text(Expr::UnOp(UnOp::Not, e())), "(~1)");
    assert_eq!(text(Expr::UnOp(UnOp::ZExt(Width::W64), e())), "((uint64_t)1)");
    assert_eq!(text(Expr::UnOp(UnOp::SExt(Width::W16), e())), "((int16_t)1)");
    assert_eq!(text(Expr::UnOp(UnOp::Trunc(Width::W8), e())), "((uint8_t)1)");
}

#[test]
fn memory_stack_and_addresses() {
    assert_eq!(
        text(Expr::Load(Box::new(Expr::Addr(0x10)), Width::W16)),
        "(*(uint16_t *)0x10ULL)"
    );
    assert_eq!(text(Expr::StackSlot(8, Width::W64)), "local_8");
    assert_eq!(text(Expr::StackSlot(-16, Width::W64)), "arg_16");
    assert_eq!(text(Expr::StackSlot(0, Width::W64)), "arg_0");
    assert_eq!(text(Expr::StackSlot(i32::MIN, Width::W64)), "arg_2147483648");
    assert_eq!(text(Expr::Addr(0xabc)), "0xabcULL");
}

#[test]
fn known_addresses_have_names() {
    let f = func(
        "f",
        vec![vec![
            Stmt::Call {
                dst: None,
                func: Expr::Addr(0x2000),
                args: vec![num(1, Width::W32), Expr::Addr(0x3000)],
            },
            Stmt::Return(None),
        ]],
    );
    let mut names = HashMap::new();
    names.insert(0x2000u64, "puts".to_string());
    let analysis = FunctionAnalysis::analyze(&f);
    assert_eq!(
        CGenerator::new(names).generate_function(&f, &analysis),
        "uint64_t f() {\n    puts(1U, 0x3000ULL);\n    return;\n}\n"
    );
}

#[test]
fn statements() {
    let f = func(
        "f",
        vec![vec![
            Stmt::Nop,
            Stmt::Store {
                addr: Expr::Addr(0x10),
                val: num(3, Width::W8),
                width: Width::W8,
            },
            Stmt::Call { dst: Some(VReg(4)), func: Expr::Addr(0x20), args: vec![] },
            Stmt::Unhandled("Cpuid".to_string()),
            Stmt::IndirectJump(reg(4, Width::W64)),
        ]],
    );
    assert_eq!(
        code_of(&f),
        "uint64_t f() {\n    *(uint8_t *)0x10ULL = 3;\n    uint64_t v4;\n    \
         v4 = 0x20ULL();\n    /* unhandled: Cpuid */\n    goto *((void *)v4);\n}\n"
    );
}

#[test]
fn registers_are_declared_once_before_their_use() {
    let f = func(
        "f",
        vec![
            vec![Stmt::Jump(1)],
            vec![
                Stmt::Assign(VReg(1), bin(BinOp::Add, reg(0, Width::W32), reg(0, Width::W32))),
                Stmt::Assign(VReg(1), reg(0, Width::W32)),
                Stmt::Return(None),
            ],
        ],
    );
    assert_eq!(
        code_of(&f),
        "uint64_t f() {\n    uint32_t v1;\n    uint32_t v0;\n    v1 = (v0 + v0);\n    \
         v1 = v0;\n    return;\n}\n"
    );
}

#[test]
fn if_else_with_join() {
    let f = func(
        "f",
        vec![
            vec![Stmt::Branch { cond: reg(0, Width::W8), true_id: 1, false_id: 2 }],
            vec![Stmt::Assign(VReg(1), num(1, Width::W64)), Stmt::Jump(3)],
            vec![Stmt::Assign(VReg(1), num(2, Width::W64)), Stmt::Jump(3)],
            vec![Stmt::Return(Some(reg(1, Width::W64)))],
        ],
    );
    assert_eq!(
        code_of(&f),
        "uint64_t f(uint64_t param_rdi) {\n    if (param_rdi) {\n        uint64_t v1;\n        \
         v1 = 1ULL;\n    } else {\n        v1 = 2ULL;\n    }\nblock_3:\n    return v1;\n}\n"
    );
    let analysis = FunctionAnalysis::analyze(&f);
    assert_eq!(find_join(&analysis, 1, 2), Some(3));
    assert_eq!(find_join(&analysis, 1, 3), Some(3));
    assert_eq!(find_join(&analysis, 1, 1), Some(1));
}

#[test]
fn branches_that_never_join() {
    let f = func(
        "f",
        vec![
            vec![Stmt::Branch { cond: num(1, Width::W8), true_id: 1, false_id: 2 }],
            vec![Stmt::Return(Some(num(1, Width::W64)))],
            vec![Stmt::Return(Some(num(2, Width::W64)))],
        ],
    );
    let analysis = FunctionAnalysis::analyze(&f);
    assert_eq!(find_join(&analysis, 1, 2), None);
    assert_eq!(
        code_of(&f),
        "uint64_t f() {\n    if (1) {\n        return 1ULL;\n    } else {\n        \
         return 2ULL;\n    }\n}\n"
    );
}

#[test]
fn entry_that_heads_a_loop_becomes_a_while() {
    let f = func(
        "f",
        vec![
            vec![Stmt::Branch { cond: reg(0, Width::W8), true_id: 1, false_id: 2 }],
            vec![Stmt::Assign(VReg(3), num(1, Width::W32)), Stmt::Jump(0)],
            vec![Stmt::Return(None)],
        ],
    );
    assert_eq!(
        code_of(&f),
        "uint64_t f(uint64_t param_rdi) {\n    while (1) {\n        \
         if (!param_rdi) { break; }\n        uint32_t v3;\n        v3 = 1U;\n    }\n    \
         return;\n}\n"
    );
}

#[test]
fn loop_whose_true_branch_leaves() {
    let f = func(
        "f",
        vec![
            vec![Stmt::Branch { cond: num(0, Width::W8), true_id: 2, false_id: 1 }],
            vec![Stmt::Jump(0)],
            vec![Stmt::Return(None)],
        ],
    );
    assert_eq!(
        code_of(&f),
        "uint64_t f() {\n    while (1) {\n        if (0) { break; }\n    }\n    return;\n}\n"
    );
}

#[test]
fn loop_without_a_branch() {
    let f = func("f", vec![vec![Stmt::Jump(0)]]);
    assert_eq!(code_of(&f), "uint64_t f() {\n    while (1) {\n    }\n}\n");
}

#[test]
fn inner_back_edges() {
    // 0 -> 1, 1 -> 1 | 2
    let f = func(
        "f",
        vec![
            vec![Stmt::Jump(1)],
            vec![Stmt::Branch { cond: num(1, Width::W8), true_id: 1, false_id: 2 }],
            vec![Stmt::Return(None)],
        ],
    );
    assert_eq!(
        code_of(&f),
        "uint64_t f() {\nblock_1:\n    while (1) {\n        if (!1) { break; }\n    }\n    \
         return;\n}\n"
    );
    let g = func(
        "g",
        vec![
            vec![Stmt::Jump(1)],
            vec![Stmt::Branch { cond: num(1, Width::W8), true_id: 2, false_id: 1 }],
            vec![Stmt::Return(None)],
        ],
    );
    assert_eq!(
        code_of(&g),
        "uint64_t g() {\nblock_1:\n    while (1) {\n        if (1) { break; }\n    }\n    \
         return;\n}\n"
    );
    let h = func(
        "h",
        vec![vec![Stmt::Jump(1)], vec![Stmt::Nop, Stmt::Jump(1)]],
    );
    assert_eq!(code_of(&h), "uint64_t h() {\nblock_1:\n    while (1) {\n    }\n}\n");
}

fn branch(t: u32, f: u32) -> Stmt {
    Stmt::Branch { cond: num(1, Width::W8), true_id: t, false_id: f }
}

#[test]
fn a_loop_behind_the_entry_becomes_a_while() {
    let f = func(
        "f",
        vec![
            vec![Stmt::Jump(1)],
            vec![branch(2, 3)],
            vec![Stmt::Unhandled("body".to_string()), Stmt::Jump(1)],
            vec![Stmt::Return(None)],
        ],
    );
    assert_eq!(
        code_of(&f),
        "uint64_t f() {\nblock_1:\n    while (1) {\n        if (!1) { break; }\n        \
         /* unhandled: body */\n    }\n    return;\n}\n"
    );
}

#[test]
fn a_loop_that_is_left_from_inside() {
    // 0 -> 1, 1 -> 0 | 2
    let f = func(
        "f",
        vec![
            vec![Stmt::Unhandled("a".to_string()), Stmt::Jump(1)],
            vec![Stmt::Unhandled("b".to_string()), branch(0, 2)],
            vec![Stmt::Return(None)],
        ],
    );
    assert_eq!(
        code_of(&f),
        "uint64_t f() {\n    while (1) {\n        /* unhandled: a */\n        \
         /* unhandled: b */\n        if (1) { continue; }\n        return;\n    }\n}\n"
    );
    let g = func(
        "g",
        vec![vec![Stmt::Jump(1)], vec![branch(2, 0)], vec![Stmt::Return(None)]],
    );
    assert_eq!(
        code_of(&g),
        "uint64_t g() {\n    while (1) {\n        if (!1) { continue; }\n        \
         return;\n    }\n}\n"
    );
}

#[test]
fn an_entry_loop_without_a_branch_holds_all_of_it() {
    let f = func(
        "f",
        vec![vec![Stmt::Jump(1)], vec![Stmt::Unhandled("s".to_string()), Stmt::Jump(0)]],
    );
    assert_eq!(
        code_of(&f),
        "uint64_t f() {\n    while (1) {\n        /* unhandled: s */\n    }\n}\n"
    );
}

#[test]
fn back_edges_out_of_an_inner_loop() {
    // 0 heads the outer loop, 1 the inner one, which 2 leaves for either
    let f = func(
        "f",
        vec![vec![branch(1, 4)], vec![branch(2, 3)], vec![branch(0, 1)], vec![Stmt::Jump(0)],
            vec![Stmt::Return(None)]],
    );
    assert_eq!(
        code_of(&f),
        "uint64_t f() {\nblock_0:\n    while (1) {\n        if (!1) { break; }\n        \
         while (1) {\n            if (!1) { break; }\n            \
         if (1) { goto block_0; }\n        }\n    }\n    return;\n}\n"
    );
}

#[test]
fn the_join_post_dominates_both_branches() {
    // 0 -> 1 | 2, 1 -> 3 | 4, 2 -> 3
    let f = func(
        "f",
        vec![
            vec![branch(1, 2)],
            vec![branch(3, 4)],
            vec![Stmt::Jump(3)],
            vec![Stmt::Return(None)],
            vec![Stmt::Return(None)],
        ],
    );
    let analysis = FunctionAnalysis::analyze(&f);
    assert_eq!(find_join(&analysis, 1, 2), None);
    assert_eq!(find_join(&analysis, 2, 3), Some(3));
    assert!(is_post_dominator(&analysis.cfg, 3, 2));
    assert!(!is_post_dominator(&analysis.cfg, 3, 1));
}

#[test]
fn a_block_at_the_start_of_a_region_has_the_label_of_a_jump() {
    let f = func(
        "f",
        vec![
            vec![branch(1, 2)],
            vec![branch(3, 5)],
            vec![branch(3, 6)],
            vec![Stmt::Return(Some(num(3, Width::W8)))],
            vec![],
            vec![Stmt::Return(Some(num(5, Width::W8)))],
            vec![Stmt::Return(Some(num(6, Width::W8)))],
        ],
    );
    assert_eq!(
        code_of(&f),
        "uint64_t f() {\n    if (1) {\n        if (1) {\n        block_3:\n            \
         return 3;\n        } else {\n            return 5;\n        }\n    } else {\n        \
         if (1) {\n            goto block_3;\n        } else {\n            return 6;\n        \
         }\n    }\n}\n"
    );
}

/// The blocks that control passes through in the code, up to `limit` of them; `toss` says in turn
/// how the conditions turn out.
fn run_code(code: &str, mut toss: u64, limit: usize) -> Vec<usize> {
    let lines: Vec<&str> = code.lines().map(|l| l.trim()).collect();
    // for each line the line at which what it opens is closed, and the loop around it
    let mut close = vec![0; lines.len()];
    let mut other = vec![0; lines.len()];
    let mut opener = vec![0; lines.len()];
    let mut around: Vec<Option<usize>> = vec![None; lines.len()];
    let mut open: Vec<usize> = vec![];
    for (i, l) in lines.iter().enumerate() {
        around[i] = open.iter().rev().copied().find(|o| lines[*o].starts_with("while"));
        if *l == "} else {" {
            other[*open.last().unwrap()] = i;
            opener[i] = *open.last().unwrap();
        } else if *l == "}" {
            let o = open.pop().unwrap();
            close[o] = i;
            opener[i] = o;
        } else if l.ends_with('{') {
            open.push(i);
        }
    }
    assert!(open.is_empty(), "{}", code);
    let mut trace = vec![];
    let mut pc = 1;
    loop {
        let l = lines[pc];
        let mut action = l;
        if let Some(test) = l.strip_prefix("if (") {
            let holds = (toss & 1 == 1) != test.starts_with('!');
            toss = toss.rotate_right(1);
            if l.ends_with('{') {
                let no = if other[pc] > 0 { other[pc] } else { close[pc] };
                pc = if holds { pc + 1 } else { no + 1 };
                continue;
            }
            if !holds {
                pc += 1;
                continue;
            }
            action = l.split("{ ").nth(1).unwrap().trim_end_matches(" }");
        }
        if action == "continue;" {
            pc = around[pc].expect(code);
        } else if action == "break;" {
            pc = close[around[pc].expect(code)] + 1;
        } else if let Some(to) = action.strip_prefix("goto ") {
            let label = to.replace(';', ":");
            pc = lines.iter().position(|l| *l == label).expect(code);
        } else if action == "return;" {
            return trace;
        } else if l == "} else {" {
            pc = close[opener[pc]] + 1;
        } else if l == "}" {
            if opener[pc] == 0 {
                return trace;
            }
            pc = if lines[opener[pc]].starts_with("while") { opener[pc] } else { pc + 1 };
        } else {
            if let Some(at) = l.find("mark") {
                trace.push(l[at + 4..at + 5].parse().unwrap());
                if trace.len() == limit {
                    return trace;
                }
            }
            pc += 1;
        }
    }
}

/// The blocks that control passes through in the function.
fn run_blocks(f: &IrFunction, mut toss: u64, limit: usize) -> Vec<usize> {
    let mut trace = vec![];
    let mut cur = 0;
    loop {
        trace.push(cur);
        if trace.len() == limit {
            return trace;
        }
        match f.blocks[cur].terminator() {
            Some(Stmt::Jump(n)) => cur = *n as usize,
            Some(Stmt::Branch { true_id, false_id, .. }) => {
                cur = if toss & 1 == 1 { *true_id } else { *false_id } as usize;
                toss = toss.rotate_right(1);
            }
            _ => return trace,
        }
    }
}

/// One of the functions of four blocks in which each block returns, jumps or branches.
fn small_function(n: usize) -> IrFunction {
    let ends = |n: usize| match n {
        0 => Stmt::Return(None),
        1..=4 => Stmt::Jump(n as u32 - 1),
        _ => branch((n as u32 - 5) / 4, (n as u32 - 5) % 4),
    };
    let picks = [n % 21, n / 21 % 21, n / 441 % 21, n / 9261 % 21];
    let blocks = picks
        .iter()
        .enumerate()
        .map(|(i, p)| vec![Stmt::Unhandled(format!("mark{}", i)), ends(*p)])
        .collect();
    func("f", blocks)
}

#[test]
fn every_reachable_block_once_and_every_jump_to_one_label() {
    // not every function: each takes time
    for n in (0..21 * 21 * 21 * 21).step_by(37) {
        let f = small_function(n);
        let mut reached = vec![0u32];
        let mut i = 0;
        while i < reached.len() {
            for s in f.blocks[reached[i] as usize].successors() {
                if !reached.contains(&s) {
                    reached.push(s);
                }
            }
            i += 1;
        }
        let code = code_of(&f);
        for id in 0..4u32 {
            let marks = code.matches(&format!("mark{} ", id)).count();
            assert_eq!(marks, reached.contains(&id) as usize, "{}", code);
            let labels = code.lines().filter(|l| l.trim() == format!("block_{}:", id)).count();
            assert!(labels <= 1, "{}", code);
            if code.contains(&format!("goto block_{};", id)) {
                assert_eq!(labels, 1, "{}", code);
            }
        }
        assert_eq!(code.matches('{').count(), code.matches('}').count(), "{}", code);
        assert!(code.ends_with("\n}\n"));
    }
}

#[test]
fn control_passes_through_the_same_blocks() {
    let tosses = [0, u64::MAX, 0x5555_5555_5555_5555, 0x9f3a_71c5_0e6d_2b84, 0x0123_4567_89ab_cdef];
    for n in (0..21 * 21 * 21 * 21).step_by(41) {
        let f = small_function(n);
        let code = code_of(&f);
        for toss in tosses {
            assert_eq!(run_code(&code, toss, 24), run_blocks(&f, toss, 24), "{}", code);
        }
    }
}

#[test]
fn a_block_emitted_before_is_reached_by_goto() {
    // the entries of an irreducible cycle
    let f = func(
        "f",
        vec![
            vec![Stmt::Branch { cond: num(1, Width::W8), true_id: 1, false_id: 2 }],
            vec![Stmt::Jump(2)],
            vec![Stmt::Jump(1)],
        ],
    );
    assert_eq!(
        code_of(&f),
        "uint64_t f() {\n    if (1) {\n    block_1:\n    }\nblock_2:\n    goto block_1;\n}\n"
    );
}

#[test]
fn a_missing_block_ends_the_region() {
    let f = func("f", vec![vec![Stmt::Nop, Stmt::Jump(8)]]);
    assert_eq!(code_of(&f), "uint64_t f() {\n}\n");
}

#[test]
fn emission_without_a_frame() {
    let f = func("f", vec![vec![Stmt::Return(None)]]);
    let analysis = FunctionAnalysis::analyze(&f);
    let mut gen = CGenerator::new(HashMap::new());
    gen.emit_function(&f, &analysis);
    // a later function starts anew
    assert_eq!(gen.generate_function(&f, &analysis), "uint64_t f() {\n    return;\n}\n");
}

#[test]
fn generator_forgets_the_function_before() {
    let f = func("f", vec![vec![Stmt::Return(Some(reg(0, Width::W64)))]]);
    let g = func(
        "g",
        vec![vec![Stmt::Assign(VReg(0), num(1, Width::W64)), Stmt::Return(None)]],
    );
    let mut gen = CGenerator::new(HashMap::new());
    let af = FunctionAnalysis::analyze(&f);
    let ag = FunctionAnalysis::analyze(&g);
    assert_eq!(
        gen.generate_function(&f, &af),
        "uint64_t f(uint64_t param_rdi) {\n    return param_rdi;\n}\n"
    );
    assert_eq!(
        gen.generate_function(&g, &ag),
        "uint64_t g() {\n    uint64_t v0;\n    v0 = 1ULL;\n    return;\n}\n"
    );
}

#[test]
fn names_become_identifiers() {
    assert_eq!(sanitize_name("main"), "main");
    assert_eq!(sanitize_name("_Z3foo.part.0"), "_Z3foo_part_0");
    assert_eq!(sanitize_name("a b@plt"), "a_b_plt");
    assert_eq!(sanitize_name(""), "");
    assert_eq!(sanitize_name("größe"), "größe");
    let once = sanitize_name("x-y~z");
    assert_eq!(sanitize_name(&once), once);
}

#[test]
fn file_with_two_functions() {
    let f = func("a.b", vec![vec![Stmt::Return(None)]]);
    let g = func("g", vec![vec![Stmt::Return(None)]]);
    let analyses = vec![FunctionAnalysis::analyze(&f), FunctionAnalysis::analyze(&g)];
    assert_eq!(
        generate(&[f, g], &analyses, &HashMap::new()),
        "/* Generated by simple-decompiler */\n#include <stdint.h>\n#include <stddef.h>\n\n\
         uint64_t a_b();\nuint64_t g();\n\n\
         uint64_t a_b() {\n    return;\n}\n\nuint64_t g() {\n    return;\n}\n\n"
    );
}

#[test]
fn a_function_without_an_analysis_is_declared_only() {
    let f = func("f", vec![vec![Stmt::Return(None)]]);
    assert_eq!(
        generate(&[f], &[], &HashMap::new()),
        "/* Generated by simple-decompiler */\n#include <stdint.h>\n#include <stddef.h>\n\n\
         uint64_t f();\n\n"
    );
}

#[test]
fn the_same_function_gives_the_same_code() {
    let f = func(
        "f",
        vec![
            vec![Stmt::Branch { cond: reg(0, Width::W8), true_id: 1, false_id: 2 }],
            vec![Stmt::Branch { cond: reg(1, Width::W8), true_id: 3, false_id: 0 }],
            vec![Stmt::Jump(3)],
            vec![Stmt::Branch { cond: reg(2, Width::W8), true_id: 2, false_id: 4 }],
            vec![Stmt::Return(None)],
        ],
    );
    let first = code_of(&f);
    for _ in 0..10 {
        assert_eq!(code_of(&f), first);
    }
}

#[test]
fn an_expression_written_twice() {
    let mut gen = CGenerator::new(HashMap::from([(0x1000, "puts".to_string())]));
    let e = bin(BinOp::Add, reg(3, Width::W32), Expr::Addr(0x1000));
    assert_eq!(gen.expr_to_c(&e), "(v3 + puts)");
    assert_eq!(gen.expr_to_c(&e), "(v3 + puts)");
    // in a function the second use declares nothing
    let f = func(
        "f",
        vec![
            vec![Stmt::Jump(1)],
            vec![
                Stmt::Store {
                    addr: reg(3, Width::W64),
                    val: reg(3, Width::W64),
                    width: Width::W64,
                },
                Stmt::Return(Some(reg(3, Width::W64))),
            ],
        ],
    );
    assert_eq!(code_of(&f).matches("uint64_t v3;").count(), 1);
}

#[test]
fn a_line_break_in_a_remark_can_look_like_a_label() {
    // what is promised of the lines of the code asks for remarks of one line
    let f = func("f", vec![vec![Stmt::Unhandled("*/\nblock_0:\n/*".to_string())]]);
    assert_eq!(code_of(&f).lines().filter(|l| *l == "block_0:").count(), 1);
}

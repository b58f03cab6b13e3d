use simple_decompiler::ir::{
    BasicBlock, BinOp, Expr, IrFunction, Stmt, UnOp, VReg, Width,
};
use simple_decompiler::text::{
    decimal_of_i64, decimal_of_u32, decimal_of_u64, has_part, hex_of_u64, padded_hex_of_u64,
};

#[test]
fn vreg_text_is_v_and_number() {
    assert_eq!(VReg(0).to_text(), "v0");
    assert_eq!(VReg(17).to_text(), "v17");
    assert_eq!(VReg(u32::MAX).to_text(), "v4294967295");
}

#[test]
fn width_bytes_and_types() {
    let all = [Width::W8, Width::W16, Width::W32, Width::W64];
    let bytes = [1u64, 2, 4, 8];
    let unsigned = ["uint8_t", "uint16_t", "uint32_t", "uint64_t"];
    let signed = ["int8_t", "int16_t", "int32_t", "int64_t"];
    for i in 0..4 {
        assert_eq!(all[i].bytes(), bytes[i]);
        assert_eq!(all[i].c_type(), unsigned[i]);
        assert_eq!(all[i].c_type_signed(), signed[i]);
    }
}

#[test]
fn width_from_bits_defaults_to_64() {
    assert_eq!(Width::from_bits(8), Width::W8);
    assert_eq!(Width::from_bits(16), Width::W16);
    assert_eq!(Width::from_bits(32), Width::W32);
    assert_eq!(Width::from_bits(64), Width::W64);
    assert_eq!(Width::from_bits(7), Width::W64);
    assert_eq!(Width::from_bits(0), Width::W64);
}

#[test]
fn binop_symbols() {
    assert_eq!(BinOp::Add.symbol(), "+");
    assert_eq!(BinOp::Sub.symbol(), "-");
    assert_eq!(BinOp::Mul.symbol(), "*");
    assert_eq!(BinOp::SDiv.symbol(), "/");
    assert_eq!(BinOp::UMod.symbol(), "%");
    assert_eq!(BinOp::LShr.symbol(), ">>");
    assert_eq!(BinOp::Eq.symbol(), "==");
    assert_eq!(BinOp::Ne.symbol(), "!=");
    assert_eq!(BinOp::Slt.symbol(), "<");
    assert_eq!(BinOp::Ule.symbol(), "<=");
}

#[test]
fn expr_widths() {
    let reg = Expr::Reg(VReg(1), Width::W16);
    assert_eq!(reg.width(), Width::W16);
    assert_eq!(Expr::Const(5, Width::W8).width(), Width::W8);
    let sum = Expr::BinOp(
        BinOp::Add,
        Box::new(reg.clone()),
        Box::new(Expr::Const(1, Width::W64)),
    );
    assert_eq!(sum.width(), Width::W16);
    assert_eq!(Expr::UnOp(UnOp::SExt(Width::W32), Box::new(reg.clone())).width(), Width::W32);
    assert_eq!(Expr::UnOp(UnOp::Neg, Box::new(reg.clone())).width(), Width::W64);
    assert_eq!(Expr::UnOp(UnOp::Not, Box::new(reg.clone())).width(), Width::W64);
    assert_eq!(Expr::Load(Box::new(reg), Width::W8).width(), Width::W8);
    assert_eq!(Expr::StackSlot(4, Width::W32).width(), Width::W32);
    assert_eq!(Expr::Addr(0x1000).width(), Width::W64);
}

#[test]
fn only_the_last_statement_can_be_the_terminator() {
    let mut block = BasicBlock::new(3, 0x1000);
    assert!(block.terminator().is_none());
    assert!(block.successors().is_empty());
    block.stmts.push(Stmt::Jump(7));
    assert!(matches!(block.terminator(), Some(Stmt::Jump(7))));
    assert_eq!(block.successors(), vec![7]);
    block.stmts.push(Stmt::Nop);
    assert!(block.terminator().is_none());
    assert!(block.successors().is_empty());
}

#[test]
fn successors_of_each_terminator() {
    let mut block = BasicBlock::new(0, 0);
    block.stmts.push(Stmt::Branch {
        cond: Expr::Const(1, Width::W8),
        true_id: 4,
        false_id: 2,
    });
    assert_eq!(block.successors(), vec![4, 2]);
    block.stmts.push(Stmt::Return(None));
    assert!(block.successors().is_empty());
    assert!(matches!(block.terminator(), Some(Stmt::Return(None))));
    block.stmts.push(Stmt::IndirectJump(Expr::Addr(1)));
    assert!(block.successors().is_empty());
    assert!(matches!(block.terminator(), Some(Stmt::IndirectJump(_))));
}

#[test]
fn new_function_is_empty() {
    let mut func = IrFunction::new(0x400, "main".to_string());
    assert_eq!(func.address, 0x400);
    assert_eq!(func.name, "main");
    assert!(func.blocks.is_empty());
    assert_eq!(func.param_count, 0);
    assert_eq!(func.frame_size, 0);
    assert_eq!(func.vreg_counter, 0);
    assert!(func.entry_block().is_none());
    func.blocks.push(BasicBlock::new(9, 0x400));
    func.blocks.push(BasicBlock::new(10, 0x404));
    assert_eq!(func.entry_block().map(|b| b.id), Some(9));
}

#[test]
fn numbers_as_text() {
    assert_eq!(decimal_of_u64(0), "0");
    assert_eq!(decimal_of_u64(u64::MAX), "18446744073709551615");
    assert_eq!(decimal_of_u32(1234567890), "1234567890");
    assert_eq!(decimal_of_i64(-1), "-1");
    assert_eq!(decimal_of_i64(i64::MIN), "-9223372036854775808");
    assert_eq!(hex_of_u64(0), "0");
    assert_eq!(hex_of_u64(0xdeadbeef), "deadbeef");
    assert_eq!(padded_hex_of_u64(0x401000), "0000000000401000");
    assert_eq!(padded_hex_of_u64(u64::MAX), "ffffffffffffffff");
}

#[test]
fn parts_of_text() {
    assert!(has_part("factorial", "fact"));
    assert!(has_part("factorial", "orial"));
    assert!(has_part("factorial", ""));
    assert!(has_part("", ""));
    assert!(!has_part("", "a"));
    assert!(!has_part("fact", "factorial"));
    assert!(!has_part("aab", "ba"));
    assert!(has_part("aaab", "aab"));
}

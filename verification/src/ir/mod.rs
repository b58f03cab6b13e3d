//! The intermediate representation between machine code and C.
use vstd::prelude::*;

use crate::text::{decimal, decimal_of_u32};

pub mod access;
pub mod blocks;
pub mod control;
pub mod effects;
pub mod lift;
pub mod machine;
pub mod meaning;
pub mod memory;
pub mod reads;
pub mod single;
pub mod stack;
pub mod structure;

verus! {

/// Virtual register ID
#[derive(Debug, Clone, Copy, PartialEq, Eq, Structural, Hash, PartialOrd, Ord)]
pub struct VReg(pub u32);

impl VReg {
    /// The text of a register: `v` and its number.
    pub open spec fn name(self) -> Seq<char> {
        "v"@ + decimal(self.0 as nat)
    }

    /// The register as text: `v` followed by its number in decimal.
    pub fn to_text(self) -> (text: String)
        ensures
            text@ == self.name(),
    {
        let mut text = "v".to_string();
        let digits = decimal_of_u32(self.0);
        text.append(digits.as_str());
        text
    }
}

/// Width in bits of an IR value
#[derive(Debug, Clone, Copy, PartialEq, Eq, Structural, Hash)]
pub enum Width {
    W8,
    W16,
    W32,
    W64,
}

impl Width {
    /// Width in bits.
    pub open spec fn bits(self) -> nat {
        match self {
            Width::W8 => 8,
            Width::W16 => 16,
            Width::W32 => 32,
            Width::W64 => 64,
        }
    }

    /// The unsigned C type of this width.
    pub open spec fn c_name(self) -> Seq<char> {
        match self {
            Width::W8 => "uint8_t"@,
            Width::W16 => "uint16_t"@,
            Width::W32 => "uint32_t"@,
            Width::W64 => "uint64_t"@,
        }
    }

    /// The signed C type of this width.
    pub open spec fn c_name_signed(self) -> Seq<char> {
        match self {
            Width::W8 => "int8_t"@,
            Width::W16 => "int16_t"@,
            Width::W32 => "int32_t"@,
            Width::W64 => "int64_t"@,
        }
    }

    /// The width with the given number of bits; everything but 8, 16 and 32 counts as 64.
    pub open spec fn of_bits(b: u16) -> Width {
        if b == 8 {
            Width::W8
        } else if b == 16 {
            Width::W16
        } else if b == 32 {
            Width::W32
        } else {
            Width::W64
        }
    }

    pub fn bytes(self) -> (n: u64)
        ensures
            n * 8 == self.bits(),
    {
        match self {
            Width::W8 => 1,
            Width::W16 => 2,
            Width::W32 => 4,
            Width::W64 => 8,
        }
    }

    pub fn c_type(self) -> (name: &'static str)
        ensures
            name@ == self.c_name(),
    {
        match self {
            Width::W8 => "uint8_t",
            Width::W16 => "uint16_t",
            Width::W32 => "uint32_t",
            Width::W64 => "uint64_t",
        }
    }

    pub fn c_type_signed(self) -> (name: &'static str)
        ensures
            name@ == self.c_name_signed(),
    {
        match self {
            Width::W8 => "int8_t",
            Width::W16 => "int16_t",
            Width::W32 => "int32_t",
            Width::W64 => "int64_t",
        }
    }

    pub fn from_bits(b: u16) -> (w: Self)
        ensures
            w == Width::of_bits(b),
    {
        match b {
            8 => Width::W8,
            16 => Width::W16,
            32 => Width::W32,
            _ => Width::W64,
        }
    }
}

/// Binary operators
#[derive(Debug, Clone, Copy, PartialEq, Eq, Structural)]
pub enum BinOp {
    Add,
    Sub,
    Mul,
    UDiv,
    SDiv,
    UMod,
    SMod,
    And,
    Or,
    Xor,
    Shl,
    LShr,
    AShr,
    // Comparisons (result is 1-bit boolean)
    Eq,
    Ne,
    /// unsigned less than
    Ult,
    /// unsigned less-or-equal
    Ule,
    /// signed less than
    Slt,
    /// signed less-or-equal
    Sle,
}

impl BinOp {
    /// The C operator; signedness is expressed by casts, not by the operator.
    pub open spec fn c_op(self) -> Seq<char> {
        match self {
            BinOp::Add => "+"@,
            BinOp::Sub => "-"@,
            BinOp::Mul => "*"@,
            BinOp::UDiv | BinOp::SDiv => "/"@,
            BinOp::UMod | BinOp::SMod => "%"@,
            BinOp::And => "&"@,
            BinOp::Or => "|"@,
            BinOp::Xor => "^"@,
            BinOp::Shl => "<<"@,
            BinOp::LShr | BinOp::AShr => ">>"@,
            BinOp::Eq => "=="@,
            BinOp::Ne => "!="@,
            BinOp::Ult | BinOp::Slt => "<"@,
            BinOp::Ule | BinOp::Sle => "<="@,
        }
    }

    /// The operator as it is written in C.
    pub fn symbol(self) -> (s: &'static str)
        ensures
            s@ == self.c_op(),
    {
        match self {
            BinOp::Add => "+",
            BinOp::Sub => "-",
            BinOp::Mul => "*",
            BinOp::UDiv | BinOp::SDiv => "/",
            BinOp::UMod | BinOp::SMod => "%",
            BinOp::And => "&",
            BinOp::Or => "|",
            BinOp::Xor => "^",
            BinOp::Shl => "<<",
            BinOp::LShr | BinOp::AShr => ">>",
            BinOp::Eq => "==",
            BinOp::Ne => "!=",
            BinOp::Ult | BinOp::Slt => "<",
            BinOp::Ule | BinOp::Sle => "<=",
        }
    }
}

/// Unary operators
#[derive(Debug, Clone, Copy, PartialEq, Eq, Structural)]
pub enum UnOp {
    Neg,
    Not,
    /// zero-extend to target width
    ZExt(Width),
    /// sign-extend to target width
    SExt(Width),
    Trunc(Width),
}

/// An IR expression (pure, no side effects)
#[derive(Debug)]
pub enum Expr {
    /// Virtual register
    Reg(VReg, Width),
    /// Immediate constant
    Const(i64, Width),
    /// Binary operation
    BinOp(BinOp, Box<Expr>, Box<Expr>),
    /// Unary operation
    UnOp(UnOp, Box<Expr>),
    /// Load from memory: *addr
    Load(Box<Expr>, Width),
    /// Stack slot (offset from function frame base, positive = local)
    StackSlot(i32, Width),
    /// Global / absolute address used as a value
    Addr(u64),
}

impl Expr {
    /// The width of the value: that of the left operand for a binary operation, the target width
    /// for an extension or truncation, 64 bits for a negation, a complement or an address.
    pub open spec fn value_width(self) -> Width
        decreases self,
    {
        match self {
            Expr::Reg(_, w) => w,
            Expr::Const(_, w) => w,
            Expr::BinOp(_, l, _) => l.value_width(),
            Expr::UnOp(op, _) => match op {
                UnOp::ZExt(w) => w,
                UnOp::SExt(w) => w,
                UnOp::Trunc(w) => w,
                UnOp::Neg => Width::W64,
                UnOp::Not => Width::W64,
            },
            Expr::Load(_, w) => w,
            Expr::StackSlot(_, w) => w,
            Expr::Addr(_) => Width::W64,
        }
    }

    pub fn width(&self) -> (w: Width)
        ensures
            w == self.value_width(),
        decreases self,
    {
        match self {
            Expr::Reg(_, w) => *w,
            Expr::Const(_, w) => *w,
            Expr::BinOp(_, l, _) => l.width(),
            Expr::UnOp(op, _) => match op {
                UnOp::ZExt(w) => *w,
                UnOp::SExt(w) => *w,
                UnOp::Trunc(w) => *w,
                _ => Width::W64,
            },
            Expr::Load(_, w) => *w,
            Expr::StackSlot(_, w) => *w,
            Expr::Addr(_) => Width::W64,
        }
    }
}

impl Clone for Expr {
    fn clone(&self) -> (copy: Self)
        ensures
            copy == *self,
        decreases self,
    {
        match self {
            Expr::Reg(v, w) => Expr::Reg(*v, *w),
            Expr::Const(c, w) => Expr::Const(*c, *w),
            Expr::BinOp(op, l, r) => {
                let left = (**l).clone();
                let right = (**r).clone();
                Expr::BinOp(*op, Box::new(left), Box::new(right))
            },
            Expr::UnOp(op, e) => {
                let inner = (**e).clone();
                Expr::UnOp(*op, Box::new(inner))
            },
            Expr::Load(a, w) => {
                let addr = (**a).clone();
                Expr::Load(Box::new(addr), *w)
            },
            Expr::StackSlot(off, w) => Expr::StackSlot(*off, *w),
            Expr::Addr(a) => Expr::Addr(*a),
        }
    }
}

/// An IR statement (has side effects / defines values)
#[derive(Debug, Clone)]
pub enum Stmt {
    /// dst = expr
    Assign(VReg, Expr),
    /// *(addr)[width] = val
    Store { addr: Expr, val: Expr, width: Width },
    /// Call: dst (optional) = func(args)
    Call { dst: Option<VReg>, func: Expr, args: Vec<Expr> },
    /// Return optional value
    Return(Option<Expr>),
    /// Unconditional jump to block id
    Jump(u32),
    /// Conditional branch: if cond jump true_id else false_id
    Branch { cond: Expr, true_id: u32, false_id: u32 },
    /// Indirect jump (switch / computed goto)
    IndirectJump(Expr),
    /// No-op
    Nop,
    /// Unhandled instruction (raw comment)
    Unhandled(String),
}

/// A statement as a mathematical value: argument lists and texts are sequences.
pub enum StmtModel {
    Assign(VReg, Expr),
    Store { addr: Expr, val: Expr, width: Width },
    Call { dst: Option<VReg>, func: Expr, args: Seq<Expr> },
    Return(Option<Expr>),
    Jump(u32),
    Branch { cond: Expr, true_id: u32, false_id: u32 },
    IndirectJump(Expr),
    Nop,
    Unhandled(Seq<char>),
}

impl StmtModel {
    /// A terminator passes control on: a jump, a branch, a return or an indirect jump.
    pub open spec fn is_terminator(self) -> bool {
        self is Jump || self is Branch || self is Return || self is IndirectJump
    }
}

impl View for Stmt {
    type V = StmtModel;

    open spec fn view(&self) -> StmtModel {
        match *self {
            Stmt::Assign(dst, e) => StmtModel::Assign(dst, e),
            Stmt::Store { addr, val, width } => StmtModel::Store { addr, val, width },
            Stmt::Call { dst, func, args } => StmtModel::Call { dst, func, args: args@ },
            Stmt::Return(e) => StmtModel::Return(e),
            Stmt::Jump(id) => StmtModel::Jump(id),
            Stmt::Branch { cond, true_id, false_id } => StmtModel::Branch {
                cond,
                true_id,
                false_id,
            },
            Stmt::IndirectJump(e) => StmtModel::IndirectJump(e),
            Stmt::Nop => StmtModel::Nop,
            Stmt::Unhandled(s) => StmtModel::Unhandled(s@),
        }
    }
}

/// The statements of a list, each as a mathematical value.
pub open spec fn stmts_model(stmts: Seq<Stmt>) -> Seq<StmtModel> {
    stmts.map_values(|s: Stmt| s@)
}

/// A basic block in the IR
#[derive(Debug, Clone)]
pub struct BasicBlock {
    pub id: u32,
    /// Start address (first instruction)
    pub address: u64,
    pub stmts: Vec<Stmt>,
}

/// A basic block as a mathematical value.
pub struct BlockModel {
    pub id: u32,
    pub address: u64,
    pub stmts: Seq<StmtModel>,
}

impl BlockModel {
    /// The last statement, where that is a terminator.
    pub open spec fn terminator(self) -> Option<StmtModel> {
        if self.stmts.len() > 0 && self.stmts.last().is_terminator() {
            Some(self.stmts.last())
        } else {
            None
        }
    }

    /// The ids of the blocks that control can pass to, in the order of the terminator.
    pub open spec fn successors(self) -> Seq<u32> {
        match self.terminator() {
            Some(StmtModel::Jump(id)) => seq![id],
            Some(StmtModel::Branch { cond, true_id, false_id }) => seq![true_id, false_id],
            _ => Seq::empty(),
        }
    }
}

impl View for BasicBlock {
    type V = BlockModel;

    open spec fn view(&self) -> BlockModel {
        BlockModel { id: self.id, address: self.address, stmts: stmts_model(self.stmts@) }
    }
}

/// The blocks of a list, each as a mathematical value.
pub open spec fn blocks_model(blocks: Seq<BasicBlock>) -> Seq<BlockModel> {
    blocks.map_values(|b: BasicBlock| b@)
}

impl BasicBlock {
    pub fn new(id: u32, address: u64) -> (block: Self)
        ensures
            block@ == (BlockModel { id, address, stmts: Seq::empty() }),
    {
        let block = Self { id, address, stmts: Vec::new() };
        assert(block@.stmts =~= Seq::empty());
        block
    }

    pub fn terminator(&self) -> (last: Option<&Stmt>)
        ensures
            last is Some <==> self@.terminator() is Some,
            last matches Some(s) ==> self@.terminator() == Some(s@) && self.stmts@.len() > 0 && *s
                == self.stmts@.last(),
    {
        let n = self.stmts.len();
        if n == 0 {
            return None;
        }
        let s = &self.stmts[n - 1];
        match s {
            Stmt::Jump(_) => Some(s),
            Stmt::Branch { .. } => Some(s),
            Stmt::Return(_) => Some(s),
            Stmt::IndirectJump(_) => Some(s),
            _ => None,
        }
    }

    pub fn successors(&self) -> (ids: Vec<u32>)
        ensures
            ids@ == self@.successors(),
    {
        let mut ids: Vec<u32> = Vec::new();
        match self.terminator() {
            Some(Stmt::Jump(id)) => {
                ids.push(*id);
            },
            Some(Stmt::Branch { true_id, false_id, .. }) => {
                ids.push(*true_id);
                ids.push(*false_id);
            },
            _ => {},
        }
        assert(ids@ =~= self@.successors());
        ids
    }
}

/// A lifted IR function
#[derive(Debug, Clone)]
pub struct IrFunction {
    pub address: u64,
    pub name: String,
    pub blocks: Vec<BasicBlock>,
    /// Number of parameters inferred (SysV AMD64: rdi, rsi, rdx, rcx, r8, r9)
    pub param_count: usize,
    /// Local variable size (stack frame size)
    pub frame_size: u32,
    /// Next VReg counter
    pub vreg_counter: u32,
}

/// A lifted function as a mathematical value.
pub struct FunctionModel {
    pub address: u64,
    pub name: Seq<char>,
    pub blocks: Seq<BlockModel>,
    pub param_count: nat,
    pub frame_size: u32,
    pub vreg_counter: u32,
}

impl FunctionModel {
    /// The id of the first block, or 0 for a function without blocks.
    pub open spec fn entry_id(self) -> u32 {
        if self.blocks.len() > 0 {
            self.blocks[0].id
        } else {
            0
        }
    }
}

impl View for IrFunction {
    type V = FunctionModel;

    open spec fn view(&self) -> FunctionModel {
        FunctionModel {
            address: self.address,
            name: self.name@,
            blocks: blocks_model(self.blocks@),
            param_count: self.param_count as nat,
            frame_size: self.frame_size,
            vreg_counter: self.vreg_counter,
        }
    }
}

impl IrFunction {
    pub fn new(address: u64, name: String) -> (func: Self)
        ensures
            func@ == (FunctionModel {
                address,
                name: name@,
                blocks: Seq::empty(),
                param_count: 0,
                frame_size: 0,
                vreg_counter: 0,
            }),
    {
        let func = Self {
            address,
            name,
            blocks: Vec::new(),
            param_count: 0,
            frame_size: 0,
            vreg_counter: 0,
        };
        assert(func@.blocks =~= Seq::empty());
        func
    }

    pub fn entry_block(&self) -> (first: Option<&BasicBlock>)
        ensures
            first is Some <==> self.blocks@.len() > 0,
            first matches Some(b) ==> *b == self.blocks@[0] && b@ == self@.blocks[0],
    {
        if self.blocks.len() > 0 {
            Some(&self.blocks[0])
        } else {
            None
        }
    }
}

} // verus!

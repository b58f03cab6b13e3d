//! The blocks of a function, and what is known of it as a whole.
use vstd::prelude::*;

use super::blocks::lemma_place;
use super::meaning::{
    all_closed, begins, block_starts, ends_block, entered, first_group, fits, frame_of, fresh_lift,
    last_group, lemma_block_starts, lemma_with_key, lifted, numbered, place, stack_depth,
    starts_after, Grouping, Lift,
};
use super::{BasicBlock, BinOp, BlockModel, Expr, IrFunction, Stmt, StmtModel, UnOp, Width};
use crate::binary::Arch;
use crate::disasm::discovery::{always_jumps, may_jump, returns_from};
use crate::disasm::kinds::{branches, jumps, leaves_function};
use crate::disasm::model::{CodeModel, ItemModel};
use crate::sorted::{ascending, lemma_slot, with_key};
use crate::x86::{Instr, Mnemonic, OpKind, Operand, Register};

verus! {

/// Control does not go on behind the operation, or not only there.
pub open spec fn passes_on(m: Mnemonic) -> bool {
    may_jump(m) || always_jumps(m) || returns_from(m)
}

/// Because of instruction `i` a block starts at the address: it is what the instruction jumps to,
/// or stands behind an instruction that passes control on, in memory or in the list.
pub open spec fn starts_block(items: Seq<ItemModel>, i: int, a: u64) -> bool {
    let instr = items[i].instr;
    let m = instr.mnemonic;
    let kind = instr.op0.kind;
    &&& 0 <= i < items.len()
    &&& {
        ||| may_jump(m) && a == instr.near_branch_target
        ||| always_jumps(m) && (kind == OpKind::NearBranch32 || kind == OpKind::NearBranch64) && a
            == instr.near_branch_target
        ||| passes_on(m) && a == instr.next_ip
        ||| (i == 0 || passes_on(items[i - 1].instr.mnemonic)) && a == items[i].address
    }
}

proof fn lemma_kinds(m: Mnemonic)
    ensures
        branches(m) <==> may_jump(m),
        jumps(m) <==> always_jumps(m),
        leaves_function(m) <==> returns_from(m),
        ends_block(m) <==> passes_on(m),
{
}

proof fn lemma_starts_after(keys: Seq<u64>, instr: Instr, a: u64)
    requires
        ascending(keys),
    ensures
        starts_after(keys, instr).contains(a) <==> {
            ||| keys.contains(a)
            ||| may_jump(instr.mnemonic) && a == instr.near_branch_target
            ||| always_jumps(instr.mnemonic) && (instr.op0.kind == OpKind::NearBranch32
                || instr.op0.kind == OpKind::NearBranch64) && a == instr.near_branch_target
            ||| passes_on(instr.mnemonic) && a == instr.next_ip
        },
{
    lemma_kinds(instr.mnemonic);
    lemma_with_key(keys, instr.near_branch_target);
    lemma_with_key(with_key(keys, instr.near_branch_target), instr.next_ip);
    lemma_with_key(keys, instr.next_ip);
    let one = with_key(keys, instr.near_branch_target);
    assert(one.contains(a) <==> keys.contains(a) || a == instr.near_branch_target);
    assert(with_key(one, instr.next_ip).contains(a) <==> one.contains(a) || a == instr.next_ip);
    assert(with_key(keys, instr.next_ip).contains(a) <==> keys.contains(a) || a == instr.next_ip);
}

/// A block starts because of one of the instructions, or of one before the last one.
proof fn lemma_because_more(items: Seq<ItemModel>, a: u64)
    requires
        items.len() > 0,
    ensures
        (exists|i: int| #[trigger] starts_block(items, i, a)) <==> (exists|i: int| #[trigger]
            starts_block(items.drop_last(), i, a)) || starts_block(items, items.len() - 1, a),
{
    let rest = items.drop_last();
    let n = rest.len() as int;
    if exists|i: int| #[trigger] starts_block(rest, i, a) {
        let i = choose|i: int| #[trigger] starts_block(rest, i, a);
        assert(rest[i] == items[i]);
        if i > 0 {
            assert(rest[i - 1] == items[i - 1]);
        }
        assert(starts_block(items, i, a));
    }
    if exists|i: int| #[trigger] starts_block(items, i, a) {
        let i = choose|i: int| #[trigger] starts_block(items, i, a);
        if i < n {
            assert(rest[i] == items[i]);
            if i > 0 {
                assert(rest[i - 1] == items[i - 1]);
            }
            assert(starts_block(rest, i, a));
        }
    }
}

/// A block starts at an address exactly if the function does, or because of an instruction.
pub proof fn lemma_starts(address: u64, items: Seq<ItemModel>, a: u64)
    ensures
        block_starts(address, items).contains(a) <==> a == address || exists|i: int| #[trigger]
            starts_block(items, i, a),
        ascending(block_starts(address, items)),
    decreases items.len(),
{
    lemma_block_starts(address, items);
    if items.len() == 0 {
        assert(seq![address][0] == address);
    } else {
        let rest = items.drop_last();
        let n = rest.len() as int;
        let last = items.last();
        let before = block_starts(address, rest);
        lemma_starts(address, rest, a);
        lemma_with_key(before, last.address);
        let keys = if begins(items, n) {
            with_key(before, last.address)
        } else {
            before
        };
        assert(with_key(before, last.address).contains(a) <==> before.contains(a) || a
            == last.address);
        lemma_starts_after(keys, last.instr, a);
        if n > 0 {
            lemma_kinds(items[n - 1].instr.mnemonic);
        }
        lemma_because_more(items, a);
        assert(block_starts(address, items) == starts_after(keys, last.instr));
        assert(block_starts(address, items).contains(a) <==> before.contains(a) || starts_block(
            items,
            n,
            a,
        ));
    }
}

/// The number of a block is the number of blocks that start at a smaller address.
pub proof fn lemma_numbers(keys: Seq<u64>, a: u64)
    requires
        ascending(keys),
        keys.len() <= u32::MAX,
    ensures
        numbered(keys).contains_key(a) <==> keys.contains(a),
        keys.contains(a) ==> numbered(keys)[a] < keys.len() && keys[numbered(keys)[a] as int] == a,
{
    lemma_slot(keys, a);
}

/// An instruction at which another block starts ends the current one, which gets a jump there where
/// it passes control on to nothing; any other instruction belongs to the current block.
pub proof fn lemma_arrival(g: Grouping, item: ItemModel)
    ensures
        ({
            let a = item.address;
            let m = g.arrive(a);
            let turns = g.lift.blocks.contains_key(a) && g.lift.blocks[a] != g.id;
            &&& !turns ==> m == g
            &&& turns ==> {
                let last = m.done.last();
                &&& m.id == g.lift.blocks[a] && m.addr == a && m.lift.out.len() == 0
                &&& m.lift == Lift { out: m.lift.out, ..g.lift }
                &&& m.done.len() == g.done.len() + 1 && m.done.drop_last() == g.done
                &&& last.id == g.id && last.address == g.addr
                &&& g.lift.out.len() > 0 && (g.lift.out.last() is Jump || g.lift.out.last()
                    is Branch || g.lift.out.last() is Return || g.lift.out.last() is IndirectJump)
                    ==> last.stmts == g.lift.out
                &&& g.lift.out.len() == 0 || !(g.lift.out.last() is Jump || g.lift.out.last()
                    is Branch || g.lift.out.last() is Return || g.lift.out.last() is IndirectJump)
                    ==> last.stmts == g.lift.out.push(StmtModel::Jump(g.lift.blocks[a]))
            }
            &&& g.step(item) == (Grouping { lift: m.lift.instr(item.instr, m.id), ..m })
        }),
{
    assert(g.arrive(item.address).done.drop_last() =~= g.done
        || g.arrive(item.address) == g);
}

/// The last statement of a block says where control goes: to one block behind a jump, to one of two
/// behind a branch, the one where the condition holds first, and nowhere else.
pub proof fn lemma_successors(b: BlockModel)
    ensures
        b.stmts.len() > 0 && b.stmts.last() is Jump ==> b.successors() == seq![
            b.stmts.last()->Jump_0,
        ],
        b.stmts.len() > 0 ==> (b.stmts.last() matches StmtModel::Branch { cond, true_id, false_id }
            ==> b.successors() == seq![true_id, false_id]),
        b.stmts.len() == 0 || !(b.stmts.last() is Jump) && !(b.stmts.last() is Branch)
            ==> b.successors().len() == 0,
        b.terminator() is Some <==> b.stmts.len() > 0 && (b.stmts.last() is Jump || b.stmts.last()
            is Branch || b.stmts.last() is Return || b.stmts.last() is IndirectJump),
        b.terminator() matches Some(s) ==> s == b.stmts.last(),
{
}

/// The width of an expression.
pub proof fn lemma_widths(e: Expr)
    ensures
        match e {
            Expr::Reg(_, w) => e.value_width() == w,
            Expr::Const(_, w) => e.value_width() == w,
            Expr::Load(_, w) => e.value_width() == w,
            Expr::StackSlot(_, w) => e.value_width() == w,
            Expr::Addr(_) => e.value_width() == Width::W64,
            Expr::BinOp(_, l, _) => e.value_width() == l.value_width(),
            Expr::UnOp(UnOp::Neg, _) => e.value_width() == Width::W64,
            Expr::UnOp(UnOp::Not, _) => e.value_width() == Width::W64,
            Expr::UnOp(UnOp::ZExt(w), _) => e.value_width() == w,
            Expr::UnOp(UnOp::SExt(w), _) => e.value_width() == w,
            Expr::UnOp(UnOp::Trunc(w), _) => e.value_width() == w,
        },
{
}

/// The number of bits, and the width with that number; anything else is taken for 64 bits.
pub proof fn lemma_bits(w: Width, b: u16)
    ensures
        Width::of_bits(w.bits() as u16) == w,
        w == Width::W8 <==> w.bits() == 8,
        w == Width::W16 <==> w.bits() == 16,
        w == Width::W32 <==> w.bits() == 32,
        w == Width::W64 <==> w.bits() == 64,
        b != 8 && b != 16 && b != 32 ==> Width::of_bits(b) == Width::W64,
{
}

/// The models hold what the values hold.
pub proof fn lemma_models(stmt: Stmt, block: BasicBlock, func: IrFunction)
    ensures
        match stmt {
            Stmt::Assign(d, e) => stmt@ == StmtModel::Assign(d, e),
            Stmt::Store { addr, val, width } => stmt@ == (StmtModel::Store { addr, val, width }),
            Stmt::Call { dst, func: f, args } => stmt@ == (StmtModel::Call {
                dst,
                func: f,
                args: args@,
            }),
            Stmt::Return(e) => stmt@ == StmtModel::Return(e),
            Stmt::Jump(id) => stmt@ == StmtModel::Jump(id),
            Stmt::Branch { cond, true_id, false_id } => stmt@ == (StmtModel::Branch {
                cond,
                true_id,
                false_id,
            }),
            Stmt::IndirectJump(e) => stmt@ == StmtModel::IndirectJump(e),
            Stmt::Nop => stmt@ == StmtModel::Nop,
            Stmt::Unhandled(s) => stmt@ == StmtModel::Unhandled(s@),
        },
        block@.id == block.id && block@.address == block.address,
        block@.stmts.len() == block.stmts@.len(),
        forall|i: int|
            0 <= i < block.stmts@.len() ==> #[trigger] block@.stmts[i] == block.stmts@[i]@,
        func@.address == func.address && func@.name == func.name@,
        func@.param_count == func.param_count && func@.frame_size == func.frame_size
            && func@.vreg_counter == func.vreg_counter,
        func@.blocks.len() == func.blocks@.len(),
        forall|i: int|
            0 <= i < func.blocks@.len() ==> #[trigger] func@.blocks[i] == func.blocks@[i]@,
{
}

/// The instruction moves the stack pointer by a number.
pub open spec fn moves_stack(instr: Instr) -> bool {
    let r = instr.op0.register;
    let k = instr.op1.kind;
    &&& instr.op0.kind == OpKind::Register && (r == Register::RSP || r == Register::ESP || r
        == Register::SP || r == Register::SPL)
    &&& k == OpKind::Immediate8 || k == OpKind::Immediate8Second || k == OpKind::Immediate16 || k
        == OpKind::Immediate32 || k == OpKind::Immediate64 || k == OpKind::Immediate8to16 || k
        == OpKind::Immediate8to32 || k == OpKind::Immediate8to64 || k == OpKind::Immediate32to64
    &&& instr.mnemonic == Mnemonic::Sub || instr.mnemonic == Mnemonic::Add
}

/// The number of an immediate operand, with its sign: of the lowest byte for one of a byte, else of
/// all 64 bits.
pub open spec fn signed_immediate(op: Operand) -> int {
    if op.kind == OpKind::Immediate8 || op.kind == OpKind::Immediate8Second {
        if op.immediate % 256 >= 128 {
            op.immediate % 256 - 256
        } else {
            (op.immediate % 256) as int
        }
    } else if op.immediate >= 0x8000_0000_0000_0000 {
        op.immediate - 0x1_0000_0000_0000_0000
    } else {
        op.immediate as int
    }
}

/// The space on the stack grows by what is subtracted from the stack pointer and shrinks by what is
/// added to it, between none and the greatest size; no other instruction changes it.
pub proof fn lemma_depth(items: Seq<ItemModel>, item: ItemModel)
    ensures
        stack_depth(Seq::<ItemModel>::empty()) == 0,
        ({
            let d = stack_depth(items);
            let e = stack_depth(items.push(item));
            let v = signed_immediate(item.instr.op1);
            let n = if item.instr.mnemonic == Mnemonic::Sub {
                d + v
            } else {
                d - v
            };
            &&& moves_stack(item.instr) && 0 <= n <= u32::MAX ==> e == n
            &&& moves_stack(item.instr) && n < 0 ==> e == 0
            &&& moves_stack(item.instr) && n > u32::MAX ==> e == u32::MAX
            &&& !moves_stack(item.instr) ==> e == d
            &&& 0 <= d <= u32::MAX
        }),
    decreases items.len(),
{
    assert(items.push(item).drop_last() =~= items);
    if items.len() > 0 {
        lemma_depth(items.drop_last(), items.last());
        assert(items.drop_last().push(items.last()) =~= items);
    }
}

/// The frame size is the greatest space on the stack at any point of the function.
pub proof fn lemma_frame(items: Seq<ItemModel>) -> (k: int)
    ensures
        0 <= k <= items.len(),
        frame_of(items) == stack_depth(items.take(k)),
        forall|n: int|
            0 <= n <= items.len() ==> stack_depth(#[trigger] items.take(n)) <= frame_of(items),
    decreases items.len(),
{
    if items.len() == 0 {
        assert(items.take(0) =~= items);
        assert forall|n: int| 0 <= n <= items.len() implies stack_depth(#[trigger] items.take(n))
            <= frame_of(items) by {
            assert(items.take(n) =~= items);
        }
        0
    } else {
        let rest = items.drop_last();
        let k = lemma_frame(rest);
        assert(items.take(items.len() as int) =~= items);
        assert forall|n: int| 0 <= n <= items.len() implies stack_depth(#[trigger] items.take(n))
            <= frame_of(items) by {
            if n < items.len() {
                assert(rest.take(n) =~= items.take(n));
            }
        }
        if stack_depth(items) > frame_of(rest) {
            items.len() as int
        } else {
            assert(rest.take(k) =~= items.take(k));
            k
        }
    }
}

/// A lifted function has the address and name of its code, as many parameters as argument registers
/// were read before they were written, and the frame size of its code.
pub proof fn lemma_function(lift: Lift, code: CodeModel)
    ensures
        lifted(lift, code).address == code.address,
        lifted(lift, code).name == code.name,
        lifted(lift, code).param_count == last_group(lift, code).lift.params.len(),
        lifted(lift, code).frame_size == frame_of(code.instrs),
        last_group(lift, code).lift.next <= u32::MAX ==> lifted(lift, code).vreg_counter
            == last_group(lift, code).lift.next,
{
    let k = lemma_frame(code.instrs);
    let items = code.instrs.take(k);
    if items.len() > 0 {
        lemma_depth(items, items.last());
    }
}

/// A lifter starts without registers, comparisons, parameters and blocks, with number 0.
pub proof fn lemma_fresh(arch: Arch)
    ensures
        fresh_lift(arch).arch == arch && fresh_lift(arch).next == 0,
        fresh_lift(arch).regs == Map::<u16, u32>::empty(),
        fresh_lift(arch).flags is None,
        fresh_lift(arch).params.len() == 0,
        fresh_lift(arch).out.len() == 0,
        fresh_lift(arch).blocks == Map::<u64, u32>::empty(),
{
}

/// A block that ends without passing control on gets the given end; any other stays as it is.
pub proof fn lemma_closed(blocks: Seq<BlockModel>, i: int)
    requires
        0 <= i < blocks.len(),
    ensures
        ({
            let b = all_closed(blocks)[i];
            let stmts = blocks[i].stmts;
            let ended = stmts.len() > 0 && (stmts.last() is Jump || stmts.last() is Branch
                || stmts.last() is Return || stmts.last() is IndirectJump);
            &&& all_closed(blocks).len() == blocks.len()
            &&& b.id == blocks[i].id && b.address == blocks[i].address
            &&& ended ==> b.stmts == stmts
            &&& !ended ==> b.stmts == stmts.push(StmtModel::Return(None))
        }),
{
}

/// The entry block comes first and the others keep their order; where no block has its id, a block
/// that jumps to the first one is put before them.
pub proof fn lemma_entered(blocks: Seq<BlockModel>, id: u32, address: u64, k: int)
    requires
        blocks.len() > 0,
        k == place(blocks, id),
    ensures
        ({
            let all = entered(blocks, id, address);
            &&& (forall|i: int| 0 <= i < blocks.len() ==> (#[trigger] blocks[i]).id != id) ==> {
                &&& all.len() == blocks.len() + 1 && all.skip(1) == blocks
                &&& all[0].id == id && all[0].address == address
                &&& all[0].stmts == seq![StmtModel::Jump(blocks[0].id)]
            }
            &&& (exists|i: int| 0 <= i < blocks.len() && (#[trigger] blocks[i]).id == id) ==> {
                &&& 0 <= k < blocks.len() && blocks[k].id == id && all.len() == blocks.len()
                &&& all[0] == blocks[k]
                &&& forall|i: int| 0 <= i < k ==> (#[trigger] blocks[i]).id != id
                &&& forall|i: int| 0 < i <= k ==> #[trigger] all[i] == blocks[i - 1]
                &&& forall|i: int| k < i < blocks.len() ==> #[trigger] all[i] == blocks[i]
            }
        }),
{
    lemma_place(blocks, id);
    if k == blocks.len() {
        assert(entered(blocks, id, address).skip(1) =~= blocks);
    }
}

/// A function is lifted instruction by instruction from its first one on: its blocks are those that
/// are done and the current one, closed, with the one at the start of the function first. It can be
/// lifted where the numbers of registers and blocks suffice.
pub proof fn lemma_lifted(
    lift: Lift,
    code: CodeModel,
    g: Grouping,
    items: Seq<ItemModel>,
    item: ItemModel,
)
    ensures
        ({
            let first = first_group(lift, code);
            let last = last_group(lift, code);
            let starts = block_starts(code.address, code.instrs);
            let a = if code.instrs.len() > 0 {
                code.instrs[0].address
            } else {
                code.address
            };
            &&& first.addr == a && first.id == numbered(starts)[a]
            &&& first.done.len() == 0 && first.lift.out.len() == 0
            &&& first.lift == Lift { blocks: numbered(starts), out: first.lift.out, ..lift }
            &&& last == first.steps(code.instrs)
            &&& g.steps(Seq::empty()) == g
            &&& g.steps(items.push(item)) == g.steps(items).step(item)
            &&& lifted(lift, code).blocks == entered(
                all_closed(
                    last.done.push(
                        BlockModel { id: last.id, address: last.addr, stmts: last.lift.out },
                    ),
                ),
                last.lift.blocks[code.address],
                code.address,
            )
            &&& fits(lift, code) <==> last.lift.next <= 0xffff_ffff && starts.len() <= 0xffff_ffff
        }),
{
    assert(items.push(item).drop_last() =~= items);
}

} // verus!

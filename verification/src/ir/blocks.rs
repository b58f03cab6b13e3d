//! The blocks of a lifted function: one for each start, each with one terminator.
use vstd::prelude::*;

use super::meaning::{
    all_closed, begins, block_starts, closed, ends_block, first_group, last_group,
    lemma_block_starts, lifted, numbered, place, Grouping, Lift,
};
use super::single::{lemma_instr_grows, terminates};
use super::{BlockModel, StmtModel};
use crate::disasm::model::{addresses, CodeModel, ItemModel};
use crate::sorted::{ascending, lemma_slot, slot};

verus! {

/// The last statement is a terminator, and no other.
pub open spec fn neat(stmts: Seq<StmtModel>) -> bool {
    &&& stmts.len() > 0
    &&& stmts.last().is_terminator()
    &&& forall|i: int| 0 <= i < stmts.len() - 1 ==> !(#[trigger] stmts[i]).is_terminator()
}

pub proof fn lemma_place(blocks: Seq<BlockModel>, id: u32)
    ensures
        0 <= place(blocks, id) <= blocks.len(),
        place(blocks, id) < blocks.len() ==> blocks[place(blocks, id)].id == id,
        forall|i: int| 0 <= i < place(blocks, id) ==> (#[trigger] blocks[i]).id != id,
    decreases blocks.len(),
{
    if blocks.len() > 0 && blocks[0].id != id {
        let rest = blocks.skip(1);
        lemma_place(rest, id);
        assert forall|i: int| 0 <= i < place(blocks, id) implies (#[trigger] blocks[i]).id
            != id by {
            if i > 0 {
                assert(rest[i - 1] == blocks[i]);
            }
        }
    }
}

/// Two starts with one number are the same.
proof fn lemma_slot_order(keys: Seq<u64>, a: u64, b: u64)
    requires
        ascending(keys),
        keys.contains(a),
        keys.contains(b),
    ensures
        a < b <==> slot(keys, a) < slot(keys, b),
        0 <= slot(keys, a) < keys.len(),
{
    lemma_slot(keys, a);
    lemma_slot(keys, b);
    let i = slot(keys, a);
    let j = slot(keys, b);
    if a < b && i >= j {
        assert(keys[j] == b && keys[i] == a);
        assert(i == j || keys[j] < keys[i]);
    }
    if i < j {
        assert(keys[i] < keys[j]);
    }
}

/// The block starts at the address that has its number.
pub open spec fn numbered_by(keys: Seq<u64>, block: BlockModel) -> bool {
    keys.contains(block.address) && block.id == slot(keys, block.address)
}

/// The blocks that are done stand in the order of their addresses, before the current one.
pub open spec fn in_order(keys: Seq<u64>, blocks: Seq<BlockModel>) -> bool {
    &&& forall|i: int| 0 <= i < blocks.len() ==> numbered_by(keys, #[trigger] blocks[i])
    &&& forall|i: int, j: int|
        0 <= i < j < blocks.len() ==> (#[trigger] blocks[i]).address < (
        #[trigger] blocks[j]).address
}

/// What holds of the grouping after the first `n` instructions.
spec fn grouped(g: Grouping, keys: Seq<u64>, items: Seq<ItemModel>, n: int) -> bool {
    &&& g.lift.blocks == numbered(keys)
    &&& in_order(keys, g.all())
    &&& n == 0 && items.len() > 0 ==> g.addr == items[0].address
    &&& n > 0 ==> g.addr <= items[n - 1].address
    &&& forall|i: int| 0 <= i < g.done.len() ==> neat((#[trigger] g.done[i]).stmts)
    &&& forall|i: int|
        0 <= i < g.lift.out.len() - 1 ==> !(#[trigger] g.lift.out[i]).is_terminator()
    &&& g.lift.out.len() > 0 && g.lift.out.last().is_terminator() ==> n > 0 && ends_block(
        items[n - 1].instr.mnemonic,
    )
}

proof fn lemma_closed_neat(block: BlockModel, end: StmtModel)
    requires
        end.is_terminator(),
        forall|i: int|
            0 <= i < block.stmts.len() - 1 ==> !(#[trigger] block.stmts[i]).is_terminator(),
    ensures
        neat(closed(block, end).stmts),
{
    let c = closed(block, end);
    if block.terminator() is None {
        assert forall|i: int| 0 <= i < c.stmts.len() - 1 implies !(
        #[trigger] c.stmts[i]).is_terminator() by {
            assert(c.stmts[i] == block.stmts[i]);
            if i == block.stmts.len() - 1 {
                assert(block.stmts.last() == block.stmts[i]);
            }
        }
        assert(c.stmts.last() == end);
    }
}

#[verifier::spinoff_prover]
proof fn lemma_grouped_step(g: Grouping, keys: Seq<u64>, items: Seq<ItemModel>, n: int)
    requires
        grouped(g, keys, items, n),
        0 <= n < items.len(),
        ascending(keys),
        keys.len() <= u32::MAX,
        ascending(addresses(items)),
        forall|i: int|
            0 <= i < items.len() && begins(items, i) ==> keys.contains(
                (#[trigger] items[i]).address,
            ),
    ensures
        grouped(g.step(items[n]), keys, items, n + 1),
{
    let item = items[n];
    let s = g.arrive(item.address);
    let next = g.step(item);
    lemma_instr_grows(s.lift, item.instr, s.id);
    assert(numbered_by(keys, g.all()[g.done.len() as int]));
    assert(g.all()[g.done.len() as int] == g.current());
    if n > 0 {
        assert(addresses(items)[n - 1] < addresses(items)[n]);
    }
    let turns = keys.contains(item.address) && slot(keys, item.address) as u32 != g.id;
    if keys.contains(item.address) {
        lemma_slot_order(keys, g.addr, item.address);
        lemma_slot_order(keys, item.address, g.addr);
    }
    lemma_slot_order(keys, g.addr, g.addr);
    if turns {
        let end = StmtModel::Jump(slot(keys, item.address) as u32);
        lemma_closed_neat(g.current(), end);
        assert(n > 0);
        assert(s.all() =~= g.done.push(closed(g.current(), end)).push(
            BlockModel {
                id: slot(keys, item.address) as u32,
                address: item.address,
                stmts: Seq::empty(),
            },
        ));
        assert forall|i: int| 0 <= i < s.done.len() implies neat((#[trigger] s.done[i]).stmts) by {
            if i < g.done.len() {
                assert(s.done[i] == g.done[i]);
            }
        }
        assert forall|i: int| 0 <= i < s.all().len() implies numbered_by(
            keys,
            #[trigger] s.all()[i],
        ) by {
            if i < g.done.len() {
                assert(s.all()[i] == g.all()[i]);
            }
        }
        assert forall|i: int, j: int| 0 <= i < j < s.all().len() implies (
        #[trigger] s.all()[i]).address < (#[trigger] s.all()[j]).address by {
            assert(i <= g.done.len());
            assert(s.all()[i].address == g.all()[i].address);
            if j <= g.done.len() {
                assert(s.all()[j].address == g.all()[j].address);
            } else if i < g.done.len() {
                assert(g.all()[i].address < g.all()[g.done.len() as int].address);
            }
        }
    } else {
        assert(s == g);
        if g.lift.out.len() > 0 && g.lift.out.last().is_terminator() {
            assert(begins(items, n));
            assert(keys.contains(items[n].address));
            assert(false);
        }
        assert forall|i: int| 0 <= i < g.lift.out.len() implies !(
        #[trigger] g.lift.out[i]).is_terminator() by {
            if i == g.lift.out.len() - 1 {
                assert(g.lift.out.last() == g.lift.out[i]);
            }
        }
    }
    let out = next.lift.out;
    assert forall|i: int| 0 <= i < out.len() - 1 implies !(
    #[trigger] out[i]).is_terminator() by {
        if i < s.lift.out.len() {
            assert(out[i] == s.lift.out[i]);
        }
    }
    if out.len() > 0 && out.last().is_terminator() {
        if out.len() == s.lift.out.len() {
            assert(out.last() == s.lift.out[out.len() - 1]);
        } else {
            assert(out.last() == out[out.len() - 1]);
        }
        assert(terminates(item.instr.mnemonic));
    }
    assert forall|i: int| 0 <= i < next.all().len() implies numbered_by(
        keys,
        #[trigger] next.all()[i],
    ) by {
        assert(numbered_by(keys, s.all()[i]));
    }
    assert forall|i: int, j: int| 0 <= i < j < next.all().len() implies (
    #[trigger] next.all()[i]).address < (#[trigger] next.all()[j]).address by {
        assert(s.all()[i].address < s.all()[j].address);
    }
}

proof fn lemma_grouped(g: Grouping, keys: Seq<u64>, items: Seq<ItemModel>, n: int)
    requires
        grouped(g, keys, items, 0),
        0 <= n <= items.len(),
        ascending(keys),
        keys.len() <= u32::MAX,
        ascending(addresses(items)),
        forall|i: int|
            0 <= i < items.len() && begins(items, i) ==> keys.contains(
                (#[trigger] items[i]).address,
            ),
    ensures
        grouped(g.steps(items.take(n)), keys, items, n),
    decreases n,
{
    if n > 0 {
        lemma_grouped(g, keys, items, n - 1);
        assert(items.take(n).drop_last() =~= items.take(n - 1));
        lemma_grouped_step(g.steps(items.take(n - 1)), keys, items, n - 1);
    } else {
        assert(items.take(0) =~= Seq::empty());
    }
}

/// What holds before the first instruction.
proof fn lemma_first_grouped(lift: Lift, code: CodeModel)
    requires
        block_starts(code.address, code.instrs).len() <= u32::MAX,
    ensures
        grouped(
            first_group(lift, code),
            block_starts(code.address, code.instrs),
            code.instrs,
            0,
        ),
{
    let keys = block_starts(code.address, code.instrs);
    lemma_block_starts(code.address, code.instrs);
    let g = first_group(lift, code);
    if code.instrs.len() > 0 {
        assert(begins(code.instrs, 0));
        assert(keys.contains(code.instrs[0].address));
    }
    lemma_slot(keys, g.addr);
    assert(keys.contains(g.addr));
    assert(g.all() =~= seq![g.current()]);
}

/// The blocks of a function whose instructions stand in the order of their addresses: there is at
/// least one, no two have the same id, each has exactly one terminator, and the first is the one at
/// the start of the function.
pub proof fn lemma_blocks(lift: Lift, code: CodeModel)
    requires
        ascending(addresses(code.instrs)),
        block_starts(code.address, code.instrs).len() <= u32::MAX,
    ensures
        ({
            let blocks = lifted(lift, code).blocks;
            &&& blocks.len() > 0
            &&& blocks[0].address == code.address
            &&& forall|i: int| 0 <= i < blocks.len() ==> neat((#[trigger] blocks[i]).stmts)
            &&& forall|i: int, j: int|
                0 <= i < j < blocks.len() ==> (#[trigger] blocks[i]).id != (
                #[trigger] blocks[j]).id
        }),
{
    let keys = block_starts(code.address, code.instrs);
    let items = code.instrs;
    lemma_block_starts(code.address, items);
    lemma_first_grouped(lift, code);
    lemma_grouped(first_group(lift, code), keys, items, items.len() as int);
    assert(items.take(items.len() as int) =~= items);
    let last = last_group(lift, code);
    let all = last.all();
    let done = all_closed(all);
    let id = last.lift.blocks[code.address];
    lemma_slot(keys, code.address);
    lemma_place(done, id);
    assert forall|i: int| 0 <= i < done.len() implies neat((#[trigger] done[i]).stmts)
        && done[i].id == all[i].id && done[i].address == all[i].address by {
        assert(done[i] == closed(all[i], StmtModel::Return(None)));
        if i < last.done.len() {
            assert(all[i] == last.done[i]);
            assert(neat(last.done[i].stmts));
        } else {
            lemma_closed_neat(all[i], StmtModel::Return(None));
        }
    }
    assert forall|i: int, j: int| 0 <= i < j < done.len() implies (#[trigger] done[i]).id != (
    #[trigger] done[j]).id by {
        assert(numbered_by(keys, all[i]) && numbered_by(keys, all[j]));
        assert(all[i].address < all[j].address);
        lemma_slot_order(keys, all[i].address, all[j].address);
    }
    let blocks = lifted(lift, code).blocks;
    let k = place(done, id);
    if k < done.len() {
        assert(numbered_by(keys, all[k]));
        lemma_slot_order(keys, all[k].address, code.address);
        lemma_slot_order(keys, code.address, all[k].address);
        let from = |i: int|
            if i == 0 {
                k
            } else if i <= k {
                i - 1
            } else {
                i
            };
        assert forall|i: int| 0 <= i < blocks.len() implies #[trigger] blocks[i] == done[from(
            i,
        )] by {}
        assert forall|i: int, j: int| 0 <= i < j < blocks.len() implies (
        #[trigger] blocks[i]).id != (#[trigger] blocks[j]).id by {
            assert(from(i) != from(j));
            assert(blocks[i] == done[from(i)] && blocks[j] == done[from(j)]);
            if from(i) < from(j) {
                assert(done[from(i)].id != done[from(j)].id);
            } else {
                assert(done[from(j)].id != done[from(i)].id);
            }
        }
    } else {
        assert forall|i: int| 1 <= i < blocks.len() implies #[trigger] blocks[i] == done[i
            - 1] by {}
        assert forall|i: int, j: int| 0 <= i < j < blocks.len() implies (
        #[trigger] blocks[i]).id != (#[trigger] blocks[j]).id by {
            assert(blocks[j] == done[j - 1]);
            if i > 0 {
                assert(blocks[i] == done[i - 1]);
            } else {
                assert(done[j - 1].id != id);
            }
        }
        assert(neat(blocks[0].stmts));
    }
}

/// The block that was the current one is still there, with all of its statements.
spec fn keeps(p: Grouping, q: Grouping) -> bool {
    let k = p.done.len() as int;
    &&& k < q.all().len()
    &&& q.all()[k].id == p.id
    &&& q.all()[k].address == p.addr
    &&& p.lift.out.is_prefix_of(q.all()[k].stmts)
}

proof fn lemma_keeps(g: Grouping, items: Seq<ItemModel>, n: int, m: int)
    requires
        0 <= n <= m <= items.len(),
    ensures
        keeps(g.steps(items.take(n)), g.steps(items.take(m))),
    decreases m,
{
    let p = g.steps(items.take(n));
    if n == m {
        assert(p.all()[p.done.len() as int] == p.current());
    } else {
        lemma_keeps(g, items, n, m - 1);
        let q = g.steps(items.take(m - 1));
        let item = items[m - 1];
        assert(items.take(m).drop_last() =~= items.take(m - 1));
        assert(items.take(m).last() == item);
        let s = q.arrive(item.address);
        let next = g.steps(items.take(m));
        assert(next == q.step(item));
        lemma_instr_grows(s.lift, item.instr, s.id);
        let k = p.done.len() as int;
        if k < q.done.len() {
            assert(next.all()[k] == q.all()[k]);
        } else {
            assert(q.all()[k] == q.current());
            if s.done.len() == q.done.len() {
                assert(next.all()[k] == next.current());
                assert forall|i: int| 0 <= i < p.lift.out.len() implies p.lift.out[i]
                    == next.lift.out[i] by {
                    assert(p.lift.out[i] == q.lift.out[i]);
                }
            } else {
                let end = closed(q.current(), StmtModel::Jump(s.id));
                assert(next.all()[k] == end);
                assert forall|i: int| 0 <= i < p.lift.out.len() implies p.lift.out[i]
                    == end.stmts[i] by {
                    assert(p.lift.out[i] == q.lift.out[i]);
                }
            }
        }
    }
}

/// The first block of a function begins with what the instruction at the start of the function is
/// lifted to.
pub proof fn lemma_entry_code(lift: Lift, code: CodeModel, k: int)
    requires
        ascending(addresses(code.instrs)),
        block_starts(code.address, code.instrs).len() <= u32::MAX,
        0 <= k < code.instrs.len(),
        code.instrs[k].address == code.address,
    ensures
        ({
            let before = first_group(lift, code).steps(code.instrs.take(k)).arrive(code.address);
            &&& before.lift.out.len() == 0
            &&& before.lift.instr(code.instrs[k].instr, before.id).out.is_prefix_of(
                lifted(lift, code).blocks[0].stmts,
            )
        }),
{
    let keys = block_starts(code.address, code.instrs);
    let items = code.instrs;
    let n = items.len() as int;
    let first = first_group(lift, code);
    lemma_block_starts(code.address, items);
    lemma_first_grouped(lift, code);
    lemma_grouped(first, keys, items, k);
    lemma_grouped(first, keys, items, k + 1);
    lemma_grouped(first, keys, items, n);
    assert(items.take(n) =~= items);
    let g = first.steps(items.take(k));
    let before = g.arrive(code.address);
    assert(numbered_by(keys, g.all()[g.done.len() as int]));
    assert(g.all()[g.done.len() as int] == g.current());
    lemma_slot_order(keys, g.addr, code.address);
    lemma_slot_order(keys, code.address, g.addr);
    if k > 0 {
        assert(addresses(items)[k - 1] < addresses(items)[k]);
    } else {
        assert(items.take(0) =~= Seq::empty());
    }
    assert(items.take(k + 1).drop_last() =~= items.take(k));
    let p = first.steps(items.take(k + 1));
    assert(p.lift.out == before.lift.instr(items[k].instr, before.id).out);
    lemma_keeps(first, items, k + 1, n);
    let last = last_group(lift, code);
    let all = last.all();
    let done = all_closed(all);
    let id = last.lift.blocks[code.address];
    let i = p.done.len() as int;
    assert(all[i].id == id);
    assert(done[i] == closed(all[i], StmtModel::Return(None)));
    lemma_place(done, id);
    let j = place(done, id);
    assert(done[j] == closed(all[j], StmtModel::Return(None)));
    assert(numbered_by(keys, all[i]) && numbered_by(keys, all[j]));
    if j < i {
        assert(all[j].address < all[i].address);
        lemma_slot_order(keys, all[j].address, all[i].address);
    }
    assert(lifted(lift, code).blocks[0] == done[i]);
    assert forall|x: int| 0 <= x < p.lift.out.len() implies p.lift.out[x]
        == done[i].stmts[x] by {
        assert(p.lift.out[x] == all[i].stmts[x]);
    }
}

/// Every block of a function starts where it is numbered: blocks are numbered in the order of the
/// addresses at which they start.
pub proof fn lemma_block_numbers(lift: Lift, code: CodeModel)
    requires
        ascending(addresses(code.instrs)),
        block_starts(code.address, code.instrs).len() <= u32::MAX,
    ensures
        ({
            let keys = block_starts(code.address, code.instrs);
            let blocks = lifted(lift, code).blocks;
            &&& forall|i: int|
                0 <= i < blocks.len() ==> (#[trigger] blocks[i]).id < keys.len()
                    && keys[blocks[i].id as int] == blocks[i].address
            &&& last_group(lift, code).lift.blocks == numbered(keys)
        }),
{
    let keys = block_starts(code.address, code.instrs);
    let items = code.instrs;
    lemma_block_starts(code.address, items);
    lemma_first_grouped(lift, code);
    lemma_grouped(first_group(lift, code), keys, items, items.len() as int);
    assert(items.take(items.len() as int) =~= items);
    let last = last_group(lift, code);
    let all = last.all();
    let done = all_closed(all);
    let id = last.lift.blocks[code.address];
    lemma_slot(keys, code.address);
    lemma_place(done, id);
    assert forall|i: int| 0 <= i < done.len() implies (#[trigger] done[i]).id < keys.len()
        && keys[done[i].id as int] == done[i].address by {
        assert(done[i] == closed(all[i], StmtModel::Return(None)));
        assert(numbered_by(keys, all[i]));
        lemma_slot(keys, all[i].address);
    }
    let blocks = lifted(lift, code).blocks;
    let k = place(done, id);
    assert forall|i: int| 0 <= i < blocks.len() implies (#[trigger] blocks[i]).id < keys.len()
        && keys[blocks[i].id as int] == blocks[i].address by {
        if k < done.len() {
            let j = if i == 0 {
                k
            } else if i <= k {
                i - 1
            } else {
                i
            };
            assert(blocks[i] == done[j]);
        } else if i > 0 {
            assert(blocks[i] == done[i - 1]);
        }
    }
}

} // verus!

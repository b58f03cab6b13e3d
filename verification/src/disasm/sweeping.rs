//! Where the instructions of a function come from, and that none behind another is left out.
use vstd::prelude::*;

use super::discovery::{always_jumps, decoding_width, returns_from};
use super::model::{
    addresses, fresh_scan, instrs_of, item_at, lemma_tail_not_empty, ItemModel, Scan,
};
use crate::binary::laws::{covers, lemma_range_bytes, lemma_tail_bytes};
use crate::binary::{known, tail_bytes, BinaryModel};
use crate::finite::outside64;
use crate::sorted::{lemma_slot, slot};
use crate::x86::decode::instr_at;
use crate::x86::Instr;

verus! {

/// The instruction is the first one of the bytes of section `j` from place `off` on.
pub open spec fn decoded_at(bin: BinaryModel, item: ItemModel, j: int, off: int) -> bool {
    &&& 0 <= j < bin.sections.len() && 0 <= off < bin.sections[j].data.len()
    &&& item.instr == instr_at(
        decoding_width(bin.arch),
        bin.sections[j].data.skip(off),
        item.address,
    )
}

/// A symbol stands at the address.
pub open spec fn has_symbol(bin: BinaryModel, addr: u64) -> bool {
    exists|i: int| 0 <= i < bin.symbols.len() && (#[trigger] bin.symbols[i]).address == addr
}

/// Nothing goes on behind the instruction, or may not: it always jumps or returns, the section ends
/// with it, or a symbol stands behind it.
pub open spec fn may_end(bin: BinaryModel, instr: Instr, j: int, off: int) -> bool {
    ||| always_jumps(instr.mnemonic)
    ||| returns_from(instr.mnemonic)
    ||| instr.len == 0
    ||| off + instr.len >= bin.sections[j].data.len()
    ||| has_symbol(bin, instr.next_ip)
}

/// The instruction has been decoded from a section, and the one behind it has been looked at or is
/// the one to be looked at next, unless nothing goes on there.
spec fn settled(scan: Scan, bin: BinaryModel, item: ItemModel, next: Option<u64>) -> bool {
    &&& item == item_at(bin.sections, item.address, item.instr)
    &&& exists|j: int, off: int| #[trigger]
        decoded_at(bin, item, j, off) && (may_end(bin, item.instr, j, off) || scan.items.len()
            > 4096 || scan.visited.contains(item.instr.next_ip) || next == Some(
            item.instr.next_ip,
        ))
}

spec fn all_settled(scan: Scan, bin: BinaryModel, next: Option<u64>) -> bool {
    forall|i: int|
        0 <= i < scan.items.len() ==> settled(scan, bin, #[trigger] scan.items[i], next)
}

proof fn lemma_note_settled(
    scan: Scan,
    bin: BinaryModel,
    start: u64,
    addr: u64,
    j: int,
    off: int,
)
    requires
        scan.wf(),
        all_settled(scan, bin, Some(addr)),
        0 <= j < bin.sections.len(),
        0 <= off < bin.sections[j].data.len(),
    ensures
        ({
            let code = bin.sections[j].data.skip(off);
            let instr = instr_at(bin.arch.width(), code, addr);
            let stop = scan.move_at(bin, start, instr).stop || instr.len == 0 || instr.len
                >= code.len();
            all_settled(
                scan.note(bin, start, addr, instr),
                bin,
                if stop {
                    None
                } else {
                    Some(instr.next_ip)
                },
            )
        }),
{
    let code = bin.sections[j].data.skip(off);
    let instr = instr_at(bin.arch.width(), code, addr);
    let stop = scan.move_at(bin, start, instr).stop || instr.len == 0 || instr.len >= code.len();
    let next = scan.note(bin, start, addr, instr);
    let then = if stop {
        None
    } else {
        Some(instr.next_ip)
    };
    let k = slot(addresses(scan.items), addr);
    lemma_slot(addresses(scan.items), addr);
    assert(known(bin.symbols, instr.next_ip) == has_symbol(bin, instr.next_ip));
    assert forall|i: int| 0 <= i < next.items.len() implies settled(
        next,
        bin,
        #[trigger] next.items[i],
        then,
    ) by {
        let item = next.items[i];
        if i == k {
            assert(item == item_at(bin.sections, addr, instr));
            assert(decoded_at(bin, item, j, off));
        } else {
            if i < k {
                assert(item == scan.items[i]);
            } else {
                assert(item == scan.items[i - 1]);
            }
            assert(settled(scan, bin, item, Some(addr)));
            let (a, b) = choose|a: int, b: int| #[trigger]
                decoded_at(bin, item, a, b) && (may_end(bin, item.instr, a, b) || scan.items.len()
                    > 4096 || scan.visited.contains(item.instr.next_ip) || Some(addr) == Some(
                    item.instr.next_ip,
                ));
            assert(decoded_at(bin, item, a, b));
        }
    }
}

proof fn lemma_settled_weaker(scan: Scan, bin: BinaryModel, addr: u64)
    requires
        all_settled(scan, bin, None),
    ensures
        all_settled(scan, bin, Some(addr)),
{
    assert forall|i: int| 0 <= i < scan.items.len() implies settled(
        scan,
        bin,
        #[trigger] scan.items[i],
        Some(addr),
    ) by {
        let item = scan.items[i];
        assert(settled(scan, bin, item, None));
        let (a, b) = choose|a: int, b: int| #[trigger]
            decoded_at(bin, item, a, b) && (may_end(bin, item.instr, a, b) || scan.items.len()
                > 4096 || scan.visited.contains(item.instr.next_ip) || None::<u64> == Some(
                item.instr.next_ip,
            ));
        assert(decoded_at(bin, item, a, b));
    }
}

proof fn lemma_settled_visited(scan: Scan, bin: BinaryModel, addr: u64)
    requires
        all_settled(scan, bin, Some(addr)),
        scan.visited.contains(addr),
    ensures
        all_settled(scan, bin, None),
{
    assert forall|i: int| 0 <= i < scan.items.len() implies settled(
        scan,
        bin,
        #[trigger] scan.items[i],
        None,
    ) by {
        let item = scan.items[i];
        assert(settled(scan, bin, item, Some(addr)));
        let (a, b) = choose|a: int, b: int| #[trigger]
            decoded_at(bin, item, a, b) && (may_end(bin, item.instr, a, b) || scan.items.len()
                > 4096 || scan.visited.contains(item.instr.next_ip) || Some(addr) == Some(
                item.instr.next_ip,
            ));
        assert(decoded_at(bin, item, a, b));
    }
}

proof fn lemma_sweep_settled(
    scan: Scan,
    bin: BinaryModel,
    start: u64,
    addr: u64,
    j: int,
    off: int,
)
    requires
        scan.wf(),
        all_settled(scan, bin, Some(addr)),
        0 <= j < bin.sections.len(),
        0 <= off < bin.sections[j].data.len(),
    ensures
        all_settled(
            scan.sweep(bin, start, bin.sections[j].data.skip(off), addr),
            bin,
            None,
        ),
        scan.sweep(bin, start, bin.sections[j].data.skip(off), addr).wf(),
    decreases bin.sections[j].data.len() - off,
{
    let data = bin.sections[j].data;
    let code = data.skip(off);
    if scan.visited.contains(addr) {
        lemma_settled_visited(scan, bin, addr);
    } else {
        let instr = instr_at(bin.arch.width(), code, addr);
        let next = scan.note(bin, start, addr, instr);
        scan.lemma_note(bin, start, addr, instr);
        lemma_note_settled(scan, bin, start, addr, j, off);
        if !(scan.move_at(bin, start, instr).stop || instr.len == 0 || instr.len > code.len()) {
            let rest = code.skip(instr.len as int);
            if instr.len < code.len() {
                assert(rest =~= data.skip(off + instr.len));
                lemma_sweep_settled(next, bin, start, instr.next_ip, j, off + instr.len);
            } else {
                assert(next.sweep(bin, start, rest, instr.next_ip) == next);
            }
        }
    }
}

proof fn lemma_explore_settled(scan: Scan, bin: BinaryModel, start: u64)
    requires
        scan.wf(),
        all_settled(scan, bin, None),
    ensures
        all_settled(scan.explore(bin, start), bin, None),
    decreases outside64(scan.visited), scan.work.len(),
{
    if scan.work.len() > 0 {
        let addr = scan.work.last();
        let rest = Scan { work: scan.work.drop_last(), ..scan };
        assert forall|i: int| 0 <= i < rest.items.len() implies settled(
            rest,
            bin,
            #[trigger] rest.items[i],
            None,
        ) by {
            assert(settled(scan, bin, scan.items[i], None));
        }
        match tail_bytes(bin.sections, addr) {
            Some(code) => {
                if scan.visited.contains(addr) {
                    lemma_explore_settled(rest, bin, start);
                } else {
                    lemma_tail_not_empty(bin.sections, addr);
                    rest.lemma_sweep_grows(bin, start, code, addr);
                    let j = lemma_tail_bytes(bin.sections, addr);
                    let off = addr - bin.sections[j].virtual_address;
                    assert(code =~= bin.sections[j].data.skip(off));
                    lemma_settled_weaker(rest, bin, addr);
                    lemma_sweep_settled(rest, bin, start, addr, j, off);
                    lemma_explore_settled(rest.sweep(bin, start, code, addr), bin, start);
                }
            },
            None => {
                lemma_explore_settled(rest, bin, start);
            },
        }
    }
}

/// Every instruction of a function has been decoded from a section. The one behind it belongs to
/// the function too, unless it always jumps or returns, the section ends with it, a symbol stands
/// behind it, or the function has more than 4096 instructions.
pub proof fn lemma_followed(bin: BinaryModel, start: u64, i: int) -> (at: (int, int))
    requires
        0 <= i < instrs_of(bin, start).len(),
    ensures
        ({
            let item = instrs_of(bin, start)[i];
            let (j, off) = at;
            &&& decoded_at(bin, item, j, off)
            &&& may_end(bin, item.instr, j, off) || instrs_of(bin, start).len() > 4096 || exists|
                k: int,
            |
                0 <= k < instrs_of(bin, start).len() && (#[trigger] instrs_of(
                    bin,
                    start,
                )[k]).address == item.instr.next_ip
        }),
{
    let scan = fresh_scan(start);
    assert(addresses(scan.items) =~= Seq::empty());
    scan.lemma_explore_wf(bin, start);
    lemma_explore_settled(scan, bin, start);
    let last = scan.explore(bin, start);
    let item = last.items[i];
    assert(settled(last, bin, item, None));
    let (j, off) = choose|j: int, off: int| #[trigger]
        decoded_at(bin, item, j, off) && (may_end(bin, item.instr, j, off) || last.items.len()
            > 4096 || last.visited.contains(item.instr.next_ip) || None::<u64> == Some(
            item.instr.next_ip,
        ));
    if last.visited.contains(item.instr.next_ip) {
        let keys = addresses(last.items);
        assert(keys.contains(item.instr.next_ip));
        let k = choose|k: int| 0 <= k < keys.len() && keys[k] == item.instr.next_ip;
        assert(last.items[k].address == item.instr.next_ip);
    }
    (j, off)
}

/// Every instruction of a function comes with its bytes: those of the first section that has them
/// all, or zeros where none has.
pub proof fn lemma_bytes(bin: BinaryModel, start: u64, i: int) -> (j: int)
    requires
        0 <= i < instrs_of(bin, start).len(),
    ensures
        ({
            let item = instrs_of(bin, start)[i];
            let n = item.instr.len as nat;
            let held = exists|k: int|
                0 <= k < bin.sections.len() && covers(
                    #[trigger] bin.sections[k],
                    item.address,
                    n,
                );
            &&& item.bytes.len() == n
            &&& held ==> 0 <= j < bin.sections.len() && covers(bin.sections[j], item.address, n)
                && (forall|k: int|
                0 <= k < j ==> !covers(#[trigger] bin.sections[k], item.address, n)) && forall|
                x: int,
            |
                0 <= x < n ==> #[trigger] item.bytes[x] == bin.sections[j].data[item.address + x
                    - bin.sections[j].virtual_address]
            &&& !held ==> forall|x: int| 0 <= x < n ==> #[trigger] item.bytes[x] == 0
        }),
{
    let scan = fresh_scan(start);
    assert(addresses(scan.items) =~= Seq::empty());
    lemma_explore_settled(scan, bin, start);
    let last = scan.explore(bin, start);
    let item = last.items[i];
    assert(settled(last, bin, item, None));
    lemma_range_bytes(bin.sections, item.address, item.instr.len as nat)
}

} // verus!

//! The instructions of a function hold the targets of its jumps and branches.
use vstd::prelude::*;

use super::kinds::{branches, is_near, jumps};
use super::model::{addresses, fresh_scan, instrs_of, item_at, lemma_tail_not_empty, Scan};
use crate::binary::{tail_bytes, BinaryModel};
use crate::finite::outside64;
use crate::listing::lemma_push_contains;
use crate::sorted::{lemma_slot, slot};
use crate::x86::decode::instr_at;
use crate::x86::Instr;

verus! {

/// The address that an instruction jumps or branches to, where it names one.
pub open spec fn target_of(instr: Instr) -> Option<u64> {
    if jumps(instr.mnemonic) && is_near(instr.op0.kind) || !jumps(instr.mnemonic) && branches(
        instr.mnemonic,
    ) {
        Some(instr.near_branch_target)
    } else {
        None
    }
}

/// The target of the instruction, where the binary holds it, has been looked at or is to be.
spec fn followed(scan: Scan, bin: BinaryModel, instr: Instr) -> bool {
    target_of(instr) matches Some(t) ==> tail_bytes(bin.sections, t) is Some
        ==> scan.visited.contains(t) || scan.work.contains(t)
}

spec fn all_followed(scan: Scan, bin: BinaryModel) -> bool {
    forall|i: int|
        0 <= i < scan.items.len() ==> followed(scan, bin, (#[trigger] scan.items[i]).instr)
}

/// The scan with one more address to be looked at.
spec fn awaiting(scan: Scan, addr: u64) -> Scan {
    Scan { work: scan.work.push(addr), ..scan }
}

/// The instruction at an address that is to be looked at.
proof fn lemma_note_followed(scan: Scan, bin: BinaryModel, start: u64, addr: u64, instr: Instr)
    requires
        scan.wf(),
        all_followed(awaiting(scan, addr), bin),
    ensures
        all_followed(scan.note(bin, start, addr, instr), bin),
{
    let before = awaiting(scan, addr);
    let next = scan.note(bin, start, addr, instr);
    let k = slot(addresses(scan.items), addr);
    lemma_slot(addresses(scan.items), addr);
    lemma_push_contains(scan.work, addr);
    if let Some(t) = scan.move_at(bin, start, instr).target {
        lemma_push_contains(scan.work, t);
    }
    assert forall|i: int| 0 <= i < next.items.len() implies followed(
        next,
        bin,
        (#[trigger] next.items[i]).instr,
    ) by {
        if i < k {
            assert(followed(before, bin, before.items[i].instr));
        } else if i > k {
            assert(followed(before, bin, before.items[i - 1].instr));
        } else {
            assert(next.items[i] == item_at(bin.sections, addr, instr));
        }
    }
}

/// A sweep from an address that is to be looked at.
proof fn lemma_sweep_followed(
    scan: Scan,
    bin: BinaryModel,
    start: u64,
    code: Seq<u8>,
    addr: u64,
)
    requires
        scan.wf(),
        all_followed(awaiting(scan, addr), bin),
        code.len() > 0 || all_followed(scan, bin),
    ensures
        all_followed(scan.sweep(bin, start, code, addr), bin),
        scan.sweep(bin, start, code, addr).wf(),
    decreases code.len(),
{
    lemma_push_contains(scan.work, addr);
    if code.len() > 0 && !scan.visited.contains(addr) {
        let instr = instr_at(bin.arch.width(), code, addr);
        let next = scan.note(bin, start, addr, instr);
        scan.lemma_note(bin, start, addr, instr);
        lemma_note_followed(scan, bin, start, addr, instr);
        if !(scan.move_at(bin, start, instr).stop || instr.len == 0 || instr.len > code.len()) {
            lemma_awaiting(next, bin, instr.next_ip);
            lemma_sweep_followed(
                next,
                bin,
                start,
                code.skip(instr.len as int),
                instr.next_ip,
            );
        }
    } else if code.len() > 0 {
        lemma_not_awaiting(scan, bin, addr);
    }
}

proof fn lemma_awaiting(scan: Scan, bin: BinaryModel, addr: u64)
    requires
        all_followed(scan, bin),
    ensures
        all_followed(awaiting(scan, addr), bin),
{
    let more = awaiting(scan, addr);
    lemma_push_contains(scan.work, addr);
    assert forall|i: int| 0 <= i < more.items.len() implies followed(
        more,
        bin,
        (#[trigger] more.items[i]).instr,
    ) by {
        assert(followed(scan, bin, scan.items[i].instr));
    }
}

/// An address that has been looked at, or that the binary does not hold, need not wait.
proof fn lemma_not_awaiting(scan: Scan, bin: BinaryModel, addr: u64)
    requires
        all_followed(awaiting(scan, addr), bin),
        scan.visited.contains(addr) || tail_bytes(bin.sections, addr) is None,
    ensures
        all_followed(scan, bin),
{
    let more = awaiting(scan, addr);
    lemma_push_contains(scan.work, addr);
    assert forall|i: int| 0 <= i < scan.items.len() implies followed(
        scan,
        bin,
        (#[trigger] scan.items[i]).instr,
    ) by {
        assert(followed(more, bin, more.items[i].instr));
    }
}

proof fn lemma_explore_followed(scan: Scan, bin: BinaryModel, start: u64)
    requires
        scan.wf(),
        all_followed(scan, bin),
    ensures
        all_followed(scan.explore(bin, start), bin),
        scan.explore(bin, start).work.len() == 0,
    decreases outside64(scan.visited), scan.work.len(),
{
    if scan.work.len() > 0 {
        let addr = scan.work.last();
        let rest = Scan { work: scan.work.drop_last(), ..scan };
        assert(rest.work.push(addr) =~= scan.work);
        assert(awaiting(rest, addr) == scan);
        match tail_bytes(bin.sections, addr) {
            Some(code) => {
                if scan.visited.contains(addr) {
                    lemma_not_awaiting(rest, bin, addr);
                    lemma_explore_followed(rest, bin, start);
                } else {
                    lemma_tail_not_empty(bin.sections, addr);
                    rest.lemma_sweep_grows(bin, start, code, addr);
                    lemma_sweep_followed(rest, bin, start, code, addr);
                    lemma_explore_followed(rest.sweep(bin, start, code, addr), bin, start);
                }
            },
            None => {
                lemma_not_awaiting(rest, bin, addr);
                lemma_explore_followed(rest, bin, start);
            },
        }
    }
}

/// The target of every jump and branch of a function, where a section holds it, is the address of
/// an instruction of the function.
pub proof fn lemma_targets_found(bin: BinaryModel, start: u64, i: int)
    requires
        0 <= i < instrs_of(bin, start).len(),
    ensures
        target_of(instrs_of(bin, start)[i].instr) matches Some(t) ==> tail_bytes(
            bin.sections,
            t,
        ) is Some ==> addresses(instrs_of(bin, start)).contains(t),
{
    let scan = fresh_scan(start);
    assert(addresses(scan.items) =~= Seq::empty());
    scan.lemma_explore_wf(bin, start);
    lemma_explore_followed(scan, bin, start);
    let last = scan.explore(bin, start);
    assert(followed(last, bin, last.items[i].instr));
}

} // verus!

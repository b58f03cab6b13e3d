//! What disassembly gives: the instructions of a function, and the functions of a binary.
use vstd::prelude::*;

use super::kinds::{is_near, move_after, Move};
use crate::binary::{
    executable, known, range_bytes, tail_bytes, BinaryModel, SectionModel, SymbolModel,
};
use crate::finite::{lemma_outside64, lemma_outside64_subset, outside64};
use crate::listing::lemma_push_contains;
use crate::sorted::{ascending, lemma_insert, lemma_slot, slot};
use crate::text::hexadecimal;
use crate::x86::decode::instr_at;
use crate::x86::{Instr, Mnemonic};

verus! {

/// A disassembled instruction as a mathematical value.
#[verifier::ext_equal]
pub struct ItemModel {
    pub address: u64,
    pub bytes: Seq<u8>,
    pub instr: Instr,
}

/// A disassembled function as a mathematical value.
#[verifier::ext_equal]
pub struct CodeModel {
    pub address: u64,
    pub name: Seq<char>,
    pub instrs: Seq<ItemModel>,
}

/// The addresses of the instructions.
pub open spec fn addresses(items: Seq<ItemModel>) -> Seq<u64> {
    items.map_values(|i: ItemModel| i.address)
}

/// The bytes of an instruction; zeros where no section holds all of them.
pub open spec fn bytes_of(sections: Seq<SectionModel>, addr: u64, len: nat) -> Seq<u8> {
    match range_bytes(sections, addr, len) {
        Some(bytes) => bytes,
        None => Seq::new(len, |i: int| 0u8),
    }
}

/// The instruction at `addr` with its bytes.
pub open spec fn item_at(sections: Seq<SectionModel>, addr: u64, instr: Instr) -> ItemModel {
    ItemModel { address: addr, bytes: bytes_of(sections, addr, instr.len as nat), instr }
}

/// The list with one more instruction, in the slot of its address.
pub open spec fn with_item(items: Seq<ItemModel>, item: ItemModel) -> Seq<ItemModel> {
    items.insert(slot(addresses(items), item.address), item)
}

/// How far the disassembly of a function has come: the instructions found, by address; their
/// addresses; and the addresses still to be looked at, the last one first.
#[verifier::ext_equal]
pub struct Scan {
    pub items: Seq<ItemModel>,
    pub visited: Set<u64>,
    pub work: Seq<u64>,
}

impl Scan {
    /// The move after one more instruction.
    pub open spec fn move_at(self, bin: BinaryModel, start: u64, instr: Instr) -> Move {
        move_after(instr, start, self.items.len() + 1, known(bin.symbols, instr.next_ip))
    }

    /// After one more instruction. Its target is to be looked at where the binary holds it.
    pub open spec fn note(self, bin: BinaryModel, start: u64, addr: u64, instr: Instr) -> Scan {
        Scan {
            items: with_item(self.items, item_at(bin.sections, addr, instr)),
            visited: self.visited.insert(addr),
            work: match self.move_at(bin, start, instr).target {
                Some(t) => if tail_bytes(bin.sections, t) is Some {
                    self.work.push(t)
                } else {
                    self.work
                },
                None => self.work,
            },
        }
    }

    /// After the instructions of `code` at `addr`, one behind the other, up to the end of the code,
    /// to an instruction that was found before, or to one that ends the sweep.
    pub open spec fn sweep(self, bin: BinaryModel, start: u64, code: Seq<u8>, addr: u64) -> Scan
        decreases code.len(),
    {
        if code.len() == 0 || self.visited.contains(addr) {
            self
        } else {
            let instr = instr_at(bin.arch.width(), code, addr);
            let next = self.note(bin, start, addr, instr);
            if self.move_at(bin, start, instr).stop || instr.len == 0 || instr.len > code.len() {
                next
            } else {
                next.sweep(bin, start, code.skip(instr.len as int), instr.next_ip)
            }
        }
    }

    /// After all that is to be looked at.
    pub open spec fn explore(self, bin: BinaryModel, start: u64) -> Scan
        decreases outside64(self.visited), self.work.len(),
    {
        if self.work.len() == 0 {
            self
        } else {
            let addr = self.work.last();
            let rest = Scan { work: self.work.drop_last(), ..self };
            if self.visited.contains(addr) {
                rest.explore(bin, start)
            } else {
                match tail_bytes(bin.sections, addr) {
                    Some(code) => {
                        proof {
                            lemma_tail_not_empty(bin.sections, addr);
                            rest.lemma_sweep_grows(bin, start, code, addr);
                        }
                        rest.sweep(bin, start, code, addr).explore(bin, start)
                    },
                    None => rest.explore(bin, start),
                }
            }
        }
    }

    /// The sweep visits its first address.
    pub proof fn lemma_sweep_grows(self, bin: BinaryModel, start: u64, code: Seq<u8>, addr: u64)
        ensures
            self.visited.subset_of(self.sweep(bin, start, code, addr).visited),
            code.len() > 0 ==> self.sweep(bin, start, code, addr).visited.contains(addr),
            code.len() > 0 && !self.visited.contains(addr) ==> outside64(
                self.sweep(bin, start, code, addr).visited,
            ) < outside64(self.visited),
        decreases code.len(),
    {
        if code.len() > 0 && !self.visited.contains(addr) {
            let instr = instr_at(bin.arch.width(), code, addr);
            let next = self.note(bin, start, addr, instr);
            if !(self.move_at(bin, start, instr).stop || instr.len == 0 || instr.len
                > code.len()) {
                next.lemma_sweep_grows(bin, start, code.skip(instr.len as int), instr.next_ip);
            }
            let last = self.sweep(bin, start, code, addr).visited;
            lemma_outside64(self.visited, addr);
            lemma_outside64_subset(next.visited, last);
        }
    }

    /// The instructions stand in the order of their addresses, which are those visited.
    pub open spec fn wf(self) -> bool {
        &&& ascending(addresses(self.items))
        &&& forall|a: u64| #[trigger]
            self.visited.contains(a) <==> addresses(self.items).contains(a)
    }

    pub proof fn lemma_note(self, bin: BinaryModel, start: u64, addr: u64, instr: Instr)
        requires
            self.wf(),
            !self.visited.contains(addr),
        ensures
            self.note(bin, start, addr, instr).wf(),
            addresses(self.note(bin, start, addr, instr).items) == addresses(self.items).insert(
                slot(addresses(self.items), addr),
                addr,
            ),
    {
        let keys = addresses(self.items);
        lemma_slot(keys, addr);
        lemma_insert(keys, addr);
        assert(addresses(self.note(bin, start, addr, instr).items) =~= keys.insert(
            slot(keys, addr),
            addr,
        ));
    }

    proof fn lemma_sweep_wf(self, bin: BinaryModel, start: u64, code: Seq<u8>, addr: u64)
        requires
            self.wf(),
        ensures
            self.sweep(bin, start, code, addr).wf(),
        decreases code.len(),
    {
        if code.len() > 0 && !self.visited.contains(addr) {
            let instr = instr_at(bin.arch.width(), code, addr);
            self.lemma_note(bin, start, addr, instr);
            if !(self.move_at(bin, start, instr).stop || instr.len == 0 || instr.len
                > code.len()) {
                self.note(bin, start, addr, instr).lemma_sweep_wf(
                    bin,
                    start,
                    code.skip(instr.len as int),
                    instr.next_ip,
                );
            }
        }
    }

    pub proof fn lemma_explore_wf(self, bin: BinaryModel, start: u64)
        requires
            self.wf(),
        ensures
            self.explore(bin, start).wf(),
        decreases outside64(self.visited), self.work.len(),
    {
        if self.work.len() > 0 {
            let addr = self.work.last();
            let rest = Scan { work: self.work.drop_last(), ..self };
            if self.visited.contains(addr) {
                rest.lemma_explore_wf(bin, start);
            } else {
                match tail_bytes(bin.sections, addr) {
                    Some(code) => {
                        lemma_tail_not_empty(bin.sections, addr);
                        rest.lemma_sweep_grows(bin, start, code, addr);
                        rest.lemma_sweep_wf(bin, start, code, addr);
                        rest.sweep(bin, start, code, addr).lemma_explore_wf(bin, start);
                    },
                    None => {
                        rest.lemma_explore_wf(bin, start);
                    },
                }
            }
        }
    }
}

/// From an address that a section holds there are bytes.
pub proof fn lemma_tail_not_empty(sections: Seq<SectionModel>, addr: u64)
    ensures
        tail_bytes(sections, addr) matches Some(code) ==> code.len() > 0,
    decreases sections.len(),
{
    if sections.len() > 0 && !sections[0].holds(addr, 1) {
        lemma_tail_not_empty(sections.skip(1), addr);
    }
}

/// Before anything has been looked at.
pub open spec fn fresh_scan(start: u64) -> Scan {
    Scan { items: Seq::empty(), visited: Set::empty(), work: seq![start] }
}

/// The instructions of the function at `start`, by address.
pub open spec fn instrs_of(bin: BinaryModel, start: u64) -> Seq<ItemModel> {
    fresh_scan(start).explore(bin, start).items
}

/// The instructions of a function stand in the order of their addresses, each address once.
pub proof fn lemma_instrs_ascending(bin: BinaryModel, start: u64)
    ensures
        ascending(addresses(instrs_of(bin, start))),
{
    assert(addresses(fresh_scan(start).items) =~= Seq::empty());
    assert(fresh_scan(start).wf());
    fresh_scan(start).lemma_explore_wf(bin, start);
}

/// A function has instructions exactly if the binary holds the byte at its start; the instruction
/// there is then one of them.
pub proof fn lemma_instrs_found(bin: BinaryModel, start: u64)
    ensures
        instrs_of(bin, start).len() > 0 <==> tail_bytes(bin.sections, start) is Some,
        tail_bytes(bin.sections, start) is Some ==> addresses(instrs_of(bin, start)).contains(
            start,
        ),
{
    let scan = fresh_scan(start);
    assert(addresses(scan.items) =~= Seq::empty());
    scan.lemma_explore_wf(bin, start);
    let rest = Scan { work: scan.work.drop_last(), ..scan };
    assert(scan.work.last() == start);
    assert(rest.work =~= Seq::empty());
    match tail_bytes(bin.sections, start) {
        Some(code) => {
            lemma_tail_not_empty(bin.sections, start);
            rest.lemma_sweep_grows(bin, start, code, start);
            let next = rest.sweep(bin, start, code, start);
            next.lemma_explore_grows(bin, start);
            let last = scan.explore(bin, start);
            assert(last.visited.contains(start));
            assert(addresses(last.items).contains(start));
            assert(last.items.len() == addresses(last.items).len());
        },
        None => {
            assert(rest.explore(bin, start) == rest);
        },
    }
}

impl Scan {
    proof fn lemma_explore_grows(self, bin: BinaryModel, start: u64)
        ensures
            self.visited.subset_of(self.explore(bin, start).visited),
        decreases outside64(self.visited), self.work.len(),
    {
        if self.work.len() > 0 {
            let addr = self.work.last();
            let rest = Scan { work: self.work.drop_last(), ..self };
            if self.visited.contains(addr) {
                rest.lemma_explore_grows(bin, start);
            } else {
                match tail_bytes(bin.sections, addr) {
                    Some(code) => {
                        lemma_tail_not_empty(bin.sections, addr);
                        rest.lemma_sweep_grows(bin, start, code, addr);
                        rest.sweep(bin, start, code, addr).lemma_explore_grows(bin, start);
                    },
                    None => {
                        rest.lemma_explore_grows(bin, start);
                    },
                }
            }
        }
    }
}

/// The instruction calls an address that it names.
pub open spec fn calls(instr: Instr) -> bool {
    instr.mnemonic == Mnemonic::Call && is_near(instr.op0.kind)
}

/// The addresses that the instructions of `code` at `addr` call, one behind the other.
pub open spec fn calls_in(bits: u32, code: Seq<u8>, addr: u64) -> Seq<u64>
    decreases code.len(),
{
    if code.len() == 0 {
        Seq::empty()
    } else {
        let instr = instr_at(bits, code, addr);
        let here = if calls(instr) {
            seq![instr.near_branch_target]
        } else {
            Seq::empty()
        };
        if instr.len == 0 || instr.len > code.len() {
            here
        } else {
            here + calls_in(bits, code.skip(instr.len as int), instr.next_ip)
        }
    }
}

/// The addresses that the code of the sections calls.
pub open spec fn calls_of(bits: u32, sections: Seq<SectionModel>) -> Seq<u64>
    decreases sections.len(),
{
    if sections.len() == 0 {
        Seq::empty()
    } else {
        let last = sections.last();
        calls_of(bits, sections.drop_last()) + calls_in(bits, last.data, last.virtual_address)
    }
}

/// The addresses that the executable sections of a binary call.
pub open spec fn call_targets(bin: BinaryModel) -> Seq<u64> {
    calls_of(bin.arch.width(), executable(bin.sections))
}

/// The names of functions by address.
pub open spec fn starts(entries: Seq<(u64, Seq<char>)>) -> Seq<u64> {
    entries.map_values(|e: (u64, Seq<char>)| e.0)
}

/// The list with one more function, in the slot of its address, unless there is one already.
pub open spec fn with_entry(
    entries: Seq<(u64, Seq<char>)>,
    addr: u64,
    name: Seq<char>,
) -> Seq<(u64, Seq<char>)> {
    if starts(entries).contains(addr) {
        entries
    } else {
        entries.insert(slot(starts(entries), addr), (addr, name))
    }
}

/// The functions that the symbols with a name give; of several at one address the first.
pub open spec fn symbol_entries(symbols: Seq<SymbolModel>) -> Seq<(u64, Seq<char>)>
    decreases symbols.len(),
{
    if symbols.len() == 0 {
        Seq::empty()
    } else {
        let before = symbol_entries(symbols.drop_last());
        let last = symbols.last();
        if last.name.len() > 0 {
            with_entry(before, last.address, last.name)
        } else {
            before
        }
    }
}

/// The list with a function for each address called that no symbol has, named after the address.
pub open spec fn called_entries(
    entries: Seq<(u64, Seq<char>)>,
    symbols: Seq<SymbolModel>,
    targets: Seq<u64>,
) -> Seq<(u64, Seq<char>)>
    decreases targets.len(),
{
    if targets.len() == 0 {
        entries
    } else {
        let before = called_entries(entries, symbols, targets.drop_last());
        let addr = targets.last();
        if known(symbols, addr) {
            before
        } else {
            with_entry(before, addr, "sub_"@ + hexadecimal(addr as nat))
        }
    }
}

/// The functions of a binary, by address: those of the symbols, the entry point, and those called.
pub open spec fn entries_of(bin: BinaryModel, targets: Seq<u64>) -> Seq<(u64, Seq<char>)> {
    called_entries(
        with_entry(symbol_entries(bin.symbols), bin.entry_point, "entry"@),
        bin.symbols,
        targets,
    )
}

/// A symbol with a name has the given address.
pub open spec fn named(symbols: Seq<SymbolModel>, addr: u64) -> bool {
    exists|i: int|
        0 <= i < symbols.len() && (#[trigger] symbols[i]).address == addr && symbols[i].name.len()
            > 0
}

/// The functions of a binary stand in the order of their addresses, each address once. A function
/// starts exactly at the addresses of symbols with a name, at the entry point, and at the addresses
/// called that no symbol has.
pub proof fn lemma_entries(bin: BinaryModel, targets: Seq<u64>)
    ensures
        ascending(starts(entries_of(bin, targets))),
        forall|a: u64| #[trigger]
            starts(entries_of(bin, targets)).contains(a) <==> named(bin.symbols, a) || a
                == bin.entry_point || (targets.contains(a) && !known(bin.symbols, a)),
{
    lemma_symbol_entries(bin.symbols);
    let first = symbol_entries(bin.symbols);
    lemma_with_entry(first, bin.entry_point, "entry"@);
    let second = with_entry(first, bin.entry_point, "entry"@);
    lemma_called_entries(second, bin.symbols, targets);
}

pub proof fn lemma_with_entry(entries: Seq<(u64, Seq<char>)>, addr: u64, name: Seq<char>)
    requires
        ascending(starts(entries)),
    ensures
        ascending(starts(with_entry(entries, addr, name))),
        forall|a: u64| #[trigger]
            starts(with_entry(entries, addr, name)).contains(a) <==> starts(entries).contains(a)
                || a == addr,
{
    let keys = starts(entries);
    if !keys.contains(addr) {
        lemma_slot(keys, addr);
        lemma_insert(keys, addr);
        assert(starts(with_entry(entries, addr, name)) =~= keys.insert(slot(keys, addr), addr));
    }
}

pub proof fn lemma_symbol_entries(symbols: Seq<SymbolModel>)
    ensures
        ascending(starts(symbol_entries(symbols))),
        forall|a: u64| #[trigger]
            starts(symbol_entries(symbols)).contains(a) <==> named(symbols, a),
    decreases symbols.len(),
{
    if symbols.len() > 0 {
        let rest = symbols.drop_last();
        let last = symbols.last();
        lemma_symbol_entries(rest);
        lemma_with_entry(symbol_entries(rest), last.address, last.name);
        assert forall|a: u64| #[trigger]
            starts(symbol_entries(symbols)).contains(a) <==> named(symbols, a) by {
            assert(starts(symbol_entries(rest)).contains(a) <==> named(rest, a));
            if named(rest, a) {
                let i = choose|i: int|
                    0 <= i < rest.len() && (#[trigger] rest[i]).address == a && rest[i].name.len()
                        > 0;
                assert(symbols[i] == rest[i]);
            }
            if named(symbols, a) {
                let i = choose|i: int|
                    0 <= i < symbols.len() && (#[trigger] symbols[i]).address == a
                        && symbols[i].name.len() > 0;
                if i < rest.len() {
                    assert(rest[i] == symbols[i]);
                }
            }
            assert(symbols[symbols.len() - 1] == last);
        }
    } else {
        assert(starts(symbol_entries(symbols)) =~= Seq::empty());
    }
}

pub proof fn lemma_called_entries(
    entries: Seq<(u64, Seq<char>)>,
    symbols: Seq<SymbolModel>,
    targets: Seq<u64>,
)
    requires
        ascending(starts(entries)),
    ensures
        ascending(starts(called_entries(entries, symbols, targets))),
        forall|a: u64| #[trigger]
            starts(called_entries(entries, symbols, targets)).contains(a) <==> starts(
                entries,
            ).contains(a) || (targets.contains(a) && !known(symbols, a)),
    decreases targets.len(),
{
    if targets.len() > 0 {
        let rest = targets.drop_last();
        let addr = targets.last();
        lemma_called_entries(entries, symbols, rest);
        let before = called_entries(entries, symbols, rest);
        lemma_with_entry(before, addr, "sub_"@ + hexadecimal(addr as nat));
        assert(targets =~= rest.push(addr));
        lemma_push_contains(rest, addr);
    }
}

/// The disassembled functions of the list; those without an instruction are left out.
pub open spec fn codes_of(bin: BinaryModel, entries: Seq<(u64, Seq<char>)>) -> Seq<CodeModel>
    decreases entries.len(),
{
    if entries.len() == 0 {
        Seq::empty()
    } else {
        let before = codes_of(bin, entries.drop_last());
        let (address, name) = entries.last();
        let instrs = instrs_of(bin, address);
        if instrs.len() == 0 {
            before
        } else {
            before.push(CodeModel { address, name, instrs })
        }
    }
}

/// All functions of a binary, disassembled.
pub open spec fn all_codes(bin: BinaryModel) -> Seq<CodeModel> {
    codes_of(bin, entries_of(bin, call_targets(bin)))
}

/// The addresses of the functions.
pub open spec fn code_starts(codes: Seq<CodeModel>) -> Seq<u64> {
    codes.map_values(|c: CodeModel| c.address)
}

/// The functions of a binary stand in the order of their addresses, each has an instruction, and
/// the instructions of each stand in the order of their addresses. A function found is left out
/// only where the binary holds no byte at its start.
pub proof fn lemma_all_codes(bin: BinaryModel)
    ensures
        ascending(code_starts(all_codes(bin))),
        forall|i: int|
            0 <= i < all_codes(bin).len() ==> (#[trigger] all_codes(bin)[i]).instrs.len() > 0
                && ascending(addresses(all_codes(bin)[i].instrs)),
        forall|a: u64|
            #![trigger starts(entries_of(bin, call_targets(bin))).contains(a)]
            #![trigger code_starts(all_codes(bin)).contains(a)]
            code_starts(all_codes(bin)).contains(a) <==> starts(
                entries_of(bin, call_targets(bin)),
            ).contains(a) && tail_bytes(bin.sections, a) is Some,
{
    lemma_entries(bin, call_targets(bin));
    lemma_codes(bin, entries_of(bin, call_targets(bin)));
}

proof fn lemma_codes(bin: BinaryModel, entries: Seq<(u64, Seq<char>)>)
    requires
        ascending(starts(entries)),
    ensures
        ascending(code_starts(codes_of(bin, entries))),
        forall|i: int|
            0 <= i < codes_of(bin, entries).len() ==> (#[trigger] codes_of(
                bin,
                entries,
            )[i]).instrs.len() > 0 && ascending(addresses(codes_of(bin, entries)[i].instrs)),
        forall|a: u64|
            #![trigger starts(entries).contains(a)]
            #![trigger code_starts(codes_of(bin, entries)).contains(a)]
            code_starts(codes_of(bin, entries)).contains(a) <==> starts(entries).contains(a)
                && tail_bytes(bin.sections, a) is Some,
    decreases entries.len(),
{
    if entries.len() > 0 {
        let rest = entries.drop_last();
        let (address, name) = entries.last();
        let keys = starts(rest);
        let before = codes_of(bin, rest);
        let codes = codes_of(bin, entries);
        assert(starts(entries) =~= keys.push(address));
        assert(ascending(keys)) by {
            assert forall|i: int, j: int| 0 <= i < j < keys.len() implies keys[i] < keys[j] by {
                assert(starts(entries)[i] == keys[i] && starts(entries)[j] == keys[j]);
            }
        }
        lemma_codes(bin, rest);
        lemma_instrs_found(bin, address);
        lemma_instrs_ascending(bin, address);
        assert forall|a: u64| #[trigger] starts(entries).contains(a) <==> keys.contains(a) || a
            == address by {
            lemma_push_contains64(keys, address, a);
        }
        let instrs = instrs_of(bin, address);
        if instrs.len() > 0 {
            let last = CodeModel { address, name, instrs };
            assert(codes == before.push(last));
            assert(code_starts(codes) =~= code_starts(before).push(address));
            assert forall|a: u64| #[trigger] code_starts(codes).contains(a) <==> code_starts(
                before,
            ).contains(a) || a == address by {
                lemma_push_contains64(code_starts(before), address, a);
            }
            assert forall|i: int, j: int| 0 <= i < j < code_starts(codes).len() implies code_starts(
                codes,
            )[i] < code_starts(codes)[j] by {
                if j < before.len() {
                    assert(code_starts(before)[i] < code_starts(before)[j]);
                } else {
                    let a = code_starts(before)[i];
                    assert(code_starts(before).contains(a));
                    assert(keys.contains(a));
                    let k = choose|k: int| 0 <= k < keys.len() && keys[k] == a;
                    assert(starts(entries)[k] < starts(entries)[keys.len() as int]);
                }
            }
            assert forall|i: int| 0 <= i < codes.len() implies (#[trigger] codes[i]).instrs.len()
                > 0 && ascending(addresses(codes[i].instrs)) by {
                if i < before.len() {
                    assert(codes[i] == before[i]);
                }
            }
        }
    } else {
        assert(code_starts(codes_of(bin, entries)) =~= Seq::empty());
        assert(starts(entries) =~= Seq::empty());
    }
}

proof fn lemma_push_contains64(s: Seq<u64>, x: u64, y: u64)
    ensures
        s.push(x).contains(y) <==> s.contains(y) || y == x,
{
    if s.contains(y) {
        let i = choose|i: int| 0 <= i < s.len() && s[i] == y;
        assert(s.push(x)[i] == y);
    }
    assert(s.push(x)[s.len() as int] == x);
}

} // verus!

//! Discovery and disassembly of functions.
use std::collections::HashSet;

use vstd::prelude::*;
use vstd::slice::slice_subrange;

use self::kinds::{near, next_move};
use self::model::{
    addresses, all_codes, bytes_of, call_targets, called_entries, calls_in, calls_of, codes_of,
    entries_of, fresh_scan, instrs_of, item_at, lemma_called_entries, lemma_symbol_entries,
    lemma_with_entry, starts, symbol_entries, with_entry, with_item, CodeModel, ItemModel, Scan,
};
use crate::binary::{known, symbols_model, tail_bytes, BinaryModel, LoadedBinary, Section, Symbol};
use crate::finite::outside64;
use crate::sorted::{ascending, lemma_slot, slot};
use crate::text::hex_of_u64;
use crate::x86::decode::{decode, instr_at};
use crate::x86::{Instr, Mnemonic};

pub mod discovery;
pub mod kinds;
pub mod model;
pub mod registers;
pub mod sweeping;
pub mod targets;

pub use self::kinds::{
    canonical_reg, is_conditional_branch, is_return, is_unconditional_branch, reg_size,
};

verus! {

broadcast use vstd::std_specs::hash::group_hash_axioms;

#[derive(Debug, Clone)]
pub struct DisasmInstr {
    pub address: u64,
    pub bytes: Vec<u8>,
    pub instr: Instr,
}

impl View for DisasmInstr {
    type V = ItemModel;

    open spec fn view(&self) -> ItemModel {
        ItemModel { address: self.address, bytes: self.bytes@, instr: self.instr }
    }
}

/// The instructions of a list, each as a mathematical value.
pub open spec fn items_model(items: Seq<DisasmInstr>) -> Seq<ItemModel> {
    items.map_values(|i: DisasmInstr| i@)
}

#[derive(Debug, Clone)]
pub struct DisasmFunction {
    pub address: u64,
    pub name: String,
    pub instrs: Vec<DisasmInstr>,
}

impl View for DisasmFunction {
    type V = CodeModel;

    open spec fn view(&self) -> CodeModel {
        CodeModel {
            address: self.address,
            name: self.name@,
            instrs: items_model(self.instrs@),
        }
    }
}

/// The functions of a list, each as a mathematical value.
pub open spec fn codes_model(codes: Seq<DisasmFunction>) -> Seq<CodeModel> {
    codes.map_values(|c: DisasmFunction| c@)
}

/// The functions of a list, each name as its characters.
pub open spec fn entries_model(entries: Seq<(u64, String)>) -> Seq<(u64, Seq<char>)> {
    entries.map_values(|e: (u64, String)| (e.0, e.1@))
}

pub struct Disassembler<'a> {
    binary: &'a LoadedBinary,
}

/// Some symbol has the given address.
fn is_known_func_start(addr: u64, symbols: &Vec<Symbol>) -> (yes: bool)
    ensures
        yes == known(symbols_model(symbols@), addr),
{
    let ghost models = symbols_model(symbols@);
    let n = symbols.len();
    let mut i: usize = 0;
    while i < n
        invariant
            i <= n,
            n == symbols@.len(),
            models == symbols_model(symbols@),
            forall|j: int| 0 <= j < i ==> (#[trigger] models[j]).address != addr,
        decreases n - i,
    {
        assert(models[i as int] == symbols@[i as int]@);
        if symbols[i].address == addr {
            return true;
        }
        i = i + 1;
    }
    false
}

/// Puts an instruction into the slot of its address.
fn insert_item(items: &mut Vec<DisasmInstr>, item: DisasmInstr)
    requires
        ascending(addresses(items_model(old(items)@))),
    ensures
        items_model(final(items)@) == with_item(items_model(old(items)@), item@),
{
    let ghost all = items@;
    let ghost keys = addresses(items_model(all));
    let a = item.address;
    let mut i: usize = items.len();
    assert(keys.take(i as int) =~= keys);
    while i > 0 && items[i - 1].address >= a
        invariant
            i <= items@.len(),
            items@ == all,
            keys == addresses(items_model(all)),
            slot(keys, a) == slot(keys.take(i as int), a),
        decreases i,
    {
        assert(keys[i - 1] == all[i - 1].address);
        assert(keys.take(i as int).drop_last() =~= keys.take(i - 1));
        i = i - 1;
    }
    assert(slot(keys, a) == i) by {
        if i > 0 {
            assert(keys[i - 1] == all[i - 1].address);
            assert(keys.take(i as int).last() == keys[i - 1]);
        }
    }
    items.insert(i, item);
    assert(items_model(items@) =~= items_model(all).insert(i as int, item@));
}

/// Puts a function into the slot of its address, unless there is one already.
fn insert_entry(entries: &mut Vec<(u64, String)>, addr: u64, name: String)
    requires
        ascending(starts(entries_model(old(entries)@))),
    ensures
        entries_model(final(entries)@) == with_entry(entries_model(old(entries)@), addr, name@),
        ascending(starts(entries_model(final(entries)@))),
{
    let ghost all = entries@;
    let ghost keys = starts(entries_model(all));
    let mut i: usize = entries.len();
    assert(keys.take(i as int) =~= keys);
    while i > 0 && entries[i - 1].0 >= addr
        invariant
            i <= entries@.len(),
            entries@ == all,
            keys == starts(entries_model(all)),
            slot(keys, addr) == slot(keys.take(i as int), addr),
        decreases i,
    {
        assert(keys[i - 1] == all[i - 1].0);
        assert(keys.take(i as int).drop_last() =~= keys.take(i - 1));
        i = i - 1;
    }
    assert(slot(keys, addr) == i) by {
        if i > 0 {
            assert(keys[i - 1] == all[i - 1].0);
            assert(keys.take(i as int).last() == keys[i - 1]);
        }
    }
    proof {
        lemma_slot(keys, addr);
        lemma_with_entry(entries_model(all), addr, name@);
    }
    if i < entries.len() {
        assert(keys[i as int] == all[i as int].0);
        if entries[i].0 == addr {
            return;
        }
    }
    entries.insert(i, (addr, name));
    assert(entries_model(entries@) =~= entries_model(all).insert(i as int, (addr, name@)));
}

impl<'a> Disassembler<'a> {
    /// The binary whose code is disassembled.
    pub closed spec fn source(self) -> BinaryModel {
        self.binary@
    }

    pub fn new(binary: &'a LoadedBinary) -> (disassembler: Self)
        ensures
            disassembler.source() == binary@,
    {
        Self { binary }
    }

    pub fn disassemble_all(&self) -> (functions: Vec<DisasmFunction>)
        ensures
            codes_model(functions@) == all_codes(self.source()),
    {
        let ghost bin = self.source();
        let targets = self.discover_call_targets();
        let entries = self.find_entries(&targets);
        let ghost list = entries_model(entries@);
        let mut functions: Vec<DisasmFunction> = Vec::new();
        let n = entries.len();
        let mut i: usize = 0;
        assert(codes_model(functions@) =~= codes_of(bin, list.take(0)));
        while i < n
            invariant
                i <= n,
                n == entries@.len(),
                bin == self.source(),
                list == entries_model(entries@),
                codes_model(functions@) == codes_of(bin, list.take(i as int)),
            decreases n - i,
        {
            let ghost before = functions@;
            assert(list.take(i + 1).drop_last() =~= list.take(i as int));
            assert(list.take(i + 1).last() == (entries@[i as int].0, entries@[i as int].1@));
            let addr = entries[i].0;
            let name = entries[i].1.clone();
            if let Some(func) = self.disassemble_function(addr, name) {
                functions.push(func);
                assert(codes_model(functions@) =~= codes_model(before).push(func@));
            }
            i = i + 1;
        }
        assert(list.take(n as int) =~= list);
        functions
    }

    /// The functions of the symbols, the entry point and the functions called, by address.
    pub fn find_entries(&self, targets: &Vec<u64>) -> (entries: Vec<(u64, String)>)
        ensures
            entries_model(entries@) == entries_of(self.source(), targets@),
    {
        let ghost bin = self.source();
        let ghost symbols = bin.symbols;
        let sym_map = self.binary.symbol_map();
        let mut entries: Vec<(u64, String)> = Vec::new();
        let n = self.binary.symbols.len();
        let mut i: usize = 0;
        assert(entries_model(entries@) =~= symbol_entries(symbols.take(0)));
        while i < n
            invariant
                i <= n,
                n == self.binary.symbols@.len(),
                symbols == symbols_model(self.binary.symbols@),
                entries_model(entries@) == symbol_entries(symbols.take(i as int)),
            decreases n - i,
        {
            let sym = &self.binary.symbols[i];
            assert(symbols.take(i + 1).drop_last() =~= symbols.take(i as int));
            assert(symbols.take(i + 1).last() == sym@);
            proof {
                lemma_symbol_entries(symbols.take(i as int));
            }
            if !sym.name.as_str().is_empty() {
                insert_entry(&mut entries, sym.address, sym.name.clone());
            }
            i = i + 1;
        }
        assert(symbols.take(n as int) =~= symbols);
        proof {
            lemma_symbol_entries(symbols);
        }
        insert_entry(&mut entries, self.binary.entry_point, "entry".to_string());
        let ghost base = entries_model(entries@);
        let m = targets.len();
        let mut i: usize = 0;
        assert(targets@.take(0) =~= Seq::empty());
        while i < m
            invariant
                i <= m,
                m == targets@.len(),
                symbols == symbols_model(self.binary.symbols@),
                ascending(starts(base)),
                forall|a: u64| #[trigger] sym_map@.contains_key(a) <==> known(symbols, a),
                entries_model(entries@) == called_entries(base, symbols, targets@.take(i as int)),
            decreases m - i,
        {
            let addr = targets[i];
            assert(targets@.take(i + 1).drop_last() =~= targets@.take(i as int));
            proof {
                lemma_called_entries(base, symbols, targets@.take(i as int));
            }
            if !sym_map.contains_key(&addr) {
                let mut name = "sub_".to_string();
                name.append(hex_of_u64(addr).as_str());
                insert_entry(&mut entries, addr, name);
            }
            i = i + 1;
        }
        assert(targets@.take(m as int) =~= targets@);
        entries
    }

    /// The addresses that near calls name, in all executable sections.
    pub fn discover_call_targets(&self) -> (targets: Vec<u64>)
        ensures
            targets@ == call_targets(self.source()),
    {
        let ghost bin = self.source();
        let mut targets: Vec<u64> = Vec::new();
        let bitness = self.binary.arch.bitness();
        let sections = self.binary.exec_sections();
        let ghost models = sections@.map_values(|s: &Section| s@);
        let n = sections.len();
        let mut i: usize = 0;
        while i < n
            invariant
                i <= n,
                n == sections@.len(),
                bitness == 32 || bitness == 64,
                models == sections@.map_values(|s: &Section| s@),
                targets@ == calls_of(bitness, models.take(i as int)),
            decreases n - i,
        {
            let sec = sections[i];
            let ghost base = targets@;
            let ghost whole = calls_in(bitness, sec.data@, sec.virtual_address);
            assert(models.take(i + 1).drop_last() =~= models.take(i as int));
            assert(models.take(i + 1).last() == sec@);
            let mut rest = sec.data.as_slice();
            let mut addr = sec.virtual_address;
            assert(targets@ + calls_in(bitness, rest@, addr) =~= base + whole);
            while rest.len() > 0
                invariant
                    bitness == 32 || bitness == 64,
                    targets@ + calls_in(bitness, rest@, addr) == base + whole,
                decreases rest@.len(),
            {
                let ghost code = rest@;
                let ghost before = targets@;
                let instr = decode(bitness, rest, addr);
                let ghost on = calls_in(bitness, code.skip(instr.len as int), instr.next_ip);
                if matches!(instr.mnemonic, Mnemonic::Call) && near(instr.op0.kind) {
                    targets.push(instr.near_branch_target);
                    assert(targets@ + on =~= before + (seq![instr.near_branch_target] + on));
                } else {
                    assert(targets@ + on =~= before + (Seq::<u64>::empty() + on));
                }
                rest = slice_subrange(rest, instr.len, rest.len());
                assert(rest@ =~= code.skip(instr.len as int));
                addr = instr.next_ip;
            }
            assert(targets@ =~= base + whole);
            i = i + 1;
        }
        assert(models.take(n as int) =~= models);
        targets
    }

    pub fn disassemble_function(&self, start: u64, name: String) -> (func: Option<DisasmFunction>)
        ensures
            func is Some <==> instrs_of(self.source(), start).len() > 0,
            func matches Some(f) ==> f@ == (CodeModel {
                address: start,
                name: name@,
                instrs: instrs_of(self.source(), start),
            }),
    {
        let ghost bin = self.source();
        let ghost whole = fresh_scan(start).explore(bin, start);
        let mut instrs: Vec<DisasmInstr> = Vec::new();
        // Addresses we still need to decode (for branch targets)
        let mut worklist: Vec<u64> = Vec::new();
        worklist.push(start);
        let mut visited: HashSet<u64> = HashSet::new();
        proof {
            assert(items_model(instrs@) =~= Seq::empty());
            assert(addresses(items_model(instrs@)) =~= Seq::empty());
            assert(worklist@ =~= seq![start]);
            assert(visited@ =~= Set::empty());
        }
        while worklist.len() > 0
            invariant
                bin == self.source(),
                whole == (Scan {
                    items: items_model(instrs@),
                    visited: visited@,
                    work: worklist@,
                }).explore(bin, start),
                (Scan { items: items_model(instrs@), visited: visited@, work: worklist@ }).wf(),
            decreases outside64(visited@), worklist@.len(),
        {
            let ghost scan = Scan {
                items: items_model(instrs@),
                visited: visited@,
                work: worklist@,
            };
            let addr = worklist[worklist.len() - 1];
            worklist.pop();
            let ghost rest = Scan { work: scan.work.drop_last(), ..scan };
            assert(worklist@ =~= rest.work);
            if visited.contains(&addr) {
                continue;
            }
            if let Some(code) = self.binary.bytes_from(addr) {
                proof {
                    rest.lemma_sweep_grows(bin, start, code@, addr);
                }
                self.sweep(start, code, addr, &mut instrs, &mut worklist, &mut visited);
            }
        }
        if instrs.len() == 0 {
            return None;
        }
        Some(DisasmFunction { address: start, name, instrs })
    }

    /// Decode linearly from an address until a terminal instruction
    fn sweep(
        &self,
        start: u64,
        code: &[u8],
        from: u64,
        instrs: &mut Vec<DisasmInstr>,
        worklist: &mut Vec<u64>,
        visited: &mut HashSet<u64>,
    )
        requires
            (Scan {
                items: items_model(old(instrs)@),
                visited: old(visited)@,
                work: old(worklist)@,
            }).wf(),
        ensures
            (Scan {
                items: items_model(final(instrs)@),
                visited: final(visited)@,
                work: final(worklist)@,
            }) == (Scan {
                items: items_model(old(instrs)@),
                visited: old(visited)@,
                work: old(worklist)@,
            }).sweep(self.source(), start, code@, from),
            (Scan {
                items: items_model(final(instrs)@),
                visited: final(visited)@,
                work: final(worklist)@,
            }).wf(),
    {
        let ghost bin = self.source();
        let ghost whole = (Scan {
            items: items_model(instrs@),
            visited: visited@,
            work: worklist@,
        }).sweep(bin, start, code@, from);
        let bitness = self.binary.arch.bitness();
        let mut rest = code;
        let mut addr = from;
        while rest.len() > 0
            invariant_except_break
                whole == (Scan {
                    items: items_model(instrs@),
                    visited: visited@,
                    work: worklist@,
                }).sweep(bin, start, rest@, addr),
            invariant
                bin == self.source(),
                bitness == bin.arch.width(),
                (Scan { items: items_model(instrs@), visited: visited@, work: worklist@ }).wf(),
            ensures
                whole == (Scan {
                    items: items_model(instrs@),
                    visited: visited@,
                    work: worklist@,
                }),
            decreases rest@.len(),
        {
            let ghost scan = Scan {
                items: items_model(instrs@),
                visited: visited@,
                work: worklist@,
            };
            let ghost left = rest@;
            if visited.contains(&addr) {
                break;
            }
            let instr = decode(bitness, rest, addr);
            assert(instr == instr_at(bin.arch.width(), left, addr));
            proof {
                scan.lemma_note(bin, start, addr, instr);
            }
            let ghost next = scan.note(bin, start, addr, instr);
            visited.insert(addr);
            let bytes = self.bytes_of_instr(addr, instr.len);
            let item = DisasmInstr { address: addr, bytes, instr };
            assert(item@ == item_at(bin.sections, addr, instr));
            insert_item(instrs, item);
            let known_start = is_known_func_start(instr.next_ip, &self.binary.symbols);
            let step = next_move(&instr, start, instrs.len(), known_start);
            proof {
                lemma_slot(addresses(scan.items), addr);
                assert(items_model(instrs@).len() == scan.items.len() + 1);
            }
            assert(step == scan.move_at(bin, start, instr));
            if let Some(t) = step.target {
                if self.is_within_binary(t) {
                    worklist.push(t);
                }
            }
            assert(next == (Scan {
                items: items_model(instrs@),
                visited: visited@,
                work: worklist@,
            }));
            if step.stop {
                break;
            }
            rest = slice_subrange(rest, instr.len, rest.len());
            assert(rest@ =~= left.skip(instr.len as int));
            addr = instr.next_ip;
        }
    }

    /// The bytes of an instruction; zeros where no section holds all of them.
    fn bytes_of_instr(&self, addr: u64, len: usize) -> (bytes: Vec<u8>)
        ensures
            bytes@ == bytes_of(self.source().sections, addr, len as nat),
    {
        let mut bytes: Vec<u8> = Vec::new();
        match self.binary.bytes_at(addr, len) {
            Some(src) => {
                bytes.extend_from_slice(src);
                assert(bytes@ =~= src@);
            },
            None => {
                let mut i: usize = 0;
                while i < len
                    invariant
                        i <= len,
                        bytes@ == Seq::new(i as nat, |j: int| 0u8),
                    decreases len - i,
                {
                    bytes.push(0);
                    assert(bytes@ =~= Seq::new((i + 1) as nat, |j: int| 0u8));
                    i = i + 1;
                }
            },
        }
        bytes
    }

    fn is_within_binary(&self, addr: u64) -> (yes: bool)
        ensures
            yes == (tail_bytes(self.source().sections, addr) is Some),
    {
        self.binary.bytes_from(addr).is_some()
    }
}

} // verus!

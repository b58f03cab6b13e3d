//! Executable files: sections, symbols and entry point.
use std::collections::HashMap;

use vstd::prelude::*;
use vstd::slice::slice_subrange;

pub mod laws;
pub mod load;

pub use self::load::load;

verus! {

broadcast use vstd::std_specs::hash::group_hash_axioms;

#[derive(Debug, Clone)]
pub struct Symbol {
    pub name: String,
    pub address: u64,
    pub size: u64,
}

/// A symbol as a mathematical value.
pub struct SymbolModel {
    pub name: Seq<char>,
    pub address: u64,
    pub size: u64,
}

impl View for Symbol {
    type V = SymbolModel;

    open spec fn view(&self) -> SymbolModel {
        SymbolModel { name: self.name@, address: self.address, size: self.size }
    }
}

#[derive(Debug, Clone)]
pub struct Section {
    pub name: String,
    pub virtual_address: u64,
    pub data: Vec<u8>,
    pub executable: bool,
}

/// A section as a mathematical value.
pub struct SectionModel {
    pub name: Seq<char>,
    pub virtual_address: u64,
    pub data: Seq<u8>,
    pub executable: bool,
}

impl View for Section {
    type V = SectionModel;

    open spec fn view(&self) -> SectionModel {
        SectionModel {
            name: self.name@,
            virtual_address: self.virtual_address,
            data: self.data@,
            executable: self.executable,
        }
    }
}

impl SectionModel {
    /// The address behind the last byte.
    pub open spec fn end(self) -> int {
        self.virtual_address + self.data.len()
    }

    /// The section holds all bytes of the range.
    pub open spec fn holds(self, addr: u64, len: nat) -> bool {
        self.virtual_address <= addr && addr + len <= self.end()
    }
}

#[derive(Debug, Clone, Copy, PartialEq, Eq, Structural)]
pub enum Arch {
    X86,
    X86_64,
}

impl Arch {
    /// The number of bits of an address.
    pub open spec fn width(self) -> u32 {
        match self {
            Arch::X86 => 32,
            Arch::X86_64 => 64,
        }
    }

    pub fn bitness(self) -> (bits: u32)
        ensures
            bits == self.width(),
    {
        match self {
            Arch::X86 => 32,
            Arch::X86_64 => 64,
        }
    }
}

#[derive(Debug)]
pub struct LoadedBinary {
    pub arch: Arch,
    pub entry_point: u64,
    pub sections: Vec<Section>,
    pub symbols: Vec<Symbol>,
    pub imports: Vec<Symbol>,
}

/// A loaded binary as a mathematical value.
#[verifier::ext_equal]
pub struct BinaryModel {
    pub arch: Arch,
    pub entry_point: u64,
    pub sections: Seq<SectionModel>,
    pub symbols: Seq<SymbolModel>,
    pub imports: Seq<SymbolModel>,
}

/// The symbols of a list, each as a mathematical value.
pub open spec fn symbols_model(symbols: Seq<Symbol>) -> Seq<SymbolModel> {
    symbols.map_values(|s: Symbol| s@)
}

/// The sections of a list, each as a mathematical value.
pub open spec fn sections_model(sections: Seq<Section>) -> Seq<SectionModel> {
    sections.map_values(|s: Section| s@)
}

impl View for LoadedBinary {
    type V = BinaryModel;

    open spec fn view(&self) -> BinaryModel {
        BinaryModel {
            arch: self.arch,
            entry_point: self.entry_point,
            sections: sections_model(self.sections@),
            symbols: symbols_model(self.symbols@),
            imports: symbols_model(self.imports@),
        }
    }
}

/// The bytes of a range, from the first section that holds all of it.
pub open spec fn range_bytes(sections: Seq<SectionModel>, addr: u64, len: nat) -> Option<Seq<u8>>
    decreases sections.len(),
{
    if sections.len() == 0 {
        None
    } else if sections[0].holds(addr, len) {
        let off = addr - sections[0].virtual_address;
        Some(sections[0].data.subrange(off, off + len))
    } else {
        range_bytes(sections.skip(1), addr, len)
    }
}

/// The bytes from an address to the end of the first section that holds the byte there.
pub open spec fn tail_bytes(sections: Seq<SectionModel>, addr: u64) -> Option<Seq<u8>>
    decreases sections.len(),
{
    if sections.len() == 0 {
        None
    } else if sections[0].holds(addr, 1) {
        Some(sections[0].data.skip(addr - sections[0].virtual_address))
    } else {
        tail_bytes(sections.skip(1), addr)
    }
}

/// The executable sections of a list, in order.
pub open spec fn executable(sections: Seq<SectionModel>) -> Seq<SectionModel>
    decreases sections.len(),
{
    if sections.len() == 0 {
        Seq::empty()
    } else if sections.last().executable {
        executable(sections.drop_last()).push(sections.last())
    } else {
        executable(sections.drop_last())
    }
}

/// The last symbol of a list with the given address.
pub open spec fn last_symbol(symbols: Seq<SymbolModel>, addr: u64) -> Option<SymbolModel>
    decreases symbols.len(),
{
    if symbols.len() == 0 {
        None
    } else if symbols.last().address == addr {
        Some(symbols.last())
    } else {
        last_symbol(symbols.drop_last(), addr)
    }
}

/// Some symbol of a list has the given address.
pub open spec fn known(symbols: Seq<SymbolModel>, addr: u64) -> bool {
    exists|i: int| 0 <= i < symbols.len() && (#[trigger] symbols[i]).address == addr
}

/// There is a last symbol at an address exactly if there is one at all.
pub proof fn lemma_last_symbol_known(symbols: Seq<SymbolModel>, addr: u64)
    ensures
        last_symbol(symbols, addr) is Some <==> known(symbols, addr),
        last_symbol(symbols, addr) matches Some(s) ==> s.address == addr,
    decreases symbols.len(),
{
    if symbols.len() > 0 {
        let rest = symbols.drop_last();
        lemma_last_symbol_known(rest, addr);
        assert(symbols[symbols.len() - 1] == symbols.last());
        if known(rest, addr) {
            let i = choose|i: int| 0 <= i < rest.len() && (#[trigger] rest[i]).address == addr;
            assert(symbols[i].address == addr);
        }
        if known(symbols, addr) && symbols.last().address != addr {
            let i = choose|i: int|
                0 <= i < symbols.len() && (#[trigger] symbols[i]).address == addr;
            assert(rest[i].address == addr);
        }
    }
}

/// The bytes at an address are a prefix of the bytes from there on, where sections do not overlap.
pub proof fn lemma_range_prefix_of_tail(sections: Seq<SectionModel>, addr: u64, len: nat)
    requires
        len > 0,
        range_bytes(sections, addr, len) is Some,
        forall|i: int, j: int|
            0 <= i < j < sections.len() ==> (#[trigger] sections[i]).end()
                <= (#[trigger] sections[j]).virtual_address || sections[j].end()
                <= sections[i].virtual_address,
    ensures
        tail_bytes(sections, addr) is Some,
        len <= tail_bytes(sections, addr)->0.len(),
        range_bytes(sections, addr, len)->0 == tail_bytes(sections, addr)->0.take(len as int),
    decreases sections.len(),
{
    if sections[0].holds(addr, len) {
        let off = addr - sections[0].virtual_address;
        let data = sections[0].data;
        assert(data.subrange(off, off + len) =~= data.skip(off).take(len as int));
    } else {
        let rest = sections.skip(1);
        assert forall|i: int, j: int| 0 <= i < j < rest.len() implies (#[trigger] rest[i]).end()
            <= (#[trigger] rest[j]).virtual_address || rest[j].end() <= rest[i].virtual_address by {
            assert(rest[i] == sections[i + 1] && rest[j] == sections[j + 1]);
        }
        lemma_range_prefix_of_tail(rest, addr, len);
        if sections[0].holds(addr, 1) {
            let k = lemma_range_source(rest, addr, len);
            assert(rest[k] == sections[k + 1]);
            assert(sections[0].end() <= sections[k + 1].virtual_address || sections[k + 1].end()
                <= sections[0].virtual_address);
        }
    }
}

proof fn lemma_range_source(sections: Seq<SectionModel>, addr: u64, len: nat) -> (k: int)
    requires
        range_bytes(sections, addr, len) is Some,
    ensures
        0 <= k < sections.len(),
        sections[k].holds(addr, len),
    decreases sections.len(),
{
    if sections[0].holds(addr, len) {
        0
    } else {
        lemma_range_source(sections.skip(1), addr, len) + 1
    }
}

impl LoadedBinary {
    pub fn bytes_at(&self, addr: u64, len: usize) -> (bytes: Option<&[u8]>)
        ensures
            bytes is Some <==> range_bytes(self@.sections, addr, len as nat) is Some,
            bytes matches Some(b) ==> range_bytes(self@.sections, addr, len as nat) == Some(b@),
    {
        let ghost sections = self@.sections;
        let n = self.sections.len();
        let mut i: usize = 0;
        assert(sections.skip(0) =~= sections);
        while i < n
            invariant
                i <= n,
                n == self.sections@.len(),
                sections == sections_model(self.sections@),
                range_bytes(sections, addr, len as nat) == range_bytes(
                    sections.skip(i as int),
                    addr,
                    len as nat,
                ),
            decreases n - i,
        {
            let sec = &self.sections[i];
            assert(sections.skip(i as int)[0] == sec@);
            let start = sec.virtual_address;
            if addr >= start {
                let size = sec.data.len();
                let off: u64 = addr - start;
                if off <= size as u64 && len as u64 <= size as u64 - off {
                    let from = off as usize;
                    return Some(slice_subrange(sec.data.as_slice(), from, from + len));
                }
            }
            assert(sections.skip(i as int).skip(1) =~= sections.skip(i + 1));
            i = i + 1;
        }
        None
    }

    pub fn bytes_from(&self, addr: u64) -> (bytes: Option<&[u8]>)
        ensures
            bytes is Some <==> tail_bytes(self@.sections, addr) is Some,
            bytes matches Some(b) ==> tail_bytes(self@.sections, addr) == Some(b@) && b@.len() > 0,
    {
        let ghost sections = self@.sections;
        let n = self.sections.len();
        let mut i: usize = 0;
        assert(sections.skip(0) =~= sections);
        while i < n
            invariant
                i <= n,
                n == self.sections@.len(),
                sections == sections_model(self.sections@),
                tail_bytes(sections, addr) == tail_bytes(sections.skip(i as int), addr),
            decreases n - i,
        {
            let sec = &self.sections[i];
            assert(sections.skip(i as int)[0] == sec@);
            let start = sec.virtual_address;
            if addr >= start {
                let size = sec.data.len();
                let off: u64 = addr - start;
                if off < size as u64 {
                    let from = off as usize;
                    let tail = slice_subrange(sec.data.as_slice(), from, size);
                    assert(tail@ =~= sec.data@.skip(from as int));
                    return Some(tail);
                }
            }
            assert(sections.skip(i as int).skip(1) =~= sections.skip(i + 1));
            i = i + 1;
        }
        None
    }

    /// The executable sections, in order.
    pub fn exec_sections(&self) -> (list: Vec<&Section>)
        ensures
            list@.map_values(|s: &Section| s@) == executable(self@.sections),
    {
        let ghost sections = self@.sections;
        let mut list: Vec<&Section> = Vec::new();
        let n = self.sections.len();
        let mut i: usize = 0;
        assert(list@.map_values(|s: &Section| s@) =~= executable(sections.take(0)));
        while i < n
            invariant
                i <= n,
                n == self.sections@.len(),
                sections == sections_model(self.sections@),
                list@.map_values(|s: &Section| s@) == executable(sections.take(i as int)),
            decreases n - i,
        {
            let sec = &self.sections[i];
            let ghost before = list@;
            assert(sections.take(i + 1).drop_last() =~= sections.take(i as int));
            if sec.executable {
                list.push(sec);
                assert(list@.map_values(|s: &Section| s@) =~= before.map_values(
                    |s: &Section| s@,
                ).push(sec@));
            }
            i = i + 1;
        }
        assert(sections.take(n as int) =~= sections);
        list
    }

    /// The symbol at each address; of several at one address the last.
    pub fn symbol_map(&self) -> (map: HashMap<u64, &Symbol>)
        ensures
            forall|a: u64| #[trigger] map@.contains_key(a) <==> known(self@.symbols, a),
            forall|a: u64| #[trigger]
                map@.contains_key(a) ==> last_symbol(self@.symbols, a) == Some(map@[a]@),
    {
        let ghost symbols = self@.symbols;
        let mut map: HashMap<u64, &Symbol> = HashMap::new();
        let n = self.symbols.len();
        let mut i: usize = 0;
        while i < n
            invariant
                i <= n,
                n == self.symbols@.len(),
                symbols == symbols_model(self.symbols@),
                forall|a: u64| #[trigger]
                    map@.contains_key(a) <==> last_symbol(symbols.take(i as int), a) is Some,
                forall|a: u64| #[trigger]
                    map@.contains_key(a) ==> last_symbol(symbols.take(i as int), a) == Some(
                        map@[a]@,
                    ),
            decreases n - i,
        {
            let sym = &self.symbols[i];
            assert(symbols.take(i + 1).drop_last() =~= symbols.take(i as int));
            let ghost before = map@;
            map.insert(sym.address, sym);
            assert forall|a: u64| #[trigger] map@.contains_key(a) <==> last_symbol(
                symbols.take(i + 1),
                a,
            ) is Some by {
                assert(before.contains_key(a) <==> last_symbol(
                    symbols.take(i as int),
                    a,
                ) is Some);
            }
            assert forall|a: u64| #[trigger] map@.contains_key(a) implies last_symbol(
                symbols.take(i + 1),
                a,
            ) == Some(map@[a]@) by {
                if a != sym.address {
                    assert(before.contains_key(a));
                }
            }
            i = i + 1;
        }
        assert(symbols.take(n as int) =~= symbols);
        assert forall|a: u64| #[trigger] map@.contains_key(a) <==> known(symbols, a) by {
            lemma_last_symbol_known(symbols, a);
        }
        map
    }
}

} // verus!

//! What a loaded binary has to do with the tables of its file.
use vstd::prelude::*;
use vstd::utf8::{decode_utf8, valid_utf8};

use super::load::{
    elf_arch, elf_dynsyms_of, elf_section, elf_sections, elf_sections_of, elf_symbols,
    elf_symbols_of, format_of, loaded, pe_exports_of, pe_imports_of, pe_machine, pe_name,
    pe_section, pe_sections, pe_sections_of, pe_symbols, recognised, trim_end, trim_start,
    ElfSection, ElfSectionModel, ElfSymbol, ElfSymbolModel, Format, PeSection, PeSectionModel,
    PeSymbol, PeSymbolModel,
};
use super::{
    executable, last_symbol, range_bytes, tail_bytes, Arch, LoadedBinary, Section, SectionModel,
    Symbol, SymbolModel,
};

verus! {

/// The models hold what the values hold.
pub proof fn lemma_models(
    symbol: Symbol,
    section: Section,
    binary: LoadedBinary,
    elf_section: ElfSection,
    elf_symbol: ElfSymbol,
    pe_section: PeSection,
    pe_symbol: PeSymbol,
)
    ensures
        symbol@.name == symbol.name@ && symbol@.address == symbol.address && symbol@.size
            == symbol.size,
        section@.name == section.name@ && section@.virtual_address == section.virtual_address
            && section@.data == section.data@ && section@.executable == section.executable,
        binary@.arch == binary.arch && binary@.entry_point == binary.entry_point,
        binary@.sections.len() == binary.sections@.len(),
        binary@.symbols.len() == binary.symbols@.len(),
        binary@.imports.len() == binary.imports@.len(),
        forall|i: int|
            0 <= i < binary.sections@.len() ==> #[trigger] binary@.sections[i]
                == binary.sections@[i]@,
        forall|i: int|
            0 <= i < binary.symbols@.len() ==> #[trigger] binary@.symbols[i] == binary.symbols@[i]@,
        forall|i: int|
            0 <= i < binary.imports@.len() ==> #[trigger] binary@.imports[i] == binary.imports@[i]@,
        elf_section.name is Some <==> elf_section@.name is Some,
        elf_section.name matches Some(n) ==> elf_section@.name == Some(n@),
        elf_section@.kind == elf_section.kind && elf_section@.flags == elf_section.flags,
        elf_section@.address == elf_section.address && elf_section@.offset == elf_section.offset
            && elf_section@.size == elf_section.size,
        elf_symbol.name is Some <==> elf_symbol@.name is Some,
        elf_symbol.name matches Some(n) ==> elf_symbol@.name == Some(n@),
        elf_symbol@.value == elf_symbol.value && elf_symbol@.size == elf_symbol.size,
        pe_section@.name == pe_section.name@ && pe_section@.address == pe_section.address,
        pe_section@.offset == pe_section.offset && pe_section@.size == pe_section.size
            && pe_section@.flags == pe_section.flags,
        pe_symbol.name is Some <==> pe_symbol@.name is Some,
        pe_symbol.name matches Some(n) ==> pe_symbol@.name == Some(n@),
        pe_symbol@.rva == pe_symbol.rva,
{
}

/// Place `k` holds one of the first `n` items of a list that are chosen.
pub open spec fn taken_from(
    chosen: spec_fn(int) -> bool,
    n: int,
    rank: spec_fn(int) -> nat,
    k: int,
) -> bool {
    exists|i: int| 0 <= i < n && #[trigger] chosen(i) && rank(i) == k
}

/// A list of `out` items is made of those of the first `n` items of another that are chosen, in
/// their order: item `i` of the other stands at place `rank(i)`, and no place is left over.
pub open spec fn picked(chosen: spec_fn(int) -> bool, n: int, out: nat, rank: spec_fn(int) -> nat)
    -> bool {
    &&& forall|i: int| 0 <= i < n && #[trigger] chosen(i) ==> rank(i) < out
    &&& forall|i: int, j: int|
        0 <= i < j < n && #[trigger] chosen(i) && #[trigger] chosen(j) ==> rank(i) < rank(j)
    &&& forall|k: int| 0 <= k < out ==> #[trigger] taken_from(chosen, n, rank, k)
}

/// A program section of an ELF file that lies in the file.
pub open spec fn elf_wanted(sh: ElfSectionModel, data: Seq<u8>) -> bool {
    sh.kind == 1 && sh.size != 0 && data.len() >= sh.offset + sh.size
}

/// The section shows the bytes of the file that its header points to, under the name and at the
/// address of the header; it is executable exactly if the flag with the value 4 is set.
pub open spec fn elf_shown(sh: ElfSectionModel, data: Seq<u8>, s: SectionModel) -> bool {
    &&& sh.name matches Some(n) ==> s.name == n
    &&& sh.name is None ==> s.name.len() == 0
    &&& s.virtual_address == sh.address
    &&& s.data.len() == sh.size
    &&& forall|k: int| 0 <= k < sh.size ==> #[trigger] s.data[k] == data[sh.offset + k]
    &&& s.executable <==> (sh.flags / 4) % 2 == 1
}

proof fn lemma_elf_section(sh: ElfSectionModel, data: Seq<u8>)
    requires
        elf_wanted(sh, data),
    ensures
        elf_shown(sh, data, elf_section(sh, data)),
{
    let f = sh.flags;
    assert((f & 0x4 != 0) <==> (f / 4) % 2 == 1) by (bit_vector);
}

/// The loaded sections of an ELF file are those of its program sections that are not empty and lie
/// in the file, in order, and each shows its bytes.
pub proof fn lemma_elf_sections(list: Seq<ElfSectionModel>, data: Seq<u8>)
    ensures
        picked(
            |i: int| elf_wanted(list[i], data),
            list.len() as int,
            elf_sections(list, data).len(),
            |i: int| elf_sections(list.take(i), data).len(),
        ),
        forall|i: int|
            0 <= i < list.len() && elf_wanted(#[trigger] list[i], data) ==> elf_shown(
                list[i],
                data,
                elf_sections(list, data)[elf_sections(list.take(i), data).len() as int],
            ),
    decreases list.len(),
{
    let chosen = |i: int| elf_wanted(list[i], data);
    let rank = |i: int| elf_sections(list.take(i), data).len();
    if list.len() > 0 {
        let rest = list.drop_last();
        let n = rest.len() as int;
        let before = elf_sections(rest, data);
        let all = elf_sections(list, data);
        lemma_elf_sections(rest, data);
        let chosen0 = |i: int| elf_wanted(rest[i], data);
        let rank0 = |i: int| elf_sections(rest.take(i), data).len();
        assert(list.take(n) =~= rest);
        assert forall|i: int| 0 <= i < n implies #[trigger] chosen(i) == chosen0(i) && rank(i)
            == rank0(i) by {
            assert(rest.take(i) =~= list.take(i));
            assert(rest[i] == list[i]);
        }
        assert(rank(n) == before.len());
        lemma_picked_more(chosen0, rank0, chosen, rank, n, before.len(), all.len());
        assert forall|i: int|
            0 <= i < list.len() && elf_wanted(#[trigger] list[i], data) implies elf_shown(
            list[i],
            data,
            all[elf_sections(list.take(i), data).len() as int],
        ) by {
            if i < n {
                assert(rest[i] == list[i]);
                assert(rest.take(i) =~= list.take(i));
                assert(chosen0(i));
                assert(rank0(i) < before.len());
                assert(all[rank0(i) as int] == before[rank0(i) as int]);
            } else {
                lemma_elf_section(list[i], data);
            }
        }
    }
}

/// One more item.
pub(crate) proof fn lemma_picked_more(
    chosen0: spec_fn(int) -> bool,
    rank0: spec_fn(int) -> nat,
    chosen: spec_fn(int) -> bool,
    rank: spec_fn(int) -> nat,
    n: int,
    before: nat,
    all: nat,
)
    requires
        n >= 0,
        picked(chosen0, n, before, rank0),
        forall|i: int| 0 <= i < n ==> #[trigger] chosen(i) == chosen0(i) && rank(i) == rank0(i),
        rank(n) == before,
        all == before + (if chosen(n) {
            1int
        } else {
            0int
        }),
    ensures
        picked(chosen, n + 1, all, rank),
{
    assert forall|i: int| 0 <= i < n + 1 && #[trigger] chosen(i) implies rank(i) < all by {
        if i < n {
            assert(chosen0(i));
        }
    }
    assert forall|i: int, j: int|
        0 <= i < j < n + 1 && #[trigger] chosen(i) && #[trigger] chosen(j) implies rank(i) < rank(
        j,
    ) by {
        assert(chosen0(i));
        if j < n {
            assert(chosen0(j));
        }
    }
    assert forall|k: int| 0 <= k < all implies #[trigger] taken_from(chosen, n + 1, rank, k) by {
        if k < before {
            assert(taken_from(chosen0, n, rank0, k));
            let i = choose|i: int| 0 <= i < n && #[trigger] chosen0(i) && rank0(i) == k;
            assert(chosen(i) == chosen0(i));
        } else {
            assert(chosen(n) && rank(n) == k);
        }
    }
}

/// A section of a PE file that lies in the file.
pub open spec fn pe_wanted(sec: PeSectionModel, data: Seq<u8>) -> bool {
    sec.size != 0 && data.len() >= sec.offset + sec.size
}

/// The section shows the bytes of the file that its header points to, at the address in the image;
/// it is executable exactly if the flag with the value 0x20000000 is set.
pub open spec fn pe_shown(sec: PeSectionModel, base: u64, data: Seq<u8>, s: SectionModel) -> bool {
    &&& s.name == pe_name(sec.name)
    &&& s.virtual_address as int == (base + sec.address) % 0x1_0000_0000_0000_0000
    &&& s.data.len() == sec.size
    &&& forall|k: int| 0 <= k < sec.size ==> #[trigger] s.data[k] == data[sec.offset + k]
    &&& s.executable <==> (sec.flags / 0x2000_0000) % 2 == 1
}

proof fn lemma_pe_section(sec: PeSectionModel, base: u64, data: Seq<u8>)
    requires
        pe_wanted(sec, data),
    ensures
        pe_shown(sec, base, data, pe_section(sec, base, data)),
{
    let f = sec.flags;
    assert((f & 0x2000_0000 != 0) <==> (f / 0x2000_0000) % 2 == 1) by (bit_vector);
}

/// The loaded sections of a PE file are those that are not empty and lie in the file, in order.
pub proof fn lemma_pe_sections(list: Seq<PeSectionModel>, base: u64, data: Seq<u8>)
    ensures
        picked(
            |i: int| pe_wanted(list[i], data),
            list.len() as int,
            pe_sections(list, base, data).len(),
            |i: int| pe_sections(list.take(i), base, data).len(),
        ),
        forall|i: int|
            0 <= i < list.len() && pe_wanted(#[trigger] list[i], data) ==> pe_shown(
                list[i],
                base,
                data,
                pe_sections(list, base, data)[pe_sections(list.take(i), base, data).len() as int],
            ),
    decreases list.len(),
{
    let chosen = |i: int| pe_wanted(list[i], data);
    let rank = |i: int| pe_sections(list.take(i), base, data).len();
    if list.len() > 0 {
        let rest = list.drop_last();
        let n = rest.len() as int;
        let before = pe_sections(rest, base, data);
        let all = pe_sections(list, base, data);
        lemma_pe_sections(rest, base, data);
        let chosen0 = |i: int| pe_wanted(rest[i], data);
        let rank0 = |i: int| pe_sections(rest.take(i), base, data).len();
        assert(list.take(n) =~= rest);
        assert forall|i: int| 0 <= i < n implies #[trigger] chosen(i) == chosen0(i) && rank(i)
            == rank0(i) by {
            assert(rest.take(i) =~= list.take(i));
            assert(rest[i] == list[i]);
        }
        assert(rank(n) == before.len());
        lemma_picked_more(chosen0, rank0, chosen, rank, n, before.len(), all.len());
        assert forall|i: int|
            0 <= i < list.len() && pe_wanted(#[trigger] list[i], data) implies pe_shown(
            list[i],
            base,
            data,
            all[pe_sections(list.take(i), base, data).len() as int],
        ) by {
            if i < n {
                assert(rest[i] == list[i]);
                assert(rest.take(i) =~= list.take(i));
                assert(chosen0(i));
                assert(rank0(i) < before.len());
                assert(all[rank0(i) as int] == before[rank0(i) as int]);
            } else {
                lemma_pe_section(list[i], base, data);
            }
        }
    }
}

/// A symbol of an ELF file that is taken: it has a name, and where `placed` an address.
pub open spec fn elf_symbol_wanted(sym: ElfSymbolModel, placed: bool) -> bool {
    (sym.name matches Some(n) && n.len() > 0) && (!placed || sym.value > 0)
}

/// The symbols taken from an ELF file, in order, with their names, addresses and sizes.
pub proof fn lemma_elf_symbols(list: Seq<ElfSymbolModel>, placed: bool)
    ensures
        picked(
            |i: int| elf_symbol_wanted(list[i], placed),
            list.len() as int,
            elf_symbols(list, placed).len(),
            |i: int| elf_symbols(list.take(i), placed).len(),
        ),
        forall|i: int|
            0 <= i < list.len() && elf_symbol_wanted(#[trigger] list[i], placed) ==> ({
                let s = elf_symbols(list, placed)[elf_symbols(list.take(i), placed).len() as int];
                Some(s.name) == list[i].name && s.address == list[i].value && s.size
                    == list[i].size
            }),
    decreases list.len(),
{
    let chosen = |i: int| elf_symbol_wanted(list[i], placed);
    let rank = |i: int| elf_symbols(list.take(i), placed).len();
    if list.len() > 0 {
        let rest = list.drop_last();
        let n = rest.len() as int;
        let before = elf_symbols(rest, placed);
        let all = elf_symbols(list, placed);
        lemma_elf_symbols(rest, placed);
        let chosen0 = |i: int| elf_symbol_wanted(rest[i], placed);
        let rank0 = |i: int| elf_symbols(rest.take(i), placed).len();
        assert(list.take(n) =~= rest);
        assert forall|i: int| 0 <= i < n implies #[trigger] chosen(i) == chosen0(i) && rank(i)
            == rank0(i) by {
            assert(rest.take(i) =~= list.take(i));
            assert(rest[i] == list[i]);
        }
        assert(rank(n) == before.len());
        lemma_picked_more(chosen0, rank0, chosen, rank, n, before.len(), all.len());
        assert forall|i: int|
            0 <= i < list.len() && elf_symbol_wanted(#[trigger] list[i], placed) implies ({
            let s = all[elf_symbols(list.take(i), placed).len() as int];
            Some(s.name) == list[i].name && s.address == list[i].value && s.size == list[i].size
        }) by {
            if i < n {
                assert(rest[i] == list[i]);
                assert(rest.take(i) =~= list.take(i));
                assert(chosen0(i));
                assert(rank0(i) < before.len());
                assert(all[rank0(i) as int] == before[rank0(i) as int]);
            }
        }
    }
}

/// The symbols taken from a PE file: those with a name, in order, at their addresses in the image.
pub proof fn lemma_pe_symbols(list: Seq<PeSymbolModel>, base: u64)
    ensures
        picked(
            |i: int| list[i].name is Some,
            list.len() as int,
            pe_symbols(list, base).len(),
            |i: int| pe_symbols(list.take(i), base).len(),
        ),
        forall|i: int|
            0 <= i < list.len() && (#[trigger] list[i]).name is Some ==> ({
                let s = pe_symbols(list, base)[pe_symbols(list.take(i), base).len() as int];
                Some(s.name) == list[i].name && s.address as int == (base + list[i].rva)
                    % 0x1_0000_0000_0000_0000 && s.size == 0
            }),
    decreases list.len(),
{
    let chosen = |i: int| list[i].name is Some;
    let rank = |i: int| pe_symbols(list.take(i), base).len();
    if list.len() > 0 {
        let rest = list.drop_last();
        let n = rest.len() as int;
        let before = pe_symbols(rest, base);
        let all = pe_symbols(list, base);
        lemma_pe_symbols(rest, base);
        let chosen0 = |i: int| rest[i].name is Some;
        let rank0 = |i: int| pe_symbols(rest.take(i), base).len();
        assert(list.take(n) =~= rest);
        assert forall|i: int| 0 <= i < n implies #[trigger] chosen(i) == chosen0(i) && rank(i)
            == rank0(i) by {
            assert(rest.take(i) =~= list.take(i));
            assert(rest[i] == list[i]);
        }
        assert(rank(n) == before.len());
        lemma_picked_more(chosen0, rank0, chosen, rank, n, before.len(), all.len());
        assert forall|i: int| 0 <= i < list.len() && (#[trigger] list[i]).name is Some implies ({
            let s = all[pe_symbols(list.take(i), base).len() as int];
            Some(s.name) == list[i].name && s.address as int == (base + list[i].rva)
                % 0x1_0000_0000_0000_0000 && s.size == 0
        }) by {
            if i < n {
                assert(rest[i] == list[i]);
                assert(rest.take(i) =~= list.take(i));
                assert(chosen0(i));
                assert(rank0(i) < before.len());
                assert(all[rank0(i) as int] == before[rank0(i) as int]);
            }
        }
    }
}

/// All characters are zero characters.
pub open spec fn all_zero(s: Seq<char>) -> bool {
    forall|i: int| 0 <= i < s.len() ==> #[trigger] s[i] == '\0'
}

proof fn lemma_trim_start(s: Seq<char>) -> (z: Seq<char>)
    ensures
        all_zero(z),
        s == z + trim_start(s),
        trim_start(s).len() > 0 ==> trim_start(s)[0] != '\0',
    decreases s.len(),
{
    if s.len() > 0 && s[0] == '\0' {
        let z = lemma_trim_start(s.skip(1));
        let all = seq!['\0'] + z;
        assert forall|i: int| 0 <= i < s.len() implies s[i] == (all + trim_start(s))[i] by {
            if i > 0 {
                assert(s.skip(1)[i - 1] == s[i]);
            }
        }
        assert(s =~= all + trim_start(s));
        all
    } else {
        assert(s =~= Seq::<char>::empty() + s);
        Seq::empty()
    }
}

proof fn lemma_trim_end(s: Seq<char>) -> (z: Seq<char>)
    ensures
        all_zero(z),
        s == trim_end(s) + z,
        trim_end(s).len() > 0 ==> trim_end(s).last() != '\0' && trim_end(s)[0] == s[0],
    decreases s.len(),
{
    if s.len() > 0 && s.last() == '\0' {
        let z = lemma_trim_end(s.drop_last());
        let all = z.push('\0');
        assert forall|i: int| 0 <= i < s.len() implies s[i] == (trim_end(s) + all)[i] by {
            if i < s.len() - 1 {
                assert(s.drop_last()[i] == s[i]);
            }
        }
        assert(s =~= trim_end(s) + all);
        all
    } else {
        assert(s =~= s + Seq::<char>::empty());
        Seq::empty()
    }
}

/// The name of a PE section is what its bytes encode but for zero characters around it, and neither
/// begins nor ends with one; bytes that encode nothing give no name.
pub proof fn lemma_pe_name(bytes: Seq<u8>) -> (around: (Seq<char>, Seq<char>))
    ensures
        all_zero(around.0) && all_zero(around.1),
        valid_utf8(bytes) ==> decode_utf8(bytes) == around.0 + pe_name(bytes) + around.1,
        !valid_utf8(bytes) ==> pe_name(bytes).len() == 0,
        pe_name(bytes).len() > 0 ==> pe_name(bytes)[0] != '\0' && pe_name(bytes).last() != '\0',
{
    if valid_utf8(bytes) {
        let s = decode_utf8(bytes);
        let a = lemma_trim_start(s);
        let b = lemma_trim_end(trim_start(s));
        assert(s =~= a + trim_end(trim_start(s)) + b);
        (a, b)
    } else {
        (Seq::empty(), Seq::empty())
    }
}

/// What is loaded: a file that the parser takes for ELF with machine 3 or 62, or for PE with
/// machine 0x14c or 0x8664, and nothing else; with the architecture and entry point that its header
/// names.
pub proof fn lemma_loaded(data: Seq<u8>)
    ensures
        recognised(data) matches Some(Format::Elf { machine, entry }) ==> {
            &&& loaded(data) is Some <==> machine == 3 || machine == 62
            &&& loaded(data) matches Some(b) ==> {
                &&& b.arch == Arch::X86 <==> machine == 3
                &&& b.entry_point == entry
                &&& b.sections == elf_sections(elf_sections_of(data), data)
                &&& b.symbols == elf_symbols(elf_symbols_of(data), true)
                &&& b.imports == elf_symbols(elf_dynsyms_of(data), false)
            }
        },
        recognised(data) matches Some(Format::Pe { machine, is_64, image_base, entry }) ==> {
            &&& loaded(data) is Some <==> machine == 0x14c || machine == 0x8664
            &&& loaded(data) matches Some(b) ==> {
                &&& b.arch == Arch::X86_64 <==> is_64
                &&& b.entry_point as int == (image_base + entry) % 0x1_0000_0000_0000_0000
                &&& b.sections == pe_sections(pe_sections_of(data), image_base, data)
                &&& b.symbols == pe_symbols(pe_exports_of(data), image_base)
                &&& b.imports == pe_symbols(pe_imports_of(data), image_base)
            }
        },
        recognised(data) == Some(Format::Other) || recognised(data) is None ==> loaded(data)
            is None,
        data.len() < 16 ==> recognised(data) == format_of(data),
        data.len() >= 16 && (data[0] == 0x7f && data[1] == 'E' as u8 && data[2] == 'L' as u8
            && data[3] == 'F' as u8 || data[0] == 'M' as u8 && data[1] == 'Z' as u8)
            ==> recognised(data) == format_of(data),
        data.len() >= 16 && !(data[0] == 0x7f && data[1] == 'E' as u8 && data[2] == 'L' as u8
            && data[3] == 'F' as u8) && !(data[0] == 'M' as u8 && data[1] == 'Z' as u8)
            ==> recognised(data) == Some(Format::Other),
{
}

/// The machine types that are known, and their architectures.
pub proof fn lemma_machines(machine: u16)
    ensures
        elf_arch(machine) == Some(Arch::X86) <==> machine == 3,
        elf_arch(machine) == Some(Arch::X86_64) <==> machine == 62,
        pe_machine(machine) <==> machine == 332 || machine == 34404,
{
}

/// All bytes from `addr` on, `len` of them, lie in the section.
pub open spec fn covers(s: SectionModel, addr: u64, len: nat) -> bool {
    s.virtual_address <= addr && addr + len <= s.virtual_address + s.data.len()
}

/// The bytes of a range are those of the first section that has them all; there are none exactly if
/// no section has.
pub proof fn lemma_range_bytes(sections: Seq<SectionModel>, addr: u64, len: nat) -> (i: int)
    ensures
        range_bytes(sections, addr, len) is None <==> forall|j: int|
            0 <= j < sections.len() ==> !covers(#[trigger] sections[j], addr, len),
        range_bytes(sections, addr, len) matches Some(bytes) ==> {
            &&& 0 <= i < sections.len() && covers(sections[i], addr, len)
            &&& forall|j: int| 0 <= j < i ==> !covers(#[trigger] sections[j], addr, len)
            &&& bytes.len() == len
            &&& forall|k: int|
                0 <= k < len ==> #[trigger] bytes[k] == sections[i].data[addr + k
                    - sections[i].virtual_address]
        },
    decreases sections.len(),
{
    if sections.len() == 0 {
        0
    } else if covers(sections[0], addr, len) {
        0
    } else {
        let rest = sections.skip(1);
        let i = lemma_range_bytes(rest, addr, len);
        assert forall|j: int| 0 <= j < i + 1 && range_bytes(rest, addr, len) is Some implies !covers(
            #[trigger] sections[j],
            addr,
            len,
        ) by {
            if j > 0 {
                assert(rest[j - 1] == sections[j]);
            }
        }
        if range_bytes(rest, addr, len) is None {
            assert forall|j: int| 0 <= j < sections.len() implies !covers(
                #[trigger] sections[j],
                addr,
                len,
            ) by {
                if j > 0 {
                    assert(rest[j - 1] == sections[j]);
                }
            }
        } else {
            assert(rest[i] == sections[i + 1]);
        }
        i + 1
    }
}

/// The bytes from an address on are those of the first section that has the byte there, up to the
/// end of the section; there are none exactly if no section has it.
pub proof fn lemma_tail_bytes(sections: Seq<SectionModel>, addr: u64) -> (i: int)
    ensures
        tail_bytes(sections, addr) is None <==> forall|j: int|
            0 <= j < sections.len() ==> !covers(#[trigger] sections[j], addr, 1),
        tail_bytes(sections, addr) matches Some(bytes) ==> {
            &&& 0 <= i < sections.len() && covers(sections[i], addr, 1)
            &&& forall|j: int| 0 <= j < i ==> !covers(#[trigger] sections[j], addr, 1)
            &&& addr + bytes.len() == sections[i].virtual_address + sections[i].data.len()
            &&& forall|k: int|
                0 <= k < bytes.len() ==> #[trigger] bytes[k] == sections[i].data[addr + k
                    - sections[i].virtual_address]
        },
    decreases sections.len(),
{
    if sections.len() == 0 {
        0
    } else if covers(sections[0], addr, 1) {
        0
    } else {
        let rest = sections.skip(1);
        let i = lemma_tail_bytes(rest, addr);
        assert forall|j: int| 0 <= j < i + 1 && tail_bytes(rest, addr) is Some implies !covers(
            #[trigger] sections[j],
            addr,
            1,
        ) by {
            if j > 0 {
                assert(rest[j - 1] == sections[j]);
            }
        }
        if tail_bytes(rest, addr) is None {
            assert forall|j: int| 0 <= j < sections.len() implies !covers(
                #[trigger] sections[j],
                addr,
                1,
            ) by {
                if j > 0 {
                    assert(rest[j - 1] == sections[j]);
                }
            }
        } else {
            assert(rest[i] == sections[i + 1]);
        }
        i + 1
    }
}

/// The executable sections are those that are marked so, in order.
pub proof fn lemma_executable(sections: Seq<SectionModel>)
    ensures
        picked(
            |i: int| sections[i].executable,
            sections.len() as int,
            executable(sections).len(),
            |i: int| executable(sections.take(i)).len(),
        ),
        forall|i: int|
            0 <= i < sections.len() && (#[trigger] sections[i]).executable ==> executable(
                sections,
            )[executable(sections.take(i)).len() as int] == sections[i],
    decreases sections.len(),
{
    let chosen = |i: int| sections[i].executable;
    let rank = |i: int| executable(sections.take(i)).len();
    if sections.len() > 0 {
        let rest = sections.drop_last();
        let n = rest.len() as int;
        let before = executable(rest);
        let all = executable(sections);
        lemma_executable(rest);
        let chosen0 = |i: int| rest[i].executable;
        let rank0 = |i: int| executable(rest.take(i)).len();
        assert(sections.take(n) =~= rest);
        assert forall|i: int| 0 <= i < n implies #[trigger] chosen(i) == chosen0(i) && rank(i)
            == rank0(i) by {
            assert(rest.take(i) =~= sections.take(i));
            assert(rest[i] == sections[i]);
        }
        assert(rank(n) == before.len());
        lemma_picked_more(chosen0, rank0, chosen, rank, n, before.len(), all.len());
        assert forall|i: int|
            0 <= i < sections.len() && (#[trigger] sections[i]).executable implies all[executable(
            sections.take(i),
        ).len() as int] == sections[i] by {
            if i < n {
                assert(rest[i] == sections[i]);
                assert(rest.take(i) =~= sections.take(i));
                assert(chosen0(i));
                assert(rank0(i) < before.len());
                assert(all[rank0(i) as int] == before[rank0(i) as int]);
            }
        }
    }
}

/// The symbol of an address is the last one of the list that has it.
pub proof fn lemma_last_symbol(symbols: Seq<SymbolModel>, addr: u64) -> (i: int)
    ensures
        last_symbol(symbols, addr) is None <==> forall|j: int|
            0 <= j < symbols.len() ==> (#[trigger] symbols[j]).address != addr,
        last_symbol(symbols, addr) matches Some(s) ==> {
            &&& 0 <= i < symbols.len() && symbols[i] == s && s.address == addr
            &&& forall|j: int| i < j < symbols.len() ==> (#[trigger] symbols[j]).address != addr
        },
    decreases symbols.len(),
{
    if symbols.len() == 0 {
        0
    } else if symbols.last().address == addr {
        symbols.len() - 1
    } else {
        let rest = symbols.drop_last();
        let i = lemma_last_symbol(rest, addr);
        assert(symbols[symbols.len() - 1].address != addr);
        if last_symbol(rest, addr) is None {
            assert forall|j: int| 0 <= j < symbols.len() implies (#[trigger] symbols[j]).address
                != addr by {
                if j < rest.len() {
                    assert(rest[j].address != addr);
                }
            }
        } else {
            assert forall|j: int| i < j < symbols.len() implies (#[trigger] symbols[j]).address
                != addr by {
                if j < rest.len() {
                    assert(rest[j].address != addr);
                }
            }
        }
        i
    }
}

} // verus!

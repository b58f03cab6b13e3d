//! Loading of ELF and PE files.
use goblin::Object;
use vstd::prelude::*;
use vstd::slice::slice_subrange;
use vstd::utf8::{decode_utf8, valid_utf8};

use super::{
    sections_model, symbols_model, Arch, BinaryModel, LoadedBinary, Section, SectionModel, Symbol,
    SymbolModel,
};

verus! {

/// The error type of the file parser.
#[verifier::external_type_specification]
#[verifier::external_body]
pub struct ExParseError(goblin::error::Error);

/// Why a file cannot be loaded.
#[derive(Debug)]
pub enum LoadError {
    /// The file is malformed
    Parse(goblin::error::Error),
    /// Unsupported binary format (only ELF and PE supported)
    UnsupportedFormat,
    /// Unsupported machine type
    UnsupportedMachine(u16),
}

/// The format of a file, with what its header says.
#[derive(Debug, Clone, Copy, PartialEq, Eq, Structural)]
pub enum Format {
    Elf { machine: u16, entry: u64 },
    Pe { machine: u16, is_64: bool, image_base: u64, entry: u64 },
    Other,
}

/// A section header of an ELF file.
#[derive(Debug)]
pub struct ElfSection {
    pub name: Option<String>,
    pub kind: u32,
    pub flags: u64,
    pub address: u64,
    pub offset: u64,
    pub size: u64,
}

/// A section header of an ELF file as a mathematical value.
pub struct ElfSectionModel {
    pub name: Option<Seq<char>>,
    pub kind: u32,
    pub flags: u64,
    pub address: u64,
    pub offset: u64,
    pub size: u64,
}

/// An optional text as its characters.
pub open spec fn chars_of(name: Option<String>) -> Option<Seq<char>> {
    match name {
        Some(s) => Some(s@),
        None => None,
    }
}

impl View for ElfSection {
    type V = ElfSectionModel;

    open spec fn view(&self) -> ElfSectionModel {
        ElfSectionModel {
            name: chars_of(self.name),
            kind: self.kind,
            flags: self.flags,
            address: self.address,
            offset: self.offset,
            size: self.size,
        }
    }
}

/// A symbol of an ELF file.
#[derive(Debug)]
pub struct ElfSymbol {
    pub name: Option<String>,
    pub value: u64,
    pub size: u64,
}

/// A symbol of an ELF file as a mathematical value.
pub struct ElfSymbolModel {
    pub name: Option<Seq<char>>,
    pub value: u64,
    pub size: u64,
}

impl View for ElfSymbol {
    type V = ElfSymbolModel;

    open spec fn view(&self) -> ElfSymbolModel {
        ElfSymbolModel { name: chars_of(self.name), value: self.value, size: self.size }
    }
}

/// A section header of a PE file.
#[derive(Debug)]
pub struct PeSection {
    pub name: Vec<u8>,
    pub address: u32,
    pub offset: u32,
    pub size: u32,
    pub flags: u32,
}

/// A section header of a PE file as a mathematical value.
pub struct PeSectionModel {
    pub name: Seq<u8>,
    pub address: u32,
    pub offset: u32,
    pub size: u32,
    pub flags: u32,
}

impl View for PeSection {
    type V = PeSectionModel;

    open spec fn view(&self) -> PeSectionModel {
        PeSectionModel {
            name: self.name@,
            address: self.address,
            offset: self.offset,
            size: self.size,
            flags: self.flags,
        }
    }
}

/// A symbol that a PE file exports or imports, by its address relative to the image.
#[derive(Debug)]
pub struct PeSymbol {
    pub name: Option<String>,
    pub rva: u64,
}

/// A symbol of a PE file as a mathematical value.
pub struct PeSymbolModel {
    pub name: Option<Seq<char>>,
    pub rva: u64,
}

impl View for PeSymbol {
    type V = PeSymbolModel;

    open spec fn view(&self) -> PeSymbolModel {
        PeSymbolModel { name: chars_of(self.name), rva: self.rva }
    }
}

/// The section headers of a list, each as a mathematical value.
pub open spec fn elf_sections_model(list: Seq<ElfSection>) -> Seq<ElfSectionModel> {
    list.map_values(|s: ElfSection| s@)
}

/// The symbols of a list, each as a mathematical value.
pub open spec fn elf_symbols_model(list: Seq<ElfSymbol>) -> Seq<ElfSymbolModel> {
    list.map_values(|s: ElfSymbol| s@)
}

/// The section headers of a list, each as a mathematical value.
pub open spec fn pe_sections_model(list: Seq<PeSection>) -> Seq<PeSectionModel> {
    list.map_values(|s: PeSection| s@)
}

/// The symbols of a list, each as a mathematical value.
pub open spec fn pe_symbols_model(list: Seq<PeSymbol>) -> Seq<PeSymbolModel> {
    list.map_values(|s: PeSymbol| s@)
}

/// What `Object::parse` makes of a file: its format, or nothing where it fails.
pub uninterp spec fn format_of(data: Seq<u8>) -> Option<Format>;

/// The section headers that `Object::parse` finds in an ELF file, with their names.
pub uninterp spec fn elf_sections_of(data: Seq<u8>) -> Seq<ElfSectionModel>;

/// The symbols that `Object::parse` finds in an ELF file, with their names.
pub uninterp spec fn elf_symbols_of(data: Seq<u8>) -> Seq<ElfSymbolModel>;

/// The dynamic symbols that `Object::parse` finds in an ELF file, with their names.
pub uninterp spec fn elf_dynsyms_of(data: Seq<u8>) -> Seq<ElfSymbolModel>;

/// The section headers that `Object::parse` finds in a PE file.
pub uninterp spec fn pe_sections_of(data: Seq<u8>) -> Seq<PeSectionModel>;

/// The symbols that `Object::parse` finds exported by a PE file.
pub uninterp spec fn pe_exports_of(data: Seq<u8>) -> Seq<PeSymbolModel>;

/// The symbols that `Object::parse` finds imported by a PE file.
pub uninterp spec fn pe_imports_of(data: Seq<u8>) -> Seq<PeSymbolModel>;

/// The bytes begin as those of an ELF or of a PE file do.
pub open spec fn elf_or_pe(data: Seq<u8>) -> bool {
    ||| data.len() >= 4 && data[0] == 0x7f && data[1] == 0x45 && data[2] == 0x4c && data[3] == 0x46
    ||| data.len() >= 2 && data[0] == 0x4d && data[1] == 0x5a
}

/// `Object::parse` and the fields of the header: machine type and entry of an ELF file; machine
/// type, width, image base and entry of a PE file. With machine addresses of 64 bits, which hold
/// the image base, they depend on the bytes alone. A file of fewer than sixteen bytes fails; which
/// other bytes are well formed is not stated. Files of other formats are kept from the parser,
/// which can panic on them. On a PE file it adds up the bounds of sections, but only for messages
/// at debug level: the features of `log` that `Cargo.toml` names leave these out of every build,
/// so that the sum, which can overflow, is never formed.
#[verifier::external_body]
fn parse_format(data: &[u8]) -> (format: Result<Format, goblin::error::Error>)
    requires
        data@.len() < 16 || elf_or_pe(data@),
    ensures
        format is Ok <==> format_of(data@) is Some,
        format matches Ok(f) ==> format_of(data@) == Some(f),
        data@.len() < 16 ==> format is Err,
{
    Ok(match Object::parse(data)? {
        Object::Elf(elf) => Format::Elf {
            machine: elf.header.e_machine,
            entry: elf.header.e_entry,
        },
        Object::PE(pe) => Format::Pe {
            machine: pe.header.coff_header.machine,
            is_64: pe.is_64,
            image_base: pe.image_base as u64,
            entry: pe.entry as u64,
        },
        _ => Format::Other,
    })
}

/// The `section_headers` of the file that `Object::parse` gives, each with its name from
/// `shdr_strtab.get_at`. They depend on the bytes alone.
#[verifier::external_body]
fn parse_elf_sections(data: &[u8]) -> (list: Vec<ElfSection>)
    requires
        format_of(data@) matches Some(Format::Elf { .. }),
    ensures
        elf_sections_model(list@) == elf_sections_of(data@),
{
    match Object::parse(data) {
        Ok(Object::Elf(elf)) => elf.section_headers.iter().map(|sh| ElfSection {
            name: elf.shdr_strtab.get_at(sh.sh_name).map(|n| n.to_string()),
            kind: sh.sh_type,
            flags: sh.sh_flags,
            address: sh.sh_addr,
            offset: sh.sh_offset,
            size: sh.sh_size,
        }).collect(),
        _ => Vec::new(),
    }
}

/// The `syms` of the file that `Object::parse` gives, each with its name from `strtab.get_at`.
/// They depend on the bytes alone.
#[verifier::external_body]
fn parse_elf_symbols(data: &[u8]) -> (list: Vec<ElfSymbol>)
    requires
        format_of(data@) matches Some(Format::Elf { .. }),
    ensures
        elf_symbols_model(list@) == elf_symbols_of(data@),
{
    match Object::parse(data) {
        Ok(Object::Elf(elf)) => elf.syms.iter().map(|sym| ElfSymbol {
            name: elf.strtab.get_at(sym.st_name).map(|n| n.to_string()),
            value: sym.st_value,
            size: sym.st_size,
        }).collect(),
        _ => Vec::new(),
    }
}

/// The `dynsyms` of the file that `Object::parse` gives, each with its name from
/// `dynstrtab.get_at`. They depend on the bytes alone.
#[verifier::external_body]
fn parse_elf_dynsyms(data: &[u8]) -> (list: Vec<ElfSymbol>)
    requires
        format_of(data@) matches Some(Format::Elf { .. }),
    ensures
        elf_symbols_model(list@) == elf_dynsyms_of(data@),
{
    match Object::parse(data) {
        Ok(Object::Elf(elf)) => elf.dynsyms.iter().map(|sym| ElfSymbol {
            name: elf.dynstrtab.get_at(sym.st_name).map(|n| n.to_string()),
            value: sym.st_value,
            size: sym.st_size,
        }).collect(),
        _ => Vec::new(),
    }
}

/// The `sections` of the file that `Object::parse` gives. They depend on the bytes alone. As for
/// `parse_format`, no build holds the debug messages of the parser.
#[verifier::external_body]
fn parse_pe_sections(data: &[u8]) -> (list: Vec<PeSection>)
    requires
        format_of(data@) matches Some(Format::Pe { .. }),
    ensures
        pe_sections_model(list@) == pe_sections_of(data@),
{
    match Object::parse(data) {
        Ok(Object::PE(pe)) => pe.sections.iter().map(|sec| PeSection {
            name: sec.name.to_vec(),
            address: sec.virtual_address,
            offset: sec.pointer_to_raw_data,
            size: sec.size_of_raw_data,
            flags: sec.characteristics,
        }).collect(),
        _ => Vec::new(),
    }
}

/// The `exports` of the file that `Object::parse` gives: name, where there is one, and relative
/// address. They depend on the bytes alone. As for `parse_format`, no build holds the debug
/// messages of the parser.
#[verifier::external_body]
fn parse_pe_exports(data: &[u8]) -> (list: Vec<PeSymbol>)
    requires
        format_of(data@) matches Some(Format::Pe { .. }),
    ensures
        pe_symbols_model(list@) == pe_exports_of(data@),
{
    match Object::parse(data) {
        Ok(Object::PE(pe)) => pe.exports.iter().map(|exp| PeSymbol {
            name: exp.name.map(|n| n.to_string()),
            rva: exp.rva as u64,
        }).collect(),
        _ => Vec::new(),
    }
}

/// The `imports` of the file that `Object::parse` gives: name and relative address. They depend on
/// the bytes alone, and each has a name. As for `parse_format`, no build holds the debug messages
/// of the parser.
#[verifier::external_body]
fn parse_pe_imports(data: &[u8]) -> (list: Vec<PeSymbol>)
    requires
        format_of(data@) matches Some(Format::Pe { .. }),
    ensures
        pe_symbols_model(list@) == pe_imports_of(data@),
        forall|i: int| 0 <= i < list@.len() ==> (#[trigger] list@[i]).name is Some,
{
    match Object::parse(data) {
        Ok(Object::PE(pe)) => pe.imports.iter().map(|imp| PeSymbol {
            name: Some(imp.name.to_string()),
            rva: imp.rva as u64,
        }).collect(),
        _ => Vec::new(),
    }
}

/// `str::from_utf8` accepts exactly the bytes that are valid UTF-8, and gives the characters that
/// they encode.
#[verifier::external_body]
fn utf8_text(bytes: &[u8]) -> (text: Option<String>)
    ensures
        text is Some <==> valid_utf8(bytes@),
        text matches Some(t) ==> t@ == decode_utf8(bytes@),
{
    std::str::from_utf8(bytes).ok().map(|t| t.to_string())
}

/// The name, or none where there is none.
pub open spec fn name_or_empty(name: Option<Seq<char>>) -> Seq<char> {
    match name {
        Some(s) => s,
        None => Seq::empty(),
    }
}

fn text_or_empty(name: &Option<String>) -> (text: String)
    ensures
        text@ == name_or_empty(chars_of(*name)),
{
    match name {
        Some(s) => s.clone(),
        None => {
            let none = String::new();
            assert(none@ =~= Seq::empty());
            none
        },
    }
}

/// The architecture of an ELF machine type.
pub open spec fn elf_arch(machine: u16) -> Option<Arch> {
    if machine == 3 {
        Some(Arch::X86)
    } else if machine == 62 {
        Some(Arch::X86_64)
    } else {
        None
    }
}

/// PE files are taken for x86 and x86-64 only.
pub open spec fn pe_machine(machine: u16) -> bool {
    machine == 0x14c || machine == 0x8664
}

/// The section is in the file: program data, not empty, and no part of it behind the end.
pub open spec fn elf_section_kept(sh: ElfSectionModel, len: nat) -> bool {
    sh.kind == 1 && sh.size > 0 && sh.offset + sh.size <= len
}

/// A section of an ELF file.
pub open spec fn elf_section(sh: ElfSectionModel, data: Seq<u8>) -> SectionModel {
    SectionModel {
        name: name_or_empty(sh.name),
        virtual_address: sh.address,
        data: data.subrange(sh.offset as int, sh.offset + sh.size),
        executable: sh.flags & 0x4 != 0,
    }
}

/// The sections that are in the file, in order.
pub open spec fn elf_sections(list: Seq<ElfSectionModel>, data: Seq<u8>) -> Seq<SectionModel>
    decreases list.len(),
{
    if list.len() == 0 {
        Seq::empty()
    } else if elf_section_kept(list.last(), data.len()) {
        elf_sections(list.drop_last(), data).push(elf_section(list.last(), data))
    } else {
        elf_sections(list.drop_last(), data)
    }
}

/// A symbol of an ELF file.
pub open spec fn elf_symbol(sym: ElfSymbolModel) -> SymbolModel {
    SymbolModel { name: name_or_empty(sym.name), address: sym.value, size: sym.size }
}

/// The symbols with a name, in order; where `placed`, only those with an address.
pub open spec fn elf_symbols(list: Seq<ElfSymbolModel>, placed: bool) -> Seq<SymbolModel>
    decreases list.len(),
{
    if list.len() == 0 {
        Seq::empty()
    } else if name_or_empty(list.last().name).len() > 0 && (placed ==> list.last().value != 0) {
        elf_symbols(list.drop_last(), placed).push(elf_symbol(list.last()))
    } else {
        elf_symbols(list.drop_last(), placed)
    }
}

/// The text without the zero characters at its start.
pub open spec fn trim_start(s: Seq<char>) -> Seq<char>
    decreases s.len(),
{
    if s.len() > 0 && s[0] == '\0' {
        trim_start(s.skip(1))
    } else {
        s
    }
}

/// The text without the zero characters at its end.
pub open spec fn trim_end(s: Seq<char>) -> Seq<char>
    decreases s.len(),
{
    if s.len() > 0 && s.last() == '\0' {
        trim_end(s.drop_last())
    } else {
        s
    }
}

/// The name of a section of a PE file: empty where it is not UTF-8, without the zero characters
/// around it.
pub open spec fn pe_name(bytes: Seq<u8>) -> Seq<char> {
    if valid_utf8(bytes) {
        trim_end(trim_start(decode_utf8(bytes)))
    } else {
        Seq::empty()
    }
}

/// The section is in the file: not empty, and no part of it behind the end.
pub open spec fn pe_section_kept(sec: PeSectionModel, len: nat) -> bool {
    sec.size > 0 && sec.offset + sec.size <= len
}

/// A section of a PE file; addresses wrap around at 2^64.
pub open spec fn pe_section(sec: PeSectionModel, image_base: u64, data: Seq<u8>) -> SectionModel {
    SectionModel {
        name: pe_name(sec.name),
        virtual_address: image_base.wrapping_add(sec.address as u64),
        data: data.subrange(sec.offset as int, sec.offset + sec.size),
        executable: sec.flags & 0x2000_0000 != 0,
    }
}

/// The sections that are in the file, in order.
pub open spec fn pe_sections(
    list: Seq<PeSectionModel>,
    image_base: u64,
    data: Seq<u8>,
) -> Seq<SectionModel>
    decreases list.len(),
{
    if list.len() == 0 {
        Seq::empty()
    } else if pe_section_kept(list.last(), data.len()) {
        pe_sections(list.drop_last(), image_base, data).push(
            pe_section(list.last(), image_base, data),
        )
    } else {
        pe_sections(list.drop_last(), image_base, data)
    }
}

/// The symbols with a name, in order, at their addresses in the image.
pub open spec fn pe_symbols(list: Seq<PeSymbolModel>, image_base: u64) -> Seq<SymbolModel>
    decreases list.len(),
{
    if list.len() == 0 {
        Seq::empty()
    } else {
        match list.last().name {
            Some(name) => pe_symbols(list.drop_last(), image_base).push(
                SymbolModel {
                    name,
                    address: image_base.wrapping_add(list.last().rva),
                    size: 0,
                },
            ),
            None => pe_symbols(list.drop_last(), image_base),
        }
    }
}

/// Where every symbol has a name, none is left out.
pub proof fn lemma_named_symbols_kept(list: Seq<PeSymbolModel>, image_base: u64)
    requires
        forall|i: int| 0 <= i < list.len() ==> (#[trigger] list[i]).name is Some,
    ensures
        pe_symbols(list, image_base) == list.map_values(
            |s: PeSymbolModel|
                SymbolModel {
                    name: s.name->0,
                    address: image_base.wrapping_add(s.rva),
                    size: 0,
                },
        ),
    decreases list.len(),
{
    let place = |s: PeSymbolModel|
        SymbolModel { name: s.name->0, address: image_base.wrapping_add(s.rva), size: 0 };
    if list.len() > 0 {
        let rest = list.drop_last();
        assert forall|i: int| 0 <= i < rest.len() implies (#[trigger] rest[i]).name is Some by {
            assert(list[i].name is Some);
        }
        lemma_named_symbols_kept(rest, image_base);
        assert(list[list.len() - 1].name is Some);
        assert(list.map_values(place) =~= rest.map_values(place).push(place(list.last())));
    } else {
        assert(pe_symbols(list, image_base) =~= list.map_values(place));
    }
}

/// The binary that an ELF file holds.
pub open spec fn elf_binary(
    arch: Arch,
    entry: u64,
    sections: Seq<ElfSectionModel>,
    symbols: Seq<ElfSymbolModel>,
    dynsyms: Seq<ElfSymbolModel>,
    data: Seq<u8>,
) -> BinaryModel {
    BinaryModel {
        arch,
        entry_point: entry,
        sections: elf_sections(sections, data),
        symbols: elf_symbols(symbols, true),
        imports: elf_symbols(dynsyms, false),
    }
}

/// The binary that a PE file holds.
pub open spec fn pe_binary(
    is_64: bool,
    image_base: u64,
    entry: u64,
    sections: Seq<PeSectionModel>,
    exports: Seq<PeSymbolModel>,
    imports: Seq<PeSymbolModel>,
    data: Seq<u8>,
) -> BinaryModel {
    BinaryModel {
        arch: if is_64 {
            Arch::X86_64
        } else {
            Arch::X86
        },
        entry_point: image_base.wrapping_add(entry),
        sections: pe_sections(sections, image_base, data),
        symbols: pe_symbols(exports, image_base),
        imports: pe_symbols(imports, image_base),
    }
}

/// What the parser makes of a file: nothing where it fails. A file of sixteen bytes or more that
/// does not begin as an ELF or PE file does is of another format.
pub open spec fn recognised(data: Seq<u8>) -> Option<Format> {
    if data.len() >= 16 && !elf_or_pe(data) {
        Some(Format::Other)
    } else {
        format_of(data)
    }
}

/// The binary that a file holds, where it can be loaded.
pub open spec fn loaded(data: Seq<u8>) -> Option<BinaryModel> {
    match recognised(data) {
        Some(Format::Elf { machine, entry }) => match elf_arch(machine) {
            Some(arch) => Some(
                elf_binary(
                    arch,
                    entry,
                    elf_sections_of(data),
                    elf_symbols_of(data),
                    elf_dynsyms_of(data),
                    data,
                ),
            ),
            None => None,
        },
        Some(Format::Pe { machine, is_64, image_base, entry }) => if pe_machine(machine) {
            Some(
                pe_binary(
                    is_64,
                    image_base,
                    entry,
                    pe_sections_of(data),
                    pe_exports_of(data),
                    pe_imports_of(data),
                    data,
                ),
            )
        } else {
            None
        },
        _ => None,
    }
}

fn copy_range(data: &[u8], from: usize, len: usize) -> (bytes: Vec<u8>)
    requires
        from + len <= data@.len(),
    ensures
        bytes@ == data@.subrange(from as int, from + len),
{
    let mut bytes: Vec<u8> = Vec::new();
    let size = data.len();
    assert(from + len <= size);
    let src = slice_subrange(data, from, from + len);
    bytes.extend_from_slice(src);
    assert(bytes@ =~= src@);
    bytes
}

fn take_elf_sections(list: &Vec<ElfSection>, data: &[u8]) -> (sections: Vec<Section>)
    ensures
        sections_model(sections@) == elf_sections(elf_sections_model(list@), data@),
{
    let ghost models = elf_sections_model(list@);
    let len = data.len();
    let mut sections: Vec<Section> = Vec::new();
    let n = list.len();
    let mut i: usize = 0;
    assert(sections_model(sections@) =~= elf_sections(models.take(0), data@));
    while i < n
        invariant
            i <= n,
            n == list@.len(),
            len == data@.len(),
            models == elf_sections_model(list@),
            sections_model(sections@) == elf_sections(models.take(i as int), data@),
        decreases n - i,
    {
        let sh = &list[i];
        let ghost before = sections@;
        assert(models.take(i + 1).drop_last() =~= models.take(i as int));
        assert(models.take(i + 1).last() == sh@);
        if sh.kind == 1 && sh.size > 0 && sh.offset <= len as u64 && sh.size <= len as u64
            - sh.offset {
            let section = Section {
                name: text_or_empty(&sh.name),
                virtual_address: sh.address,
                data: copy_range(data, sh.offset as usize, sh.size as usize),
                executable: sh.flags & 0x4 != 0,
            };
            assert(section@ == elf_section(sh@, data@));
            sections.push(section);
            assert(sections_model(sections@) =~= sections_model(before).push(section@));
        }
        i = i + 1;
    }
    assert(models.take(n as int) =~= models);
    sections
}

fn take_elf_symbols(list: &Vec<ElfSymbol>, placed: bool) -> (symbols: Vec<Symbol>)
    ensures
        symbols_model(symbols@) == elf_symbols(elf_symbols_model(list@), placed),
{
    let ghost models = elf_symbols_model(list@);
    let mut symbols: Vec<Symbol> = Vec::new();
    let n = list.len();
    let mut i: usize = 0;
    assert(symbols_model(symbols@) =~= elf_symbols(models.take(0), placed));
    while i < n
        invariant
            i <= n,
            n == list@.len(),
            models == elf_symbols_model(list@),
            symbols_model(symbols@) == elf_symbols(models.take(i as int), placed),
        decreases n - i,
    {
        let sym = &list[i];
        let ghost before = symbols@;
        assert(models.take(i + 1).drop_last() =~= models.take(i as int));
        assert(models.take(i + 1).last() == sym@);
        let name = text_or_empty(&sym.name);
        if !name.as_str().is_empty() && (!placed || sym.value != 0) {
            let symbol = Symbol { name, address: sym.value, size: sym.size };
            symbols.push(symbol);
            assert(symbols_model(symbols@) =~= symbols_model(before).push(symbol@));
        }
        i = i + 1;
    }
    assert(models.take(n as int) =~= models);
    symbols
}

/// The text without the zero characters around it.
fn trim_zeros(text: &String) -> (trimmed: String)
    ensures
        trimmed@ == trim_end(trim_start(text@)),
{
    let s = text.as_str();
    let mut from: usize = 0;
    let n = s.unicode_len();
    let ghost all = text@;
    assert(all.skip(0) =~= all);
    while from < n && s.get_char(from) == '\0'
        invariant
            from <= n,
            n == all.len(),
            all == s@,
            trim_start(all) == trim_start(all.skip(from as int)),
        decreases n - from,
    {
        assert(all.skip(from as int)[0] == all[from as int]);
        assert(all.skip(from as int).skip(1) =~= all.skip(from + 1));
        from = from + 1;
    }
    let ghost rest = trim_start(all);
    assert(rest =~= all.skip(from as int)) by {
        if from < n {
            assert(all.skip(from as int)[0] == all[from as int]);
        }
    }
    let mut to = n;
    assert(all.subrange(from as int, to as int) =~= rest);
    while to > from && s.get_char(to - 1) == '\0'
        invariant
            from <= to <= n,
            n == all.len(),
            all == s@,
            trim_end(rest) == trim_end(all.subrange(from as int, to as int)),
        decreases to,
    {
        let ghost part = all.subrange(from as int, to as int);
        assert(part.last() == all[to - 1]);
        assert(part.drop_last() =~= all.subrange(from as int, to - 1));
        to = to - 1;
    }
    let ghost kept = all.subrange(from as int, to as int);
    assert(trim_end(kept) == kept) by {
        if to > from {
            assert(kept.last() == all[to - 1]);
        }
    }
    let mut trimmed = String::new();
    let mut i = from;
    while i < to
        invariant
            from <= i <= to,
            to <= n,
            n == all.len(),
            all == s@,
            trimmed@ == all.subrange(from as int, i as int),
        decreases to - i,
    {
        trimmed.push(s.get_char(i));
        assert(trimmed@ =~= all.subrange(from as int, i + 1));
        i = i + 1;
    }
    trimmed
}

fn take_pe_name(bytes: &Vec<u8>) -> (name: String)
    ensures
        name@ == pe_name(bytes@),
{
    match utf8_text(bytes.as_slice()) {
        Some(text) => trim_zeros(&text),
        None => {
            let none = String::new();
            assert(none@ =~= Seq::empty());
            none
        },
    }
}

fn take_pe_sections(list: &Vec<PeSection>, image_base: u64, data: &[u8]) -> (sections: Vec<
    Section,
>)
    ensures
        sections_model(sections@) == pe_sections(pe_sections_model(list@), image_base, data@),
{
    let ghost models = pe_sections_model(list@);
    let len = data.len();
    let mut sections: Vec<Section> = Vec::new();
    let n = list.len();
    let mut i: usize = 0;
    assert(sections_model(sections@) =~= pe_sections(models.take(0), image_base, data@));
    while i < n
        invariant
            i <= n,
            n == list@.len(),
            len == data@.len(),
            models == pe_sections_model(list@),
            sections_model(sections@) == pe_sections(models.take(i as int), image_base, data@),
        decreases n - i,
    {
        let sec = &list[i];
        let ghost before = sections@;
        assert(models.take(i + 1).drop_last() =~= models.take(i as int));
        assert(models.take(i + 1).last() == sec@);
        if sec.size > 0 && sec.offset as u64 + sec.size as u64 <= len as u64 {
            let section = Section {
                name: take_pe_name(&sec.name),
                virtual_address: image_base.wrapping_add(sec.address as u64),
                data: copy_range(data, sec.offset as usize, sec.size as usize),
                executable: sec.flags & 0x2000_0000 != 0,
            };
            assert(section@ == pe_section(sec@, image_base, data@));
            sections.push(section);
            assert(sections_model(sections@) =~= sections_model(before).push(section@));
        }
        i = i + 1;
    }
    assert(models.take(n as int) =~= models);
    sections
}

fn take_pe_symbols(list: &Vec<PeSymbol>, image_base: u64) -> (symbols: Vec<Symbol>)
    ensures
        symbols_model(symbols@) == pe_symbols(pe_symbols_model(list@), image_base),
{
    let ghost models = pe_symbols_model(list@);
    let mut symbols: Vec<Symbol> = Vec::new();
    let n = list.len();
    let mut i: usize = 0;
    assert(symbols_model(symbols@) =~= pe_symbols(models.take(0), image_base));
    while i < n
        invariant
            i <= n,
            n == list@.len(),
            models == pe_symbols_model(list@),
            symbols_model(symbols@) == pe_symbols(models.take(i as int), image_base),
        decreases n - i,
    {
        let sym = &list[i];
        let ghost before = symbols@;
        assert(models.take(i + 1).drop_last() =~= models.take(i as int));
        assert(models.take(i + 1).last() == sym@);
        if let Some(name) = &sym.name {
            let symbol = Symbol {
                name: name.clone(),
                address: image_base.wrapping_add(sym.rva),
                size: 0,
            };
            symbols.push(symbol);
            assert(symbols_model(symbols@) =~= symbols_model(before).push(symbol@));
        }
        i = i + 1;
    }
    assert(models.take(n as int) =~= models);
    symbols
}

/// The binary that an ELF file holds, from its header and tables.
pub fn load_elf(
    machine: u16,
    entry: u64,
    sections: &Vec<ElfSection>,
    symbols: &Vec<ElfSymbol>,
    dynsyms: &Vec<ElfSymbol>,
    data: &[u8],
) -> (binary: Result<LoadedBinary, LoadError>)
    ensures
        match binary {
            Ok(b) => elf_arch(machine) is Some && b@ == elf_binary(
                elf_arch(machine)->0,
                entry,
                elf_sections_model(sections@),
                elf_symbols_model(symbols@),
                elf_symbols_model(dynsyms@),
                data@,
            ),
            Err(e) => elf_arch(machine) is None && e == LoadError::UnsupportedMachine(machine),
        },
{
    let arch = match machine {
        3 => Arch::X86,
        62 => Arch::X86_64,
        _ => {
            return Err(LoadError::UnsupportedMachine(machine));
        },
    };
    Ok(
        LoadedBinary {
            arch,
            entry_point: entry,
            sections: take_elf_sections(sections, data),
            symbols: take_elf_symbols(symbols, true),
            imports: take_elf_symbols(dynsyms, false),
        },
    )
}

/// The binary that a PE file holds, from its header and tables.
pub fn load_pe(
    machine: u16,
    is_64: bool,
    image_base: u64,
    entry: u64,
    sections: &Vec<PeSection>,
    exports: &Vec<PeSymbol>,
    imports: &Vec<PeSymbol>,
    data: &[u8],
) -> (binary: Result<LoadedBinary, LoadError>)
    ensures
        match binary {
            Ok(b) => pe_machine(machine) && b@ == pe_binary(
                is_64,
                image_base,
                entry,
                pe_sections_model(sections@),
                pe_symbols_model(exports@),
                pe_symbols_model(imports@),
                data@,
            ),
            Err(e) => !pe_machine(machine) && e == LoadError::UnsupportedMachine(machine),
        },
{
    if machine != 0x14c && machine != 0x8664 {
        return Err(LoadError::UnsupportedMachine(machine));
    }
    Ok(
        LoadedBinary {
            arch: if is_64 {
                Arch::X86_64
            } else {
                Arch::X86
            },
            entry_point: image_base.wrapping_add(entry),
            sections: take_pe_sections(sections, image_base, data),
            symbols: take_pe_symbols(exports, image_base),
            imports: take_pe_symbols(imports, image_base),
        },
    )
}

/// Does the file begin as an ELF or PE file does?
fn begins_as_elf_or_pe(data: &[u8]) -> (yes: bool)
    ensures
        yes == elf_or_pe(data@),
{
    let n = data.len();
    (n >= 4 && data[0] == 0x7f && data[1] == 0x45 && data[2] == 0x4c && data[3] == 0x46) || (n >= 2
        && data[0] == 0x4d && data[1] == 0x5a)
}

/// Loads an ELF or PE file.
pub fn load(data: &[u8]) -> (binary: Result<LoadedBinary, LoadError>)
    ensures
        binary is Ok <==> loaded(data@) is Some,
        data@.len() < 16 ==> binary matches Err(LoadError::Parse(_)),
        data@.len() >= 16 && !elf_or_pe(data@) ==> binary matches Err(
            LoadError::UnsupportedFormat,
        ),
        match binary {
            Ok(b) => loaded(data@) == Some(b@),
            Err(LoadError::Parse(_)) => recognised(data@) is None,
            Err(LoadError::UnsupportedFormat) => recognised(data@) == Some(Format::Other),
            Err(LoadError::UnsupportedMachine(m)) => match recognised(data@) {
                Some(Format::Elf { machine, entry }) => machine == m && elf_arch(m) is None,
                Some(Format::Pe { machine, is_64, image_base, entry }) => machine == m
                    && !pe_machine(m),
                _ => false,
            },
        },
{
    if data.len() >= 16 && !begins_as_elf_or_pe(data) {
        return Err(LoadError::UnsupportedFormat);
    }
    let format = match parse_format(data) {
        Ok(format) => format,
        Err(e) => {
            return Err(LoadError::Parse(e));
        },
    };
    match format {
        Format::Elf { machine, entry } => load_elf(
            machine,
            entry,
            &parse_elf_sections(data),
            &parse_elf_symbols(data),
            &parse_elf_dynsyms(data),
            data,
        ),
        Format::Pe { machine, is_64, image_base, entry } => load_pe(
            machine,
            is_64,
            image_base,
            entry,
            &parse_pe_sections(data),
            &parse_pe_exports(data),
            &parse_pe_imports(data),
            data,
        ),
        Format::Other => Err(LoadError::UnsupportedFormat),
    }
}

} // verus!

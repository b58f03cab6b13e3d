use simple_decompiler::binary::load::{
    load_elf, load_pe, ElfSection, ElfSymbol, LoadError, PeSection, PeSymbol,
};
use simple_decompiler::binary::{load, Arch, LoadedBinary, Section, Symbol};
use simple_decompiler::disasm::Disassembler;
use simple_decompiler::pipeline::{
    decompile, list_functions, select, symbol_names, DecompileError,
};

fn section(name: &str, addr: u64, data: &[u8], executable: bool) -> Section {
    Section {
        name: name.to_string(),
        virtual_address: addr,
        data: data.to_vec(),
        executable,
    }
}

fn symbol(name: &str, addr: u64) -> Symbol {
    Symbol { name: name.to_string(), address: addr, size: 4 }
}

fn binary(sections: Vec<Section>) -> LoadedBinary {
    LoadedBinary {
        arch: Arch::X86_64,
        entry_point: 0x1000,
        sections,
        symbols: vec![symbol("a", 0x10), symbol("b", 0x20), symbol("c", 0x10)],
        imports: vec![],
    }
}

#[test]
fn bytes_at_an_address() {
    let b = binary(vec![section("x", 0x1000, &[1, 2, 3, 4], true)]);
    assert_eq!(b.bytes_at(0x1000, 4), Some(&[1u8, 2, 3, 4][..]));
    assert_eq!(b.bytes_at(0x1001, 2), Some(&[2u8, 3][..]));
    assert_eq!(b.bytes_at(0x1004, 0), Some(&[][..]));
    assert_eq!(b.bytes_at(0x1001, 4), None);
    assert_eq!(b.bytes_at(0xfff, 1), None);
    assert_eq!(b.bytes_at(0x1005, 0), None);
    assert_eq!(b.bytes_at(u64::MAX, 2), None);
}

#[test]
fn bytes_from_an_address() {
    let b = binary(vec![section("x", 0x1000, &[1, 2, 3, 4], true)]);
    assert_eq!(b.bytes_from(0x1002), Some(&[3u8, 4][..]));
    assert_eq!(b.bytes_from(0x1004), None);
    assert_eq!(b.bytes_from(0xfff), None);
}

#[test]
fn the_first_section_that_holds_the_range_counts() {
    let b = binary(vec![
        section("x", 0x1000, &[1, 2], true),
        section("y", 0x1000, &[9, 8, 7], false),
    ]);
    assert_eq!(b.bytes_at(0x1000, 2), Some(&[1u8, 2][..]));
    assert_eq!(b.bytes_at(0x1000, 3), Some(&[9u8, 8, 7][..]));
    assert_eq!(b.bytes_from(0x1001), Some(&[2u8][..]));
    assert_eq!(b.bytes_from(0x1002), Some(&[7u8][..]));
}

#[test]
fn section_at_the_end_of_the_address_space() {
    let b = binary(vec![section("x", u64::MAX - 1, &[1, 2, 3], true)]);
    assert_eq!(b.bytes_at(u64::MAX, 1), Some(&[2u8][..]));
    assert_eq!(b.bytes_from(u64::MAX), Some(&[2u8, 3][..]));
}

#[test]
fn executable_sections_and_symbol_map() {
    let b = binary(vec![
        section("x", 0, &[1], true),
        section("y", 1, &[1], false),
        section("z", 2, &[1], true),
    ]);
    let names: Vec<&str> = b.exec_sections().iter().map(|s| s.name.as_str()).collect();
    assert_eq!(names, vec!["x", "z"]);
    let map = b.symbol_map();
    assert_eq!(map.len(), 2);
    assert_eq!(map[&0x10].name, "c");
    assert_eq!(map[&0x20].name, "b");
}

fn elf_section(name: Option<&str>, kind: u32, offset: u64, size: u64) -> ElfSection {
    ElfSection {
        name: name.map(|n| n.to_string()),
        kind,
        flags: 6,
        address: 0x400000,
        offset,
        size,
    }
}

#[test]
fn elf_tables() {
    let data = [0u8, 1, 2, 3, 4, 5, 6, 7];
    let mut data_section = elf_section(Some(".data"), 1, 6, 2);
    data_section.flags = 3;
    let sections = vec![
        elf_section(Some(".text"), 1, 2, 4),
        elf_section(Some(".bss"), 8, 2, 4),
        elf_section(Some(".empty"), 1, 2, 0),
        elf_section(Some(".cut"), 1, 6, 3),
        elf_section(Some(".far"), 1, u64::MAX, 2),
        elf_section(None, 1, 0, 8),
        data_section,
    ];
    let sym = |name: Option<&str>, value: u64| ElfSymbol {
        name: name.map(|n| n.to_string()),
        value,
        size: 9,
    };
    let symbols = vec![sym(Some("main"), 0x400000), sym(Some("zero"), 0), sym(None, 5)];
    let dynsyms = vec![sym(Some("puts"), 0), sym(Some(""), 7)];
    let b = load_elf(62, 0x400001, &sections, &symbols, &dynsyms, &data).unwrap();
    assert_eq!(b.arch, Arch::X86_64);
    assert_eq!(b.entry_point, 0x400001);
    let got: Vec<(&str, &[u8], bool)> =
        b.sections.iter().map(|s| (s.name.as_str(), &s.data[..], s.executable)).collect();
    assert_eq!(
        got,
        vec![
            (".text", &[2u8, 3, 4, 5][..], true),
            ("", &data[..], true),
            (".data", &[6u8, 7][..], false),
        ]
    );
    assert_eq!(b.symbols.len(), 1);
    assert_eq!((b.symbols[0].name.as_str(), b.symbols[0].size), ("main", 9));
    assert_eq!(b.imports.len(), 1);
    assert_eq!((b.imports[0].name.as_str(), b.imports[0].address), ("puts", 0));
    let b = load_elf(3, 0, &vec![], &vec![], &vec![], &data).unwrap();
    assert_eq!(b.arch, Arch::X86);
    assert!(matches!(
        load_elf(40, 0, &vec![], &vec![], &vec![], &data),
        Err(LoadError::UnsupportedMachine(40))
    ));
}

#[test]
fn pe_tables() {
    let data = [0u8, 1, 2, 3];
    let sec = |name: &[u8], size: u32, flags: u32| PeSection {
        name: name.to_vec(),
        address: 0x1000,
        offset: 1,
        size,
        flags,
    };
    let sections = vec![
        sec(b".text\0\0\0", 3, 0x6000_0020),
        sec(b".data\0\0\0", 2, 0xc000_0040),
        sec(b"\0a\0b\0\0\0\0", 1, 0),
        sec(&[0xff, 0xfe, 0, 0, 0, 0, 0, 0], 1, 0),
        sec(b".none\0\0\0", 0, 0),
        sec(b".cut\0\0\0\0", 4, 0),
    ];
    let sym = |name: Option<&str>, rva: u64| PeSymbol { name: name.map(|n| n.to_string()), rva };
    let exports = vec![sym(Some("run"), 0x10), sym(None, 0x20), sym(Some(""), 0x30)];
    let imports = vec![sym(Some("puts"), 0x40)];
    let b = load_pe(0x8664, true, 0x140000000, 0x1234, &sections, &exports, &imports, &data)
        .unwrap();
    assert_eq!(b.arch, Arch::X86_64);
    assert_eq!(b.entry_point, 0x140001234);
    let got: Vec<(&str, u64, &[u8], bool)> = b
        .sections
        .iter()
        .map(|s| (s.name.as_str(), s.virtual_address, &s.data[..], s.executable))
        .collect();
    assert_eq!(
        got,
        vec![
            (".text", 0x140001000, &[1u8, 2, 3][..], true),
            (".data", 0x140001000, &[1u8, 2][..], false),
            ("a\0b", 0x140001000, &[1u8][..], false),
            ("", 0x140001000, &[1u8][..], false),
        ]
    );
    let got: Vec<(&str, u64, u64)> =
        b.symbols.iter().map(|s| (s.name.as_str(), s.address, s.size)).collect();
    assert_eq!(got, vec![("run", 0x140000010, 0), ("", 0x140000030, 0)]);
    let got: Vec<(&str, u64)> =
        b.imports.iter().map(|s| (s.name.as_str(), s.address)).collect();
    assert_eq!(got, vec![("puts", 0x140000040)]);
    let b = load_pe(0x14c, false, u64::MAX, 2, &vec![], &vec![], &vec![], &data).unwrap();
    assert_eq!(b.arch, Arch::X86);
    assert_eq!(b.entry_point, 1);
    assert!(matches!(
        load_pe(0xaa64, true, 0, 0, &vec![], &vec![], &vec![], &data),
        Err(LoadError::UnsupportedMachine(0xaa64))
    ));
}

fn put(out: &mut Vec<u8>, at: usize, bytes: &[u8]) {
    if out.len() < at + bytes.len() {
        out.resize(at + bytes.len(), 0);
    }
    out[at..at + bytes.len()].copy_from_slice(bytes);
}

fn p16(out: &mut Vec<u8>, at: usize, v: u16) {
    put(out, at, &v.to_le_bytes());
}

fn p32(out: &mut Vec<u8>, at: usize, v: u32) {
    put(out, at, &v.to_le_bytes());
}

fn p64(out: &mut Vec<u8>, at: usize, v: u64) {
    put(out, at, &v.to_le_bytes());
}

/// The code of the ELF file: `add` at 0x400200, `main` at 0x400205, and a function called.
const CODE: [u8; 13] = [
    0x48, 0x8d, 0x04, 0x37, 0xc3, // add: lea rax, [rdi+rsi]; ret
    0xe8, 0x02, 0x00, 0x00, 0x00, // main: call 0x40020c
    0x90, 0xc3, // nop; ret
    0xc3, // ret
];

/// An ELF file with code, data, symbols and a dynamic symbol.
fn elf_file(machine: u16) -> Vec<u8> {
    let mut f: Vec<u8> = vec![0; 64];
    put(&mut f, 0, &[0x7f, b'E', b'L', b'F', 2, 1, 1]);
    p16(&mut f, 16, 2);
    p16(&mut f, 18, machine);
    p32(&mut f, 20, 1);
    p64(&mut f, 24, 0x400205);
    p64(&mut f, 32, 64);
    p64(&mut f, 40, 0x500);
    p16(&mut f, 52, 64);
    p16(&mut f, 54, 56);
    p16(&mut f, 56, 2);
    p16(&mut f, 58, 64);
    p16(&mut f, 60, 6);
    p16(&mut f, 62, 5);
    // program headers: all of the file, and the dynamic section
    p32(&mut f, 64, 1);
    p32(&mut f, 68, 5);
    p64(&mut f, 72, 0);
    p64(&mut f, 80, 0x400000);
    p64(&mut f, 96, 0x700);
    p64(&mut f, 104, 0x700);
    p32(&mut f, 120, 2);
    p64(&mut f, 128, 0x300);
    p64(&mut f, 136, 0x400300);
    p64(&mut f, 152, 0x50);
    p64(&mut f, 160, 0x50);
    put(&mut f, 0x200, &CODE);
    put(&mut f, 0x240, &[1, 2, 3, 4]);
    // dynamic section: strings, their size, symbols, hash table
    let dynamic = [(5u64, 0x400380u64), (10, 6), (6, 0x4003a0), (4, 0x4003e0), (0, 0)];
    for (i, (tag, val)) in dynamic.iter().enumerate() {
        p64(&mut f, 0x300 + 16 * i, *tag);
        p64(&mut f, 0x308 + 16 * i, *val);
    }
    put(&mut f, 0x380, b"\0puts\0");
    p32(&mut f, 0x3a0 + 24, 1);
    p64(&mut f, 0x3a0 + 24 + 8, 0x400500);
    p64(&mut f, 0x3a0 + 24 + 16, 0);
    p32(&mut f, 0x3e0, 1);
    p32(&mut f, 0x3e4, 2);
    // symbols
    put(&mut f, 0x400, &[0; 96]);
    for (i, (name, value, size)) in [(1u32, 0x400205u64, 7u64), (6, 0x400200, 5), (10, 0, 0)]
        .iter()
        .enumerate()
    {
        let at = 0x400 + 24 * (i + 1);
        p32(&mut f, at, *name);
        p64(&mut f, at + 8, *value);
        p64(&mut f, at + 16, *size);
    }
    put(&mut f, 0x480, b"\0main\0add\0file\0");
    put(&mut f, 0x4a0, b"\0.text\0.data\0.symtab\0.strtab\0.shstrtab\0");
    // section headers: none, text, data, symbols, strings, section names
    let headers = [
        (0u32, 0u32, 0u64, 0u64, 0u64, 0u64, 0u32, 0u64),
        (1, 1, 6, 0x400200, 0x200, 13, 0, 0),
        (7, 1, 3, 0x400240, 0x240, 4, 0, 0),
        (13, 2, 0, 0, 0x400, 96, 4, 24),
        (21, 3, 0, 0, 0x480, 15, 0, 0),
        (29, 3, 0, 0, 0x4a0, 39, 0, 0),
    ];
    for (i, (name, kind, flags, addr, off, size, link, ent)) in headers.iter().enumerate() {
        let at = 0x500 + 64 * i;
        p32(&mut f, at, *name);
        p32(&mut f, at + 4, *kind);
        p64(&mut f, at + 8, *flags);
        p64(&mut f, at + 16, *addr);
        p64(&mut f, at + 24, *off);
        p64(&mut f, at + 32, *size);
        p32(&mut f, at + 40, *link);
        p64(&mut f, at + 48, 1);
        p64(&mut f, at + 56, *ent);
    }
    f.resize(0x700, 0);
    f
}

#[test]
fn load_an_elf_file() {
    let b = load(&elf_file(62)).unwrap();
    assert_eq!(b.arch, Arch::X86_64);
    assert_eq!(b.entry_point, 0x400205);
    let got: Vec<(&str, u64, &[u8], bool)> = b
        .sections
        .iter()
        .map(|s| (s.name.as_str(), s.virtual_address, &s.data[..], s.executable))
        .collect();
    assert_eq!(
        got,
        vec![
            (".text", 0x400200, &CODE[..], true),
            (".data", 0x400240, &[1u8, 2, 3, 4][..], false),
        ]
    );
    let got: Vec<(&str, u64, u64)> =
        b.symbols.iter().map(|s| (s.name.as_str(), s.address, s.size)).collect();
    assert_eq!(got, vec![("main", 0x400205, 7), ("add", 0x400200, 5)]);
    let got: Vec<(&str, u64)> =
        b.imports.iter().map(|s| (s.name.as_str(), s.address)).collect();
    assert_eq!(got, vec![("puts", 0x400500)]);
}

#[test]
fn files_that_cannot_be_loaded() {
    assert!(matches!(load(&[]), Err(LoadError::Parse(_))));
    assert!(matches!(load(&[0x7f, b'E', b'L', b'F']), Err(LoadError::Parse(_))));
    assert!(matches!(load(&[0u8; 64]), Err(LoadError::UnsupportedFormat)));
    // An object file without headers, and an archive
    let mut coff = vec![0x64u8, 0x86, 0, 0, 0, 0, 0, 0, 0x14];
    coff.resize(24, 0);
    assert!(matches!(load(&coff), Err(LoadError::UnsupportedFormat)));
    assert!(matches!(load(b"!<arch>\n//              "), Err(LoadError::UnsupportedFormat)));
    let mut arm = pe_file();
    p16(&mut arm, 0x84, 0xaa64);
    assert!(matches!(load(&arm), Err(LoadError::UnsupportedMachine(0xaa64))));
    assert!(matches!(load(&elf_file(40)), Err(LoadError::UnsupportedMachine(40))));
    let mut cut = elf_file(62);
    cut.truncate(0x300);
    assert!(matches!(load(&cut), Err(LoadError::Parse(_))));
}

/// A PE file of 64 bits with code, an exported function and an imported one.
fn pe_file() -> Vec<u8> {
    let mut f: Vec<u8> = vec![0; 0x800];
    put(&mut f, 0, b"MZ");
    p32(&mut f, 0x3c, 0x80);
    put(&mut f, 0x80, b"PE\0\0");
    p16(&mut f, 0x84, 0x8664);
    p16(&mut f, 0x86, 2);
    p16(&mut f, 0x94, 240);
    p16(&mut f, 0x96, 0x22);
    let o = 0x98;
    p16(&mut f, o, 0x20b);
    p32(&mut f, o + 16, 0x1000);
    p32(&mut f, o + 20, 0x1000);
    p64(&mut f, o + 24, 0x140000000);
    p32(&mut f, o + 32, 0x1000);
    p32(&mut f, o + 36, 0x200);
    p32(&mut f, o + 56, 0x3000);
    p32(&mut f, o + 60, 0x400);
    p16(&mut f, o + 68, 3);
    p32(&mut f, o + 108, 16);
    // export and import directories
    p32(&mut f, o + 112, 0x2000);
    p32(&mut f, o + 116, 0x90);
    p32(&mut f, o + 120, 0x2100);
    p32(&mut f, o + 124, 0x28);
    let s = o + 240;
    put(&mut f, s, b".text");
    p32(&mut f, s + 8, 0x200);
    p32(&mut f, s + 12, 0x1000);
    p32(&mut f, s + 16, 0x200);
    p32(&mut f, s + 20, 0x400);
    p32(&mut f, s + 36, 0x6000_0020);
    let s = s + 40;
    put(&mut f, s, b".rdata");
    p32(&mut f, s + 8, 0x200);
    p32(&mut f, s + 12, 0x2000);
    p32(&mut f, s + 16, 0x200);
    p32(&mut f, s + 20, 0x600);
    p32(&mut f, s + 36, 0x4000_0040);
    f[0x400] = 0xc3;
    // exports
    let e = 0x600;
    p32(&mut f, e + 12, 0x2080);
    p32(&mut f, e + 16, 1);
    p32(&mut f, e + 20, 1);
    p32(&mut f, e + 24, 1);
    p32(&mut f, e + 28, 0x2040);
    p32(&mut f, e + 32, 0x2050);
    p32(&mut f, e + 36, 0x2060);
    p32(&mut f, e + 0x40, 0x1000);
    p32(&mut f, e + 0x50, 0x2070);
    put(&mut f, e + 0x70, b"run\0");
    put(&mut f, e + 0x80, b"a.dll\0");
    // imports
    let i = 0x700;
    p32(&mut f, i, 0x2140);
    p32(&mut f, i + 12, 0x21a0);
    p32(&mut f, i + 16, 0x2160);
    p64(&mut f, i + 0x40, 0x2180);
    p64(&mut f, i + 0x60, 0x2180);
    put(&mut f, i + 0x82, b"puts\0");
    put(&mut f, i + 0xa0, b"c.dll\0");
    f
}

#[test]
fn load_a_pe_file() {
    let b = load(&pe_file()).unwrap();
    assert_eq!(b.arch, Arch::X86_64);
    assert_eq!(b.entry_point, 0x140001000);
    let got: Vec<(&str, u64, usize, bool)> = b
        .sections
        .iter()
        .map(|s| (s.name.as_str(), s.virtual_address, s.data.len(), s.executable))
        .collect();
    assert_eq!(
        got,
        vec![
            (".text", 0x140001000, 0x200, true),
            (".rdata", 0x140002000, 0x200, false),
        ]
    );
    let got: Vec<(&str, u64)> =
        b.symbols.iter().map(|s| (s.name.as_str(), s.address)).collect();
    assert_eq!(got, vec![("run", 0x140001000)]);
    let got: Vec<(&str, u64)> =
        b.imports.iter().map(|s| (s.name.as_str(), s.address)).collect();
    assert_eq!(got, vec![("puts", 0x140002180)]);
}

#[test]
fn section_bounds_may_overflow_whatever_is_logged() {
    assert!(log::STATIC_MAX_LEVEL <= log::LevelFilter::Info);
    log::set_max_level(log::LevelFilter::Trace);
    let mut f = pe_file();
    // a section from 0xfffff000 on, of 0x2000 bytes, before the one with the directories
    p32(&mut f, 0x98 + 240 + 8, 0x2000);
    p32(&mut f, 0x98 + 240 + 12, 0xffff_f000);
    let b = load(&f).unwrap();
    assert_eq!(b.sections[0].virtual_address, 0x2_3fff_f000);
    assert_eq!(b.symbols.len(), 1);
    assert_eq!(b.imports.len(), 1);
}

#[test]
fn list_of_functions() {
    let b = load(&elf_file(62)).unwrap();
    let functions = Disassembler::new(&b).disassemble_all();
    assert_eq!(
        list_functions(&functions),
        "Functions:\n  0x0000000000400200  add  (2 instructions)\n  \
         0x0000000000400205  main  (3 instructions)\n  \
         0x000000000040020c  sub_40020c  (1 instructions)\n"
    );
    assert_eq!(list_functions(&vec![]), "Functions:\n");
}

#[test]
fn selection_by_name_or_address() {
    let b = load(&elf_file(62)).unwrap();
    let functions = Disassembler::new(&b).disassemble_all();
    let names = |patterns: &[&str]| -> Vec<String> {
        let patterns: Vec<String> = patterns.iter().map(|p| p.to_string()).collect();
        select(&functions, &patterns).iter().map(|f| f.name.clone()).collect()
    };
    assert_eq!(names(&[]), vec!["add", "main", "sub_40020c"]);
    assert_eq!(names(&["ai"]), vec!["main"]);
    assert_eq!(names(&["40020"]), vec!["add", "main", "sub_40020c"]);
    assert_eq!(names(&["205", "add"]), vec!["add", "main"]);
    assert_eq!(names(&["nothing"]), Vec::<String>::new());
    assert_eq!(names(&["0x"]), Vec::<String>::new());
}

#[test]
fn names_of_addresses() {
    let b = load(&elf_file(62)).unwrap();
    let functions = Disassembler::new(&b).disassemble_all();
    let names = symbol_names(&b, &functions);
    assert_eq!(names.len(), 4);
    assert_eq!(names[&0x400200], "add");
    assert_eq!(names[&0x400500], "puts");
    assert_eq!(names[&0x40020c], "sub_40020c");
}

#[test]
fn whole_file_to_c() {
    let b = load(&elf_file(62)).unwrap();
    let functions = Disassembler::new(&b).disassemble_all();
    let d = decompile(&b, &functions, &vec![]).unwrap();
    assert_eq!(
        d.code,
        "/* Generated by simple-decompiler */\n#include <stdint.h>\n#include <stddef.h>\n\n\
         uint64_t add();\nuint64_t main();\nuint64_t sub_40020c();\n\n\
         uint64_t add(uint64_t param_rdi, uint64_t param_rsi) {\n    uint64_t v2;\n    \
         v2 = (param_rdi + param_rsi);\n    uint64_t v3;\n    v3 = v2;\n    return v3;\n}\n\n\
         uint64_t main() {\n    uint64_t v0;\n    v0 = sub_40020c();\n    uint64_t v1;\n    \
         v1 = v0;\n    return v1;\n}\n\n\
         uint64_t sub_40020c() {\n    return;\n}\n\n"
    );
    assert_eq!(d.functions.len(), 3);
    assert_eq!(d.analyses.len(), 3);
    let d = decompile(&b, &functions, &vec!["add".to_string()]).unwrap();
    assert_eq!(d.functions.len(), 1);
    assert_eq!(d.functions[0].param_count, 2);
    assert!(matches!(
        decompile(&b, &functions, &vec!["zzz".to_string()]),
        Err(DecompileError::NoMatch)
    ));
}

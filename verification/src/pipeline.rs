//! From a binary to C: listing, selection and decompilation of functions.
use std::collections::HashMap;

use vstd::prelude::*;

use crate::analysis::FunctionAnalysis;
use crate::binary::{symbols_model, Arch, BinaryModel, LoadedBinary, Symbol, SymbolModel};
use crate::codegen::model::file_text;
use crate::codegen::{functions_model, generate, texts};
use crate::disasm::model::CodeModel;
use crate::disasm::{codes_model, DisasmFunction};
use crate::ir::lift::try_lift;
use crate::ir::meaning::{fits, fresh_lift, lifted};
use crate::ir::{FunctionModel, IrFunction};
use crate::text::{
    contains_text, decimal, decimal_of_u64, has_part, hex_of_u64, hexadecimal, padded_hex,
    padded_hex_of_u64,
};

verus! {

broadcast use vstd::std_specs::hash::group_hash_axioms;

/// The line of a function in the list: address, name and number of instructions.
pub open spec fn list_line(code: CodeModel) -> Seq<char> {
    "  0x"@ + padded_hex(code.address as nat) + "  "@ + code.name + "  ("@ + decimal(
        code.instrs.len(),
    ) + " instructions)\n"@
}

/// The lines of the functions.
pub open spec fn list_lines(codes: Seq<CodeModel>) -> Seq<char>
    decreases codes.len(),
{
    if codes.len() == 0 {
        Seq::empty()
    } else {
        list_lines(codes.drop_last()) + list_line(codes.last())
    }
}

/// The list of the functions: a heading and a line for each.
pub fn list_functions(functions: &Vec<DisasmFunction>) -> (text: String)
    ensures
        text@ == "Functions:\n"@ + list_lines(codes_model(functions@)),
{
    let ghost codes = codes_model(functions@);
    let mut text = "Functions:\n".to_string();
    let ghost heading = text@;
    let n = functions.len();
    let mut i: usize = 0;
    assert(text@ =~= heading + list_lines(codes.take(0)));
    while i < n
        invariant
            i <= n,
            n == functions@.len(),
            codes == codes_model(functions@),
            text@ == heading + list_lines(codes.take(i as int)),
        decreases n - i,
    {
        let f = &functions[i];
        let ghost before = list_lines(codes.take(i as int));
        assert(codes.take(i + 1).drop_last() =~= codes.take(i as int));
        assert(codes.take(i + 1).last() == f@);
        let mut line = "  0x".to_string();
        line.append(padded_hex_of_u64(f.address).as_str());
        line.append("  ");
        line.append(f.name.as_str());
        line.append("  (");
        line.append(decimal_of_u64(f.instrs.len() as u64).as_str());
        line.append(" instructions)\n");
        assert(line@ == list_line(f@));
        text.append(line.as_str());
        assert(text@ =~= heading + (before + line@));
        i = i + 1;
    }
    assert(codes.take(n as int) =~= codes);
    text
}

/// The patterns as characters.
pub open spec fn patterns_model(patterns: Seq<String>) -> Seq<Seq<char>> {
    patterns.map_values(|p: String| p@)
}

/// The function is asked for: its name, or its address in hexadecimal, contains one of the
/// patterns.
pub open spec fn asked_for(code: CodeModel, patterns: Seq<Seq<char>>) -> bool {
    exists|i: int|
        0 <= i < patterns.len() && (contains_text(code.name, #[trigger] patterns[i])
            || contains_text(hexadecimal(code.address as nat), patterns[i]))
}

/// The functions asked for, in order; without patterns all of them.
pub open spec fn selected(codes: Seq<CodeModel>, patterns: Seq<Seq<char>>) -> Seq<CodeModel>
    decreases codes.len(),
{
    if codes.len() == 0 {
        Seq::empty()
    } else if patterns.len() == 0 || asked_for(codes.last(), patterns) {
        selected(codes.drop_last(), patterns).push(codes.last())
    } else {
        selected(codes.drop_last(), patterns)
    }
}

/// Without patterns every function is selected.
pub proof fn lemma_select_all(codes: Seq<CodeModel>)
    ensures
        selected(codes, Seq::empty()) == codes,
    decreases codes.len(),
{
    if codes.len() > 0 {
        lemma_select_all(codes.drop_last());
        assert(codes.drop_last().push(codes.last()) =~= codes);
    } else {
        assert(selected(codes, Seq::empty()) =~= codes);
    }
}

/// A function is selected exactly if it is there and is asked for, where there are patterns.
pub proof fn lemma_selected(codes: Seq<CodeModel>, patterns: Seq<Seq<char>>, code: CodeModel)
    requires
        patterns.len() > 0,
    ensures
        selected(codes, patterns).contains(code) <==> codes.contains(code) && asked_for(
            code,
            patterns,
        ),
    decreases codes.len(),
{
    if codes.len() > 0 {
        let rest = codes.drop_last();
        let last = codes.last();
        lemma_selected(rest, patterns, code);
        let s = selected(rest, patterns);
        assert(s.push(last).contains(code) <==> s.contains(code) || code == last) by {
            if s.contains(code) {
                let i = choose|i: int| 0 <= i < s.len() && s[i] == code;
                assert(s.push(last)[i] == code);
            }
            assert(s.push(last)[s.len() as int] == last);
        }
        assert(codes.contains(code) <==> rest.contains(code) || code == last) by {
            if rest.contains(code) {
                let i = choose|i: int| 0 <= i < rest.len() && rest[i] == code;
                assert(codes[i] == code);
            }
            assert(codes[codes.len() - 1] == last);
            if codes.contains(code) {
                let i = choose|i: int| 0 <= i < codes.len() && codes[i] == code;
                if i < rest.len() {
                    assert(rest[i] == code);
                }
            }
        }
    }
}

fn is_asked_for(f: &DisasmFunction, patterns: &Vec<String>) -> (yes: bool)
    ensures
        yes == asked_for(f@, patterns_model(patterns@)),
{
    let ghost models = patterns_model(patterns@);
    let hex = hex_of_u64(f.address);
    let n = patterns.len();
    let mut i: usize = 0;
    while i < n
        invariant
            i <= n,
            n == patterns@.len(),
            models == patterns_model(patterns@),
            hex@ == hexadecimal(f.address as nat),
            forall|j: int|
                0 <= j < i ==> !contains_text(f@.name, #[trigger] models[j]) && !contains_text(
                    hex@,
                    models[j],
                ),
        decreases n - i,
    {
        assert(models[i as int] == patterns@[i as int]@);
        let pat = patterns[i].as_str();
        if has_part(f.name.as_str(), pat) || has_part(hex.as_str(), pat) {
            return true;
        }
        i = i + 1;
    }
    false
}

/// The functions asked for, in order; without patterns all of them.
pub fn select<'a>(functions: &'a Vec<DisasmFunction>, patterns: &Vec<String>) -> (chosen: Vec<
    &'a DisasmFunction,
>)
    ensures
        refs_model(chosen@) == selected(codes_model(functions@), patterns_model(patterns@)),
{
    let ghost codes = codes_model(functions@);
    let ghost models = patterns_model(patterns@);
    let mut chosen: Vec<&'a DisasmFunction> = Vec::new();
    let n = functions.len();
    let mut i: usize = 0;
    assert(refs_model(chosen@) =~= selected(codes.take(0), models));
    while i < n
        invariant
            i <= n,
            n == functions@.len(),
            codes == codes_model(functions@),
            models == patterns_model(patterns@),
            refs_model(chosen@) == selected(codes.take(i as int), models),
        decreases n - i,
    {
        let f = &functions[i];
        let ghost before = chosen@;
        assert(codes.take(i + 1).drop_last() =~= codes.take(i as int));
        assert(codes.take(i + 1).last() == f@);
        if patterns.len() == 0 || is_asked_for(f, patterns) {
            chosen.push(f);
            assert(refs_model(chosen@) =~= refs_model(before).push(f@));
        }
        i = i + 1;
    }
    assert(codes.take(n as int) =~= codes);
    chosen
}

/// The functions of a list of references, each as a mathematical value.
pub open spec fn refs_model(refs: Seq<&DisasmFunction>) -> Seq<CodeModel> {
    refs.map_values(|f: &DisasmFunction| f@)
}

/// The names with those of the symbols; a later name replaces an earlier one.
pub open spec fn with_symbols(
    names: Map<u64, Seq<char>>,
    symbols: Seq<SymbolModel>,
) -> Map<u64, Seq<char>>
    decreases symbols.len(),
{
    if symbols.len() == 0 {
        names
    } else {
        with_symbols(names, symbols.drop_last()).insert(
            symbols.last().address,
            symbols.last().name,
        )
    }
}

/// The names with those of the functions; a later name replaces an earlier one.
pub open spec fn with_codes(names: Map<u64, Seq<char>>, codes: Seq<CodeModel>) -> Map<
    u64,
    Seq<char>,
>
    decreases codes.len(),
{
    if codes.len() == 0 {
        names
    } else {
        with_codes(names, codes.drop_last()).insert(codes.last().address, codes.last().name)
    }
}

/// The names of addresses: those of symbols, of imports and of functions, in this order.
pub open spec fn names_of(bin: BinaryModel, codes: Seq<CodeModel>) -> Map<u64, Seq<char>> {
    with_codes(with_symbols(with_symbols(Map::empty(), bin.symbols), bin.imports), codes)
}

fn add_symbols(names: &mut HashMap<u64, String>, symbols: &Vec<Symbol>)
    ensures
        texts(final(names)@) == with_symbols(texts(old(names)@), symbols_model(symbols@)),
{
    let ghost base = texts(names@);
    let ghost models = symbols_model(symbols@);
    let n = symbols.len();
    let mut i: usize = 0;
    assert(models.take(0) =~= Seq::empty());
    while i < n
        invariant
            i <= n,
            n == symbols@.len(),
            models == symbols_model(symbols@),
            texts(names@) == with_symbols(base, models.take(i as int)),
        decreases n - i,
    {
        let sym = &symbols[i];
        let ghost before = names@;
        assert(models.take(i + 1).drop_last() =~= models.take(i as int));
        assert(models.take(i + 1).last() == sym@);
        names.insert(sym.address, sym.name.clone());
        assert(texts(names@) =~= texts(before).insert(sym.address, sym.name@));
        i = i + 1;
    }
    assert(models.take(n as int) =~= models);
}

/// The names of addresses: those of symbols, of imports and of functions, in this order.
pub fn symbol_names(binary: &LoadedBinary, functions: &Vec<DisasmFunction>) -> (names: HashMap<
    u64,
    String,
>)
    ensures
        texts(names@) == names_of(binary@, codes_model(functions@)),
{
    let ghost codes = codes_model(functions@);
    let mut names: HashMap<u64, String> = HashMap::new();
    assert(texts(names@) =~= Map::empty());
    add_symbols(&mut names, &binary.symbols);
    add_symbols(&mut names, &binary.imports);
    let ghost base = texts(names@);
    let n = functions.len();
    let mut i: usize = 0;
    assert(codes.take(0) =~= Seq::empty());
    while i < n
        invariant
            i <= n,
            n == functions@.len(),
            codes == codes_model(functions@),
            texts(names@) == with_codes(base, codes.take(i as int)),
        decreases n - i,
    {
        let f = &functions[i];
        let ghost before = names@;
        assert(codes.take(i + 1).drop_last() =~= codes.take(i as int));
        assert(codes.take(i + 1).last() == f@);
        names.insert(f.address, f.name.clone());
        assert(texts(names@) =~= texts(before).insert(f.address, f.name@));
        i = i + 1;
    }
    assert(codes.take(n as int) =~= codes);
    names
}

/// The decompiled functions: the C file, and the lifted functions with their analyses.
pub struct Decompiled {
    pub code: String,
    pub functions: Vec<IrFunction>,
    pub analyses: Vec<FunctionAnalysis>,
}

/// Why functions cannot be decompiled.
#[derive(Debug, Clone, Copy, PartialEq, Eq, Structural)]
pub enum DecompileError {
    /// No functions matched the filter criteria
    NoMatch,
    /// There are not enough numbers for the registers or blocks of the function at this address
    TooLarge(u64),
}

/// The functions, lifted.
pub open spec fn lifted_all(arch: Arch, codes: Seq<CodeModel>) -> Seq<FunctionModel> {
    codes.map_values(|c: CodeModel| lifted(fresh_lift(arch), c))
}

/// Decompiles the functions asked for.
pub fn decompile(
    binary: &LoadedBinary,
    functions: &Vec<DisasmFunction>,
    patterns: &Vec<String>,
) -> (result: Result<Decompiled, DecompileError>)
    ensures
        ({
            let codes = codes_model(functions@);
            let chosen = selected(codes, patterns_model(patterns@));
            match result {
                Ok(d) => {
                    &&& chosen.len() > 0
                    &&& forall|i: int|
                        0 <= i < chosen.len() ==> fits(
                            fresh_lift(binary.arch),
                            #[trigger] chosen[i],
                        )
                    &&& functions_model(d.functions@) == lifted_all(binary.arch, chosen)
                    &&& d.analyses@.len() == chosen.len()
                    &&& forall|i: int|
                        0 <= i < chosen.len() ==> (#[trigger] d.analyses@[i]).describes(
                            d.functions@[i]@.blocks,
                        )
                    &&& d.code@ == file_text(
                        lifted_all(binary.arch, chosen),
                        d.analyses@,
                        names_of(binary@, codes),
                    )
                },
                Err(DecompileError::NoMatch) => chosen.len() == 0,
                Err(DecompileError::TooLarge(a)) => exists|i: int|
                    {
                        &&& 0 <= i < chosen.len()
                        &&& !fits(fresh_lift(binary.arch), #[trigger] chosen[i])
                        &&& chosen[i].address == a
                        &&& forall|j: int|
                            0 <= j < i ==> fits(fresh_lift(binary.arch), #[trigger] chosen[j])
                    },
            }
        }),
{
    let ghost codes = codes_model(functions@);
    let chosen = select(functions, patterns);
    let ghost picked = refs_model(chosen@);
    let n = chosen.len();
    if n == 0 {
        return Err(DecompileError::NoMatch);
    }
    let names = symbol_names(binary, functions);
    let mut irs: Vec<IrFunction> = Vec::new();
    let mut analyses: Vec<FunctionAnalysis> = Vec::new();
    let mut i: usize = 0;
    assert(functions_model(irs@) =~= lifted_all(binary.arch, picked.take(0)));
    while i < n
        invariant
            i <= n,
            n == chosen@.len(),
            picked == refs_model(chosen@),
            picked == selected(codes_model(functions@), patterns_model(patterns@)),
            irs@.len() == i,
            analyses@.len() == i,
            functions_model(irs@) == lifted_all(binary.arch, picked.take(i as int)),
            forall|j: int| 0 <= j < i ==> fits(fresh_lift(binary.arch), #[trigger] picked[j]),
            forall|j: int|
                0 <= j < i ==> (#[trigger] analyses@[j]).describes(irs@[j]@.blocks),
        decreases n - i,
    {
        let func = chosen[i];
        let ghost before = irs@;
        assert(picked[i as int] == func@);
        let ir = match try_lift(func, binary.arch) {
            Some(ir) => ir,
            None => {
                assert(!fits(fresh_lift(binary.arch), picked[i as int]));
                return Err(DecompileError::TooLarge(func.address));
            },
        };
        let analysis = FunctionAnalysis::analyze(&ir);
        irs.push(ir);
        analyses.push(analysis);
        proof {
            assert(picked.take(i + 1) =~= picked.take(i as int).push(func@));
            assert(functions_model(irs@) =~= functions_model(before).push(ir@));
            assert(lifted_all(binary.arch, picked.take(i + 1)) =~= lifted_all(
                binary.arch,
                picked.take(i as int),
            ).push(lifted(fresh_lift(binary.arch), func@)));
        }
        i = i + 1;
    }
    assert(picked.take(n as int) =~= picked);
    let code = generate(irs.as_slice(), analyses.as_slice(), &names);
    Ok(Decompiled { code, functions: irs, analyses })
}

} // verus!

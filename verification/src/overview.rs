//! What is listed, what is selected, and which names addresses have.
use vstd::prelude::*;

use crate::binary::laws::{lemma_picked_more, picked};
use crate::binary::{symbols_model, Arch, BinaryModel, Symbol, SymbolModel};
use crate::codegen::{functions_model, texts};
use crate::disasm::model::CodeModel;
use crate::disasm::{codes_model, entries_model, DisasmFunction};
use crate::ir::meaning::{fresh_lift, lifted};
use crate::ir::IrFunction;
use crate::pipeline::{
    asked_for, lifted_all, list_lines, names_of, patterns_model, refs_model, selected, with_codes,
    with_symbols,
};
use crate::text::{contains_text, decimal, hexadecimal, padded_hex, stands_at};

verus! {

/// The list has a line for each function, in order: its address with sixteen digits, its name and
/// the number of its instructions.
pub proof fn lemma_listing(codes: Seq<CodeModel>, code: CodeModel)
    ensures
        list_lines(Seq::empty()).len() == 0,
        list_lines(codes.push(code)) == list_lines(codes) + ("  0x"@ + padded_hex(
            code.address as nat,
        ) + "  "@ + code.name + "  ("@ + decimal(code.instrs.len()) + " instructions)\n"@),
{
    assert(codes.push(code).drop_last() =~= codes);
}

/// The text has the other one in it at some place.
pub open spec fn holds_text(whole: Seq<char>, part: Seq<char>) -> bool {
    exists|a: Seq<char>, b: Seq<char>| whole == #[trigger] (a + part + b)
}

/// The function is wanted: there is no pattern, or its name or its address in hexadecimal holds
/// one.
pub open spec fn wanted(code: CodeModel, patterns: Seq<Seq<char>>) -> bool {
    patterns.len() == 0 || exists|k: int|
        0 <= k < patterns.len() && (holds_text(code.name, #[trigger] patterns[k]) || holds_text(
            hexadecimal(code.address as nat),
            patterns[k],
        ))
}

proof fn lemma_holds_text(whole: Seq<char>, part: Seq<char>)
    ensures
        contains_text(whole, part) <==> holds_text(whole, part),
{
    if contains_text(whole, part) {
        let i = choose|i: int| stands_at(whole, part, i);
        let a = whole.take(i);
        let b = whole.skip(i + part.len());
        assert forall|k: int| 0 <= k < whole.len() implies whole[k] == (a + part + b)[k] by {
            if i <= k < i + part.len() {
                assert(whole.subrange(i, i + part.len())[k - i] == whole[k]);
            }
        }
        assert(whole =~= a + part + b);
    }
    if holds_text(whole, part) {
        let (a, b) = choose|a: Seq<char>, b: Seq<char>| whole == #[trigger] (a + part + b);
        assert(whole.subrange(a.len() as int, (a.len() + part.len()) as int) =~= part);
        assert(stands_at(whole, part, a.len() as int));
    }
}

proof fn lemma_wanted(code: CodeModel, patterns: Seq<Seq<char>>)
    ensures
        patterns.len() == 0 || asked_for(code, patterns) <==> wanted(code, patterns),
{
    assert forall|k: int| 0 <= k < patterns.len() implies (contains_text(
        code.name,
        #[trigger] patterns[k],
    ) <==> holds_text(code.name, patterns[k])) && (contains_text(
        hexadecimal(code.address as nat),
        patterns[k],
    ) <==> holds_text(hexadecimal(code.address as nat), patterns[k])) by {
        lemma_holds_text(code.name, patterns[k]);
        lemma_holds_text(hexadecimal(code.address as nat), patterns[k]);
    }
}

/// The functions selected are those that are wanted, in order.
pub proof fn lemma_selection(codes: Seq<CodeModel>, patterns: Seq<Seq<char>>)
    ensures
        picked(
            |i: int| wanted(codes[i], patterns),
            codes.len() as int,
            selected(codes, patterns).len(),
            |i: int| selected(codes.take(i), patterns).len(),
        ),
        forall|i: int|
            0 <= i < codes.len() && wanted(#[trigger] codes[i], patterns) ==> selected(
                codes,
                patterns,
            )[selected(codes.take(i), patterns).len() as int] == codes[i],
    decreases codes.len(),
{
    let chosen = |i: int| wanted(codes[i], patterns);
    let rank = |i: int| selected(codes.take(i), patterns).len();
    if codes.len() > 0 {
        let rest = codes.drop_last();
        let n = rest.len() as int;
        let before = selected(rest, patterns);
        let all = selected(codes, patterns);
        lemma_wanted(codes.last(), patterns);
        lemma_selection(rest, patterns);
        let chosen0 = |i: int| wanted(rest[i], patterns);
        let rank0 = |i: int| selected(rest.take(i), patterns).len();
        assert(codes.take(n) =~= rest);
        assert forall|i: int| 0 <= i < n implies #[trigger] chosen(i) == chosen0(i) && rank(i)
            == rank0(i) by {
            assert(rest.take(i) =~= codes.take(i));
            assert(rest[i] == codes[i]);
        }
        assert(rank(n) == before.len());
        lemma_picked_more(chosen0, rank0, chosen, rank, n, before.len(), all.len());
        assert forall|i: int|
            0 <= i < codes.len() && wanted(#[trigger] codes[i], patterns) implies all[selected(
            codes.take(i),
            patterns,
        ).len() as int] == codes[i] by {
            if i < n {
                assert(rest[i] == codes[i]);
                assert(rest.take(i) =~= codes.take(i));
                assert(chosen0(i));
                assert(rank0(i) < before.len());
                assert(all[rank0(i) as int] == before[rank0(i) as int]);
            }
        }
    }
}

/// Symbol `i` is the last one at its address.
pub open spec fn last_at(symbols: Seq<SymbolModel>, i: int, addr: u64) -> bool {
    &&& 0 <= i < symbols.len() && symbols[i].address == addr
    &&& forall|j: int| i < j < symbols.len() ==> (#[trigger] symbols[j]).address != addr
}

/// Function `i` is the last one at its address.
pub open spec fn last_code_at(codes: Seq<CodeModel>, i: int, addr: u64) -> bool {
    &&& 0 <= i < codes.len() && codes[i].address == addr
    &&& forall|j: int| i < j < codes.len() ==> (#[trigger] codes[j]).address != addr
}

proof fn lemma_with_symbols(names: Map<u64, Seq<char>>, symbols: Seq<SymbolModel>, addr: u64)
    ensures
        (forall|i: int| !#[trigger] last_at(symbols, i, addr)) ==> with_symbols(
            names,
            symbols,
        ).contains_key(addr) == names.contains_key(addr) && with_symbols(names, symbols)[addr]
            == names[addr],
        forall|i: int| #[trigger]
            last_at(symbols, i, addr) ==> with_symbols(names, symbols).contains_key(addr)
                && with_symbols(names, symbols)[addr] == symbols[i].name,
    decreases symbols.len(),
{
    if symbols.len() > 0 {
        let rest = symbols.drop_last();
        let n = rest.len() as int;
        lemma_with_symbols(names, rest, addr);
        assert(symbols[n] == symbols.last());
        if symbols.last().address == addr {
            assert(last_at(symbols, n, addr));
            assert forall|i: int| #[trigger] last_at(symbols, i, addr) implies i == n by {
                if i < n {
                    assert(symbols[n].address != addr);
                }
            }
        } else {
            assert forall|i: int| #[trigger] last_at(symbols, i, addr) implies last_at(
                rest,
                i,
                addr,
            ) && rest[i] == symbols[i] by {
                assert(i < n);
                assert forall|j: int| i < j < rest.len() implies (#[trigger] rest[j]).address
                    != addr by {
                    assert(rest[j] == symbols[j]);
                }
            }
            assert forall|i: int| #[trigger] last_at(rest, i, addr) implies last_at(
                symbols,
                i,
                addr,
            ) by {
                assert(rest[i] == symbols[i]);
                assert forall|j: int| i < j < symbols.len() implies (#[trigger] symbols[j]).address
                    != addr by {
                    if j < n {
                        assert(rest[j] == symbols[j]);
                    }
                }
            }
        }
    }
}

proof fn lemma_with_codes(names: Map<u64, Seq<char>>, codes: Seq<CodeModel>, addr: u64)
    ensures
        (forall|i: int| !#[trigger] last_code_at(codes, i, addr)) ==> with_codes(
            names,
            codes,
        ).contains_key(addr) == names.contains_key(addr) && with_codes(names, codes)[addr]
            == names[addr],
        forall|i: int| #[trigger]
            last_code_at(codes, i, addr) ==> with_codes(names, codes).contains_key(addr)
                && with_codes(names, codes)[addr] == codes[i].name,
    decreases codes.len(),
{
    if codes.len() > 0 {
        let rest = codes.drop_last();
        let n = rest.len() as int;
        lemma_with_codes(names, rest, addr);
        assert(codes[n] == codes.last());
        if codes.last().address == addr {
            assert(last_code_at(codes, n, addr));
            assert forall|i: int| #[trigger] last_code_at(codes, i, addr) implies i == n by {
                if i < n {
                    assert(codes[n].address != addr);
                }
            }
        } else {
            assert forall|i: int| #[trigger] last_code_at(codes, i, addr) implies last_code_at(
                rest,
                i,
                addr,
            ) && rest[i] == codes[i] by {
                assert(i < n);
                assert forall|j: int| i < j < rest.len() implies (#[trigger] rest[j]).address
                    != addr by {
                    assert(rest[j] == codes[j]);
                }
            }
            assert forall|i: int| #[trigger] last_code_at(rest, i, addr) implies last_code_at(
                codes,
                i,
                addr,
            ) by {
                assert(rest[i] == codes[i]);
                assert forall|j: int| i < j < codes.len() implies (#[trigger] codes[j]).address
                    != addr by {
                    if j < n {
                        assert(rest[j] == codes[j]);
                    }
                }
            }
        }
    }
}

/// The name of an address is that of the last function there; without one that of the last import;
/// without one that of the last symbol; an address without any has no name.
pub proof fn lemma_names(bin: BinaryModel, codes: Seq<CodeModel>, addr: u64)
    ensures
        ({
            let names = names_of(bin, codes);
            let no_code = forall|i: int| !#[trigger] last_code_at(codes, i, addr);
            let no_import = forall|i: int| !#[trigger] last_at(bin.imports, i, addr);
            let no_symbol = forall|i: int| !#[trigger] last_at(bin.symbols, i, addr);
            &&& forall|i: int| #[trigger]
                last_code_at(codes, i, addr) ==> names.contains_key(addr) && names[addr]
                    == codes[i].name
            &&& forall|i: int| #[trigger]
                last_at(bin.imports, i, addr) && no_code ==> names.contains_key(addr)
                    && names[addr] == bin.imports[i].name
            &&& forall|i: int| #[trigger]
                last_at(bin.symbols, i, addr) && no_code && no_import ==> names.contains_key(addr)
                    && names[addr] == bin.symbols[i].name
            &&& no_code && no_import && no_symbol ==> !names.contains_key(addr)
        }),
{
    let none = Map::<u64, Seq<char>>::empty();
    let first = with_symbols(none, bin.symbols);
    lemma_with_symbols(none, bin.symbols, addr);
    lemma_with_symbols(first, bin.imports, addr);
    lemma_with_codes(with_symbols(first, bin.imports), codes, addr);
}

/// Every function is lifted for itself, in order.
pub proof fn lemma_lifted_all(arch: Arch, codes: Seq<CodeModel>)
    ensures
        lifted_all(arch, codes).len() == codes.len(),
        forall|i: int|
            0 <= i < codes.len() ==> #[trigger] lifted_all(arch, codes)[i] == lifted(
                fresh_lift(arch),
                codes[i],
            ),
{
}

/// The models of lists hold the models of their items, in order, and the texts of a map its values.
pub proof fn lemma_list_models(
    codes: Seq<DisasmFunction>,
    refs: Seq<&DisasmFunction>,
    funcs: Seq<IrFunction>,
    patterns: Seq<String>,
    symbols: Seq<Symbol>,
    entries: Seq<(u64, String)>,
    names: Map<u64, String>,
)
    ensures
        codes_model(codes).len() == codes.len(),
        forall|i: int| 0 <= i < codes.len() ==> #[trigger] codes_model(codes)[i] == codes[i]@,
        refs_model(refs).len() == refs.len(),
        forall|i: int| 0 <= i < refs.len() ==> #[trigger] refs_model(refs)[i] == refs[i]@,
        functions_model(funcs).len() == funcs.len(),
        forall|i: int| 0 <= i < funcs.len() ==> #[trigger] functions_model(funcs)[i] == funcs[i]@,
        patterns_model(patterns).len() == patterns.len(),
        forall|i: int|
            0 <= i < patterns.len() ==> #[trigger] patterns_model(patterns)[i] == patterns[i]@,
        symbols_model(symbols).len() == symbols.len(),
        forall|i: int|
            0 <= i < symbols.len() ==> #[trigger] symbols_model(symbols)[i] == symbols[i]@,
        entries_model(entries).len() == entries.len(),
        forall|i: int|
            0 <= i < entries.len() ==> #[trigger] entries_model(entries)[i] == (
                entries[i].0,
                entries[i].1@,
            ),
        forall|a: u64| #[trigger] texts(names).contains_key(a) <==> names.contains_key(a),
        forall|a: u64| #[trigger] names.contains_key(a) ==> texts(names)[a] == names[a]@,
{
}

} // verus!

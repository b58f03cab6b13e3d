//! Which functions of a binary are found, and under which names.
use vstd::prelude::*;

use super::kinds::move_after;
use super::model::{
    addresses, all_codes, call_targets, called_entries, calls_in, calls_of, code_starts, codes_of,
    entries_of, instrs_of, lemma_all_codes, lemma_called_entries, lemma_entries,
    lemma_symbol_entries, lemma_with_entry, named, starts, symbol_entries, with_entry,
};
use super::targets::lemma_targets_found;
use crate::binary::laws::{covers, lemma_executable, lemma_tail_bytes, taken_from};
use crate::binary::{executable, known, tail_bytes, Arch, BinaryModel, SectionModel, SymbolModel};
use crate::sorted::{ascending, lemma_slot, slot};
use crate::text::hexadecimal;
use crate::x86::decode::instr_at;
use crate::x86::{Instr, Mnemonic, OpKind};

verus! {

/// The `n`-th instruction of the code at `addr`, decoded one behind the other.
pub open spec fn nth_decoded(bits: u32, code: Seq<u8>, addr: u64, n: nat) -> Option<Instr>
    decreases n,
{
    if code.len() == 0 {
        None
    } else {
        let instr = instr_at(bits, code, addr);
        if n == 0 {
            Some(instr)
        } else if 1 <= instr.len <= code.len() {
            nth_decoded(bits, code.skip(instr.len as int), instr.next_ip, (n - 1) as nat)
        } else {
            None
        }
    }
}

/// A call of the address that the instruction itself names.
pub open spec fn calls_directly(instr: Instr, target: u64) -> bool {
    &&& instr.mnemonic == Mnemonic::Call
    &&& instr.op0.kind == OpKind::NearBranch16 || instr.op0.kind == OpKind::NearBranch32
        || instr.op0.kind == OpKind::NearBranch64
    &&& instr.near_branch_target == target
}

/// The `n`-th instruction of the code calls the target.
pub open spec fn called_by(bits: u32, code: Seq<u8>, addr: u64, n: nat, target: u64) -> bool {
    nth_decoded(bits, code, addr, n) matches Some(instr) && calls_directly(instr, target)
}

/// Some instruction of the code calls the target.
pub open spec fn called_in(bits: u32, code: Seq<u8>, addr: u64, target: u64) -> bool {
    exists|n: nat| #[trigger] called_by(bits, code, addr, n, target)
}

/// The width in which the code of an architecture is decoded.
pub open spec fn decoding_width(arch: Arch) -> u32 {
    if arch == Arch::X86_64 {
        64
    } else {
        32
    }
}

/// An executable section with an instruction that calls the target.
pub open spec fn calling_section(bin: BinaryModel, k: int, target: u64) -> bool {
    &&& 0 <= k < bin.sections.len() && bin.sections[k].executable
    &&& called_in(
        decoding_width(bin.arch),
        bin.sections[k].data,
        bin.sections[k].virtual_address,
        target,
    )
}

/// Some executable section has an instruction that calls the target.
pub open spec fn called(bin: BinaryModel, target: u64) -> bool {
    exists|k: int| #[trigger] calling_section(bin, k, target)
}

proof fn lemma_joined(s: Seq<u64>, t: Seq<u64>, x: u64)
    ensures
        (s + t).contains(x) <==> s.contains(x) || t.contains(x),
{
    if s.contains(x) {
        let i = choose|i: int| 0 <= i < s.len() && s[i] == x;
        assert((s + t)[i] == x);
    }
    if t.contains(x) {
        let i = choose|i: int| 0 <= i < t.len() && t[i] == x;
        assert((s + t)[s.len() + i] == x);
    }
}

proof fn lemma_calls_in(bits: u32, code: Seq<u8>, addr: u64, target: u64)
    ensures
        calls_in(bits, code, addr).contains(target) <==> called_in(bits, code, addr, target),
    decreases code.len(),
{
    if code.len() > 0 {
        let instr = instr_at(bits, code, addr);
        let rest = code.skip(instr.len as int);
        if called_in(bits, code, addr, target) {
            let n = choose|n: nat| #[trigger] called_by(bits, code, addr, n, target);
            if n > 0 {
                assert(called_by(bits, rest, instr.next_ip, (n - 1) as nat, target));
            }
        }
        assert(called_by(bits, code, addr, 0, target) <==> calls_directly(instr, target));
        let here = if calls_directly(instr, instr.near_branch_target) {
            seq![instr.near_branch_target]
        } else {
            Seq::empty()
        };
        assert(here.contains(target) <==> calls_directly(instr, target)) by {
            if calls_directly(instr, target) {
                assert(here[0] == target);
            }
        }
        if 1 <= instr.len <= code.len() {
            lemma_calls_in(bits, rest, instr.next_ip, target);
            lemma_joined(here, calls_in(bits, rest, instr.next_ip), target);
            if called_in(bits, rest, instr.next_ip, target) {
                let n = choose|n: nat| #[trigger] called_by(bits, rest, instr.next_ip, n, target);
                assert(called_by(bits, code, addr, n + 1, target));
            }
        }
    }
}

/// The section at place `k` calls the target.
spec fn calls_at(bits: u32, sections: Seq<SectionModel>, k: int, target: u64) -> bool {
    0 <= k < sections.len() && called_in(
        bits,
        sections[k].data,
        sections[k].virtual_address,
        target,
    )
}

proof fn lemma_calls_of(bits: u32, sections: Seq<SectionModel>, target: u64)
    ensures
        calls_of(bits, sections).contains(target) <==> exists|k: int| #[trigger]
            calls_at(bits, sections, k, target),
    decreases sections.len(),
{
    if sections.len() > 0 {
        let rest = sections.drop_last();
        let last = sections.last();
        let n = rest.len() as int;
        lemma_calls_of(bits, rest, target);
        lemma_calls_in(bits, last.data, last.virtual_address, target);
        lemma_joined(
            calls_of(bits, rest),
            calls_in(bits, last.data, last.virtual_address),
            target,
        );
        if exists|k: int| #[trigger] calls_at(bits, rest, k, target) {
            let k = choose|k: int| #[trigger] calls_at(bits, rest, k, target);
            assert(rest[k] == sections[k]);
            assert(calls_at(bits, sections, k, target));
        }
        if exists|k: int| #[trigger] calls_at(bits, sections, k, target) {
            let k = choose|k: int| #[trigger] calls_at(bits, sections, k, target);
            if k < n {
                assert(rest[k] == sections[k]);
                assert(calls_at(bits, rest, k, target));
            }
        }
        assert(calls_at(bits, sections, n, target) <==> called_in(
            bits,
            last.data,
            last.virtual_address,
            target,
        ));
    }
}

/// The call targets of a binary are the addresses that the direct calls in its executable sections
/// name: the near branch target of every instruction that is decoded there, whose mnemonic is a
/// call and whose first operand is a near branch of 16, 32 or 64 bits, and no others.
pub proof fn lemma_call_targets(bin: BinaryModel, target: u64)
    ensures
        call_targets(bin).contains(target) <==> called(bin, target),
{
    let bits = decoding_width(bin.arch);
    let list = executable(bin.sections);
    assert(bits == bin.arch.width());
    lemma_executable(bin.sections);
    lemma_calls_of(bits, list, target);
    let chosen = |i: int| bin.sections[i].executable;
    let rank = |i: int| executable(bin.sections.take(i)).len();
    if exists|k: int| #[trigger] calls_at(bits, list, k, target) {
        let k = choose|k: int| #[trigger] calls_at(bits, list, k, target);
        assert(taken_from(chosen, bin.sections.len() as int, rank, k));
        let i = choose|i: int|
            0 <= i < bin.sections.len() && #[trigger] chosen(i) && rank(i) == k;
        assert(bin.sections[i].executable);
        assert(calling_section(bin, i, target));
    }
    if called(bin, target) {
        let i = choose|i: int| #[trigger] calling_section(bin, i, target);
        assert(chosen(i));
        assert(calls_at(bits, list, rank(i) as int, target));
    }
}

/// Some section has the byte at the address.
pub open spec fn present(bin: BinaryModel, addr: u64) -> bool {
    exists|k: int| 0 <= k < bin.sections.len() && covers(#[trigger] bin.sections[k], addr, 1)
}

/// A symbol with a name stands at the address.
pub open spec fn has_name(symbols: Seq<SymbolModel>, addr: u64) -> bool {
    exists|i: int|
        0 <= i < symbols.len() && (#[trigger] symbols[i]).address == addr && symbols[i].name.len()
            != 0
}

/// The functions of a binary start where a symbol with a name stands, at the entry point and at the
/// targets of direct calls where no symbol stands, as far as a section has the byte there; and
/// nowhere else. Each starts later than those before it.
pub proof fn lemma_functions(bin: BinaryModel, addr: u64)
    ensures
        (exists|i: int|
            0 <= i < all_codes(bin).len() && (#[trigger] all_codes(bin)[i]).address == addr) <==> {
            &&& present(bin, addr)
            &&& has_name(bin.symbols, addr) || addr == bin.entry_point || called(bin, addr)
                && forall|i: int|
                0 <= i < bin.symbols.len() ==> (#[trigger] bin.symbols[i]).address != addr
        },
        forall|i: int, j: int|
            0 <= i < j < all_codes(bin).len() ==> (#[trigger] all_codes(bin)[i]).address < (
            #[trigger] all_codes(bin)[j]).address,
        forall|i: int|
            0 <= i < all_codes(bin).len() ==> (#[trigger] all_codes(bin)[i]).instrs == instrs_of(
                bin,
                all_codes(bin)[i].address,
            ),
{
    let targets = call_targets(bin);
    let codes = all_codes(bin);
    lemma_call_targets(bin, addr);
    lemma_entries(bin, targets);
    lemma_all_codes(bin);
    lemma_code_instrs(bin, entries_of(bin, targets));
    let i = lemma_tail_bytes(bin.sections, addr);
    assert(has_name(bin.symbols, addr) <==> named(bin.symbols, addr));
    assert(known(bin.symbols, addr) <==> !forall|i: int|
        0 <= i < bin.symbols.len() ==> (#[trigger] bin.symbols[i]).address != addr);
    assert(present(bin, addr) <==> tail_bytes(bin.sections, addr) is Some);
    let keys = code_starts(codes);
    assert(starts(entries_of(bin, targets)).contains(addr) <==> named(bin.symbols, addr) || addr
        == bin.entry_point || (targets.contains(addr) && !known(bin.symbols, addr)));
    if keys.contains(addr) {
        let i = choose|i: int| 0 <= i < keys.len() && keys[i] == addr;
        assert(codes[i].address == addr);
    }
    if exists|i: int| 0 <= i < codes.len() && (#[trigger] codes[i]).address == addr {
        let i = choose|i: int| 0 <= i < codes.len() && (#[trigger] codes[i]).address == addr;
        assert(keys[i] == addr);
    }
    assert forall|i: int, j: int| 0 <= i < j < codes.len() implies (#[trigger] codes[i]).address < (
    #[trigger] codes[j]).address by {
        assert(keys[i] < keys[j]);
    }
}

/// Each disassembled function is one of the list, with its name.
proof fn lemma_code_instrs(bin: BinaryModel, entries: Seq<(u64, Seq<char>)>)
    ensures
        forall|i: int|
            0 <= i < codes_of(bin, entries).len() ==> {
                let code = #[trigger] codes_of(bin, entries)[i];
                code.instrs == instrs_of(bin, code.address) && entries.contains(
                    (code.address, code.name),
                )
            },
    decreases entries.len(),
{
    if entries.len() > 0 {
        let rest = entries.drop_last();
        let before = codes_of(bin, rest);
        lemma_code_instrs(bin, rest);
        assert forall|i: int| 0 <= i < codes_of(bin, entries).len() implies {
            let code = #[trigger] codes_of(bin, entries)[i];
            code.instrs == instrs_of(bin, code.address) && entries.contains(
                (code.address, code.name),
            )
        } by {
            let code = codes_of(bin, entries)[i];
            if i < before.len() {
                assert(code == before[i]);
                let e = (code.address, code.name);
                assert(rest.contains(e));
                let j = choose|j: int| 0 <= j < rest.len() && rest[j] == e;
                assert(entries[j] == e);
            } else {
                assert(entries[rest.len() as int] == (code.address, code.name));
            }
        }
    }
}

/// Symbol `i` is the first one with a name at its address.
pub open spec fn first_named(symbols: Seq<SymbolModel>, i: int) -> bool {
    &&& 0 <= i < symbols.len() && symbols[i].name.len() > 0
    &&& forall|j: int|
        0 <= j < i ==> (#[trigger] symbols[j]).address != symbols[i].address
            || symbols[j].name.len() == 0
}

/// The name is that of the first symbol with a name at the address.
pub open spec fn name_of_symbol(symbols: Seq<SymbolModel>, addr: u64, name: Seq<char>) -> bool {
    exists|i: int| #[trigger]
        first_named(symbols, i) && symbols[i].address == addr && symbols[i].name == name
}

/// The name under which a function is found: that of the first symbol with a name at its address;
/// without one `entry` at the entry point, else `sub_` and the address in hexadecimal.
pub open spec fn proper_name(bin: BinaryModel, addr: u64, name: Seq<char>) -> bool {
    if has_name(bin.symbols, addr) {
        name_of_symbol(bin.symbols, addr, name)
    } else if addr == bin.entry_point {
        name == seq!['e', 'n', 't', 'r', 'y']
    } else {
        name == seq!['s', 'u', 'b', '_'] + hexadecimal(addr as nat)
    }
}

proof fn lemma_entry_kept(
    entries: Seq<(u64, Seq<char>)>,
    addr: u64,
    name: Seq<char>,
    e: (u64, Seq<char>),
)
    requires
        ascending(starts(entries)),
        with_entry(entries, addr, name).contains(e),
    ensures
        entries.contains(e) || e == (addr, name) && !starts(entries).contains(addr),
{
    let keys = starts(entries);
    lemma_slot(keys, addr);
    if !keys.contains(addr) {
        let at = slot(keys, addr);
        let all = with_entry(entries, addr, name);
        let i = choose|i: int| 0 <= i < all.len() && all[i] == e;
        if i < at {
            assert(entries[i] == e);
        } else if i > at {
            assert(entries[i - 1] == e);
        }
    }
}

proof fn lemma_symbol_names(symbols: Seq<SymbolModel>, e: (u64, Seq<char>))
    requires
        symbol_entries(symbols).contains(e),
    ensures
        name_of_symbol(symbols, e.0, e.1),
    decreases symbols.len(),
{
    if symbols.len() > 0 {
        let rest = symbols.drop_last();
        let last = symbols.last();
        let n = rest.len() as int;
        lemma_symbol_entries(rest);
        if last.name.len() > 0 {
            lemma_entry_kept(symbol_entries(rest), last.address, last.name, e);
        }
        if symbol_entries(rest).contains(e) {
            lemma_symbol_names(rest, e);
            let i = choose|i: int| #[trigger]
                first_named(rest, i) && rest[i].address == e.0 && rest[i].name == e.1;
            assert forall|j: int| 0 <= j < i implies (#[trigger] symbols[j]).address
                != symbols[i].address || symbols[j].name.len() == 0 by {
                assert(rest[j] == symbols[j]);
            }
            assert(first_named(symbols, i));
        } else {
            assert(!starts(symbol_entries(rest)).contains(last.address));
            assert(!named(rest, last.address));
            assert forall|j: int| 0 <= j < n implies (#[trigger] symbols[j]).address
                != symbols[n].address || symbols[j].name.len() == 0 by {
                assert(rest[j] == symbols[j]);
            }
            assert(first_named(symbols, n));
        }
    }
}

proof fn lemma_called_names(
    entries: Seq<(u64, Seq<char>)>,
    symbols: Seq<SymbolModel>,
    targets: Seq<u64>,
    e: (u64, Seq<char>),
)
    requires
        ascending(starts(entries)),
        called_entries(entries, symbols, targets).contains(e),
    ensures
        entries.contains(e) || e.1 == seq!['s', 'u', 'b', '_'] + hexadecimal(e.0 as nat) && !starts(
            entries,
        ).contains(e.0),
    decreases targets.len(),
{
    reveal_strlit("sub_");
    assert("sub_"@ =~= seq!['s', 'u', 'b', '_']);
    if targets.len() > 0 {
        let rest = targets.drop_last();
        let before = called_entries(entries, symbols, rest);
        let addr = targets.last();
        lemma_called_entries(entries, symbols, rest);
        if !known(symbols, addr) {
            lemma_entry_kept(before, addr, "sub_"@ + hexadecimal(addr as nat), e);
        }
        if before.contains(e) {
            lemma_called_names(entries, symbols, rest, e);
        } else {
            assert(!starts(before).contains(e.0));
        }
    }
}

/// Every function is found under its proper name.
pub proof fn lemma_function_names(bin: BinaryModel)
    ensures
        forall|i: int|
            0 <= i < all_codes(bin).len() ==> proper_name(
                bin,
                (#[trigger] all_codes(bin)[i]).address,
                all_codes(bin)[i].name,
            ),
{
    let targets = call_targets(bin);
    let entries = entries_of(bin, targets);
    let first = symbol_entries(bin.symbols);
    let second = with_entry(first, bin.entry_point, "entry"@);
    lemma_code_instrs(bin, entries);
    lemma_symbol_entries(bin.symbols);
    lemma_with_entry(first, bin.entry_point, "entry"@);
    reveal_strlit("entry");
    assert("entry"@ =~= seq!['e', 'n', 't', 'r', 'y']);
    assert forall|i: int| 0 <= i < all_codes(bin).len() implies proper_name(
        bin,
        (#[trigger] all_codes(bin)[i]).address,
        all_codes(bin)[i].name,
    ) by {
        let code = all_codes(bin)[i];
        let e = (code.address, code.name);
        assert(entries.contains(e));
        assert(starts(first).contains(e.0) <==> named(bin.symbols, e.0));
        assert(named(bin.symbols, e.0) <==> has_name(bin.symbols, e.0));
        assert(starts(second).contains(e.0) <==> starts(first).contains(e.0) || e.0
            == bin.entry_point);
        lemma_called_names(second, bin.symbols, targets, e);
        if second.contains(e) {
            let k = choose|k: int| 0 <= k < second.len() && second[k] == e;
            assert(starts(second)[k] == e.0);
            lemma_entry_kept(first, bin.entry_point, "entry"@, e);
            if first.contains(e) {
                let k = choose|k: int| 0 <= k < first.len() && first[k] == e;
                assert(starts(first)[k] == e.0);
                lemma_symbol_names(bin.symbols, e);
            }
        }
    }
}

/// An unconditional jump.
pub open spec fn always_jumps(m: Mnemonic) -> bool {
    m == Mnemonic::Jmp
}

/// A jump under a condition or a loop.
pub open spec fn may_jump(m: Mnemonic) -> bool {
    ||| m == Mnemonic::Je || m == Mnemonic::Jne || m == Mnemonic::Jl || m == Mnemonic::Jle
    ||| m == Mnemonic::Jg || m == Mnemonic::Jge || m == Mnemonic::Jb || m == Mnemonic::Jbe
    ||| m == Mnemonic::Ja || m == Mnemonic::Jae || m == Mnemonic::Js || m == Mnemonic::Jns
    ||| m == Mnemonic::Jo || m == Mnemonic::Jno || m == Mnemonic::Jp || m == Mnemonic::Jnp
    ||| m == Mnemonic::Jcxz || m == Mnemonic::Jecxz || m == Mnemonic::Jrcxz
    ||| m == Mnemonic::Loop || m == Mnemonic::Loope || m == Mnemonic::Loopne
}

/// A return from a function or an interrupt.
pub open spec fn returns_from(m: Mnemonic) -> bool {
    ||| m == Mnemonic::Ret || m == Mnemonic::Retf
    ||| m == Mnemonic::Iret || m == Mnemonic::Iretd || m == Mnemonic::Iretq
}

/// An address is to be looked at exactly if the instruction jumps there, always and by naming it or
/// under a condition; the sweep goes on exactly behind an instruction that neither always jumps nor
/// returns, while there were no more than 4096 instructions, unless behind it, and not behind the
/// first one, another function is known to start.
pub proof fn lemma_move(instr: Instr, start: u64, count: nat, known: bool)
    ensures
        move_after(instr, start, count, known).target == Some(instr.near_branch_target)
            <==> may_jump(instr.mnemonic) || always_jumps(instr.mnemonic) && (instr.op0.kind
            == OpKind::NearBranch16 || instr.op0.kind == OpKind::NearBranch32 || instr.op0.kind
            == OpKind::NearBranch64),
        move_after(instr, start, count, known).target matches Some(t) ==> t
            == instr.near_branch_target,
        !move_after(instr, start, count, known).stop <==> {
            &&& !always_jumps(instr.mnemonic) && !returns_from(instr.mnemonic)
            &&& count <= 4096
            &&& count > 1 && known ==> instr.next_ip == start
        },
{
}

/// Where an instruction of a function jumps, always and by naming the address or under a condition,
/// there is an instruction of the function, if a section has the byte there.
pub proof fn lemma_jumps_followed(bin: BinaryModel, start: u64, i: int)
    requires
        0 <= i < instrs_of(bin, start).len(),
    ensures
        ({
            let instr = instrs_of(bin, start)[i].instr;
            let kind = instr.op0.kind;
            (may_jump(instr.mnemonic) || always_jumps(instr.mnemonic) && (kind
                == OpKind::NearBranch16 || kind == OpKind::NearBranch32 || kind
                == OpKind::NearBranch64)) && present(bin, instr.near_branch_target) ==> exists|
                k: int,
            |
                0 <= k < instrs_of(bin, start).len() && (#[trigger] instrs_of(
                    bin,
                    start,
                )[k]).address == instr.near_branch_target
        }),
{
    let items = instrs_of(bin, start);
    let t = items[i].instr.near_branch_target;
    lemma_targets_found(bin, start, i);
    let j = lemma_tail_bytes(bin.sections, t);
    let keys = addresses(items);
    if keys.contains(t) {
        let k = choose|k: int| 0 <= k < keys.len() && keys[k] == t;
        assert(items[k].address == t);
    }
}

} // verus!

//! What has been written is what is read.
use vstd::arithmetic::div_mod::{
    lemma_add_mod_noop, lemma_mod_add_multiples_vanish, lemma_mod_breakdown,
};
use vstd::prelude::*;

use super::machine::{
    address, at, became, bound, bytes_at, bytes_put, content, lemma_low, load, low, operand_width,
    part, scaled, size, span, store, value, weight, writable, World,
};
use super::meaning::Lift;
use super::Width;
use crate::x86::{Instr, OpKind};

verus! {

proof fn lemma_elsewhere(mem: Map<int, int>, key: int, x: int, addr: int, n: int)
    requires
        forall|i: int| 0 <= i < n ==> #[trigger] low(addr + i, Width::W64) != key,
    ensures
        bytes_at(mem.insert(key, x), addr, n) == bytes_at(mem, addr, n),
    decreases n,
{
    if n > 0 {
        lemma_elsewhere(mem, key, x, addr, n - 1);
        assert(low(addr + (n - 1), Width::W64) != key);
        assert(addr + (n - 1) == addr + n - 1);
    }
}

proof fn lemma_weight(n: int)
    ensures
        weight(n) > 0,
        n > 0 ==> weight(n) == weight(n - 1) * 256,
    decreases n,
{
    if n > 0 {
        lemma_weight(n - 1);
    }
}

/// Two places less than eight bytes apart are different.
proof fn lemma_apart(x: int, d: int)
    requires
        0 < d < 8,
    ensures
        low(x, Width::W64) != low(x + d, Width::W64),
{
    let m = span(Width::W64);
    let r = x % m;
    lemma_add_mod_noop(x, d, m);
    lemma_low(d, Width::W64);
    assert((x + d) % m == (r + d) % m);
    if r + d < m {
        lemma_low(r + d, Width::W64);
    } else {
        lemma_mod_add_multiples_vanish(r + d - m, m);
        lemma_low(r + d - m, Width::W64);
    }
}

/// The bytes of a number, put somewhere, are read back.
proof fn lemma_bytes_back(mem: Map<int, int>, addr: int, v: int, n: int)
    requires
        0 <= n <= 8,
        0 <= v,
    ensures
        bytes_at(bytes_put(mem, addr, v, n), addr, n) == v % weight(n),
    decreases n,
{
    lemma_weight(n);
    if n > 0 {
        let before = bytes_put(mem, addr, v, n - 1);
        let key = low(addr + n - 1, Width::W64);
        let x = (v / weight(n - 1)) % 256;
        lemma_bytes_back(mem, addr, v, n - 1);
        assert forall|i: int| 0 <= i < n - 1 implies #[trigger] low(addr + i, Width::W64)
            != key by {
            lemma_apart(addr + i, (n - 1) - i);
        }
        lemma_elsewhere(before, key, x, addr, n - 1);
        lemma_weight(n - 1);
        lemma_mod_breakdown(v, weight(n - 1), 256);
        assert(weight(n - 1) * x == x * weight(n - 1)) by (nonlinear_arith);
    } else {
        assert(v % 1 == 0);
    }
}

/// A number that has been put into memory is what is read there, in its width.
pub proof fn lemma_load_stored(mem: Map<int, int>, addr: int, w: Width, v: int)
    ensures
        load(store(mem, addr, w, v), addr, w) == v % span(w),
{
    reveal_with_fuel(weight, 9);
    assert(weight(1) == 256);
    assert(weight(2) == 0x1_0000);
    assert(weight(4) == 0x1_0000_0000);
    assert(weight(8) == 0x1_0000_0000_0000_0000);
    lemma_bytes_back(mem, addr, low(v, w), size(w));
    lemma_low(v, w);
}

/// An operand that has been given a value has it, in its width.
pub proof fn lemma_read_back(l: Lift, m: Lift, s: World, instr: Instr, n: int, v: int)
    requires
        writable(l, instr, n),
        became(l, m, s, instr, n, v),
    ensures
        value(m, s, instr, n) == v % span(operand_width(l, instr, n)),
{
    if instr.operand(n).kind == OpKind::Memory {
        let base = instr.memory.base;
        let index = instr.memory.index;
        if bound(l, base) {
            assert(content(m, s, base) == content(l, s, base));
        }
        if bound(l, index) {
            assert(content(m, s, index) == content(l, s, index));
        }
        assert(part(m, s, instr, base) == part(l, s, instr, base));
        assert(scaled(m, s, instr) == scaled(l, s, instr));
        assert(address(m, s, instr) == address(l, s, instr));
        lemma_load_stored(at(l, s).mem, address(l, s, instr), operand_width(l, instr, n), v);
    }
}

} // verus!

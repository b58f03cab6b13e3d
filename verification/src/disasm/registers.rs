//! Registers, jumps and branches by the numbers of the decoder.
use vstd::prelude::*;

use super::kinds::{bits_of, branches, canonical, is_near, jumps, leaves_function};
use super::{DisasmFunction, DisasmInstr};
use crate::x86::{Mnemonic, OpKind, Register};

verus! {

/// The number of the register that a register is part of. The full registers have the numbers 53 to
/// 68. Their low bytes have the numbers 1 to 4 and 9 to 20, the high bytes of the first four 5 to 8;
/// their parts of 16 and of 32 bits have sixteen numbers each behind that.
pub open spec fn full_number(n: u16) -> int {
    if 1 <= n <= 4 {
        52 + n
    } else if 5 <= n <= 8 {
        48 + n
    } else if 9 <= n <= 20 {
        48 + n
    } else if 21 <= n <= 36 {
        32 + n
    } else if 37 <= n <= 52 {
        16 + n
    } else {
        n as int
    }
}

/// A register with a name is part of the full register with the same place in its row; any other
/// register is a full one of its own. Its bits go by its row.
pub proof fn lemma_registers(r: Register)
    ensures
        !(r is Other) ==> canonical(r).number() == full_number(r.number()) && !(canonical(r)
            is Other),
        r is Other ==> canonical(r) == r,
        ({
            let n = r.number();
            &&& !(r is Other) ==> {
                &&& 1 <= n <= 20 <==> bits_of(r) == 8
                &&& 21 <= n <= 36 <==> bits_of(r) == 16
                &&& 37 <= n <= 52 || n == 69 <==> bits_of(r) == 32
                &&& n == 0 || 53 <= n <= 68 || n == 70 <==> bits_of(r) == 64
            }
            &&& r is Other ==> {
                &&& 71 <= n <= 76 <==> bits_of(r) == 16
                &&& 77 <= n <= 108 || 181 <= n <= 184 <==> bits_of(r) == 128
                &&& 109 <= n <= 140 <==> bits_of(r) == 256
                &&& 141 <= n <= 172 <==> bits_of(r) == 512
                &&& 217 <= n <= 224 <==> bits_of(r) == 80
                &&& 233 <= n <= 240 <==> bits_of(r) == 32
                &&& 241 <= n <= 248 <==> bits_of(r) == 8192
                &&& !(71 <= n <= 172 || 181 <= n <= 184 || 217 <= n <= 224 || 233 <= n <= 248)
                    <==> bits_of(r) == 64
            }
        }),
{
}

/// Jumps, branches and returns by their numbers: the row of jumps but for the unconditional one,
/// the three loop instructions, and the returns from functions and interrupts.
pub proof fn lemma_jumps(m: Mnemonic, kind: OpKind)
    ensures
        ({
            let n = m.number();
            &&& !(m is Other) ==> (branches(m) <==> 297 <= n <= 307 || 310 <= n <= 317 || 390 <= n
                <= 392)
            &&& !(m is Other) ==> (jumps(m) <==> n == 308)
            &&& !(m is Other) ==> (leaves_function(m) <==> n == 662 || n == 663 || n == 296 || n
                == 1618 || n == 1619)
            &&& m is Other ==> !branches(m) && !jumps(m) && !leaves_function(m)
        }),
        !(kind is Other) ==> (is_near(kind) <==> 1 <= kind.number() <= 3),
        kind is Other ==> !is_near(kind),
{
}

/// The models hold what the values hold.
pub proof fn lemma_models(item: DisasmInstr, code: DisasmFunction)
    ensures
        item@.address == item.address && item@.bytes == item.bytes@ && item@.instr == item.instr,
        code@.address == code.address && code@.name == code.name@,
        code@.instrs.len() == code.instrs@.len(),
        forall|i: int|
            0 <= i < code.instrs@.len() ==> #[trigger] code@.instrs[i] == code.instrs@[i]@,
{
}

} // verus!

//! A decompiler from x86 and x86-64 binaries to C.
//!
//! A binary is loaded ([`binary`]), its functions are found and disassembled ([`disasm`]), lifted
//! to an intermediate representation ([`ir`]), analysed ([`analysis`]) and written as C
//! ([`codegen`]); [`pipeline`] puts these steps together.
use vstd::prelude::*;

pub mod analysis;
pub mod binary;
pub mod codegen;
pub mod disasm;
pub mod finite;
pub mod ir;
pub mod listing;
pub mod numerals;
pub mod overview;
pub mod pipeline;
pub mod sorted;
pub mod text;
pub mod x86;

verus! {

} // verus!

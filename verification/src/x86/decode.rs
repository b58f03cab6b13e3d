//! Decoding of machine code.
use iced_x86::{Decoder, DecoderOptions};
use vstd::prelude::*;

use super::{Instr, Memory, MemorySize, Mnemonic, OpKind, Operand, Register};

verus! {

/// What the decoder says of an instruction as a whole, with the decoder's numbers for operation,
/// registers and size.
#[derive(Debug, Clone, Copy, PartialEq, Eq, Structural)]
pub struct Head {
    pub ip: u64,
    pub len: usize,
    pub next_ip: u64,
    pub mnemonic: u16,
    pub op_count: u32,
    pub target: u64,
    pub base: u16,
    pub index: u16,
    pub scale: u32,
    pub displacement: u64,
    pub size: u8,
}

/// What the decoder says of an operand: the numbers of its kind and register, and its value where
/// it is an immediate one.
pub type RawOperand = (u8, u16, Option<u64>);

/// The first instruction of `code` at address `ip`, as `Decoder::decode` gives it: all but its
/// operands.
pub uninterp spec fn decoded_head(bitness: u32, code: Seq<u8>, ip: u64) -> Head;

/// The first three operands of the first instruction of `code` at address `ip`, as
/// `Decoder::decode` gives it.
pub uninterp spec fn decoded_operands(bitness: u32, code: Seq<u8>, ip: u64) -> (
    RawOperand,
    RawOperand,
    RawOperand,
);

/// `Decoder::decode` of a new decoder depends on the bitness, the bytes and the address alone. It
/// takes at least one byte, at most fifteen and no more than there are, keeps the address, and
/// the next address is behind the bytes, modulo 2^64. What an instruction is, is not stated: only
/// that it is the same for the same arguments.
#[verifier::external_body]
fn decode_head(bitness: u32, code: &[u8], ip: u64) -> (head: Head)
    requires
        bitness == 32 || bitness == 64,
        code@.len() > 0,
    ensures
        head == decoded_head(bitness, code@, ip),
        head.ip == ip,
        1 <= head.len <= 15,
        head.len <= code@.len(),
        head.next_ip == ip.wrapping_add(head.len as u64),
{
    let i = Decoder::with_ip(bitness, code, ip, DecoderOptions::NONE).decode();
    Head {
        ip: i.ip(),
        len: i.len(),
        next_ip: i.next_ip(),
        mnemonic: i.mnemonic() as u16,
        op_count: i.op_count(),
        target: i.near_branch_target(),
        base: i.memory_base() as u16,
        index: i.memory_index() as u16,
        scale: i.memory_index_scale(),
        displacement: i.memory_displacement64(),
        size: i.memory_size() as u8,
    }
}

/// The operands of the instruction that `Decoder::decode` of a new decoder gives: kind, register
/// and `try_immediate` of each. They depend on the bitness, the bytes and the address alone.
#[verifier::external_body]
fn decode_operands(bitness: u32, code: &[u8], ip: u64) -> (ops: (
    RawOperand,
    RawOperand,
    RawOperand,
))
    requires
        bitness == 32 || bitness == 64,
        code@.len() > 0,
    ensures
        ops == decoded_operands(bitness, code@, ip),
{
    let i = Decoder::with_ip(bitness, code, ip, DecoderOptions::NONE).decode();
    (
        (i.op_kind(0) as u8, i.op_register(0) as u16, i.try_immediate(0).ok()),
        (i.op_kind(1) as u8, i.op_register(1) as u16, i.try_immediate(1).ok()),
        (i.op_kind(2) as u8, i.op_register(2) as u16, i.try_immediate(2).ok()),
    )
}

/// The name of the operation with the given number, as `Mnemonic` has it for debugging.
pub uninterp spec fn mnemonic_name(code: u16) -> Option<Seq<char>>;

/// `Mnemonic::try_from` and the `Debug` text of what it gives; they depend on the number alone,
/// and there are 1894 operations.
#[verifier::external_body]
fn mnemonic_text(code: u16) -> (text: Option<String>)
    ensures
        text is Some <==> code < 1894,
        text is Some <==> mnemonic_name(code) is Some,
        text matches Some(t) ==> mnemonic_name(code) == Some(t@),
{
    iced_x86::Mnemonic::try_from(code as usize).ok().map(|m| format!("{:?}", m))
}

/// The name of the kind of operand with the given number, as `OpKind` has it for debugging.
pub uninterp spec fn op_kind_name(code: u8) -> Option<Seq<char>>;

/// `OpKind::try_from` and the `Debug` text of what it gives; they depend on the number alone, and
/// there are 25 kinds.
#[verifier::external_body]
fn op_kind_text(code: u8) -> (text: Option<String>)
    ensures
        text is Some <==> code < 25,
        text is Some <==> op_kind_name(code) is Some,
        text matches Some(t) ==> op_kind_name(code) == Some(t@),
{
    iced_x86::OpKind::try_from(code as usize).ok().map(|k| format!("{:?}", k))
}

impl Mnemonic {
    /// The name of the operation; empty for a number without one.
    pub open spec fn text(self) -> Seq<char> {
        match mnemonic_name(self.number()) {
            Some(t) => t,
            None => Seq::empty(),
        }
    }

    /// The name of the operation; empty for a number without one.
    pub fn to_text(self) -> (text: String)
        ensures
            text@ == self.text(),
    {
        match mnemonic_text(self.code()) {
            Some(t) => t,
            None => {
                let none = String::new();
                assert(none@ =~= Seq::empty());
                none
            },
        }
    }
}

impl OpKind {
    /// The name of the kind; empty for a number without one.
    pub open spec fn text(self) -> Seq<char> {
        match op_kind_name(self.number()) {
            Some(t) => t,
            None => Seq::empty(),
        }
    }

    /// The name of the kind; empty for a number without one.
    pub fn to_text(self) -> (text: String)
        ensures
            text@ == self.text(),
    {
        match op_kind_text(self.code()) {
            Some(t) => t,
            None => {
                let none = String::new();
                assert(none@ =~= Seq::empty());
                none
            },
        }
    }
}

impl Operand {
    /// The operand that the decoder describes.
    pub open spec fn of_raw(raw: RawOperand) -> Operand {
        Operand {
            kind: OpKind::of_number(raw.0),
            register: Register::of_number(raw.1),
            immediate: match raw.2 {
                Some(v) => v,
                None => 0,
            },
        }
    }

    pub fn from_raw(raw: RawOperand) -> (operand: Self)
        ensures
            operand == Operand::of_raw(raw),
    {
        Operand {
            kind: OpKind::from_code(raw.0),
            register: Register::from_code(raw.1),
            immediate: match raw.2 {
                Some(v) => v,
                None => 0,
            },
        }
    }
}

impl Instr {
    /// The instruction that the decoder describes.
    pub open spec fn of_raw(head: Head, ops: (RawOperand, RawOperand, RawOperand)) -> Instr {
        Instr {
            ip: head.ip,
            len: head.len,
            next_ip: head.next_ip,
            mnemonic: Mnemonic::of_number(head.mnemonic),
            op_count: head.op_count,
            op0: Operand::of_raw(ops.0),
            op1: Operand::of_raw(ops.1),
            op2: Operand::of_raw(ops.2),
            near_branch_target: head.target,
            memory: Memory {
                base: Register::of_number(head.base),
                index: Register::of_number(head.index),
                scale: head.scale,
                displacement: head.displacement,
                size: MemorySize::of_number(head.size),
            },
        }
    }

    /// The instruction with the given parts.
    pub fn from_raw(head: Head, ops: (RawOperand, RawOperand, RawOperand)) -> (instr: Self)
        ensures
            instr == Instr::of_raw(head, ops),
    {
        Instr {
            ip: head.ip,
            len: head.len,
            next_ip: head.next_ip,
            mnemonic: Mnemonic::from_code(head.mnemonic),
            op_count: head.op_count,
            op0: Operand::from_raw(ops.0),
            op1: Operand::from_raw(ops.1),
            op2: Operand::from_raw(ops.2),
            near_branch_target: head.target,
            memory: Memory {
                base: Register::from_code(head.base),
                index: Register::from_code(head.index),
                scale: head.scale,
                displacement: head.displacement,
                size: MemorySize::from_code(head.size),
            },
        }
    }
}

/// The first instruction of `code` at address `ip`.
pub open spec fn instr_at(bitness: u32, code: Seq<u8>, ip: u64) -> Instr {
    Instr::of_raw(decoded_head(bitness, code, ip), decoded_operands(bitness, code, ip))
}

/// Decodes the first instruction of `code` at address `ip`.
pub fn decode(bitness: u32, code: &[u8], ip: u64) -> (instr: Instr)
    requires
        bitness == 32 || bitness == 64,
        code@.len() > 0,
    ensures
        instr == instr_at(bitness, code@, ip),
        instr.ip == ip,
        1 <= instr.len <= 15,
        instr.len <= code@.len(),
        instr.next_ip == ip.wrapping_add(instr.len as u64),
{
    Instr::from_raw(decode_head(bitness, code, ip), decode_operands(bitness, code, ip))
}

} // verus!

use vstd::prelude::*;

use super::{sleb, uleb, ValueType, WasmEncodable};

verus! {

/// The stack-machine instructions that the compiler emits.
#[derive(Debug, PartialEq, Eq, Clone, Copy)]
pub enum Instruction {
    Loop(Option<ValueType>),
    If(Option<ValueType>),
    Else,
    End,
    Break(usize),
    Unreachable,
    Call(usize),
    Drop,
    LocalGetI32(usize),
    LocalSetI32(usize),
    LocalTeeI32(usize),
    LoadI32(usize, usize),
    StoreI32(usize, usize),
    ConstI32(i32),
    EqualI32,
    NotEqualI32,
    LessThanSignedI32,
    GreaterThanSignedI32,
    LessThanOrEqualSignedI32,
    GreaterThanOrEqualSignedI32,
    AddI32,
    SubtractI32,
    MultiplyI32,
    DivideSignedI32,
    AndI32,
    OrI32,
}

/// The block type of a structured instruction: a value type, or `0x40` for none.
pub open spec fn block_type(t: Option<ValueType>) -> Seq<u8> {
    match t {
        Some(t) => t.encoding(),
        None => seq![0x40u8],
    }
}

fn encode_block_type(t: Option<ValueType>) -> (r: Vec<u8>)
    ensures
        r@ == block_type(t),
{
    match t {
        Some(t) => t.wasm_encode(),
        None => vec![0x40],
    }
}

/// An opcode followed by the encoding of its operand.
fn with_operand(opcode: u8, mut operand: Vec<u8>) -> (r: Vec<u8>)
    ensures
        r@ == seq![opcode] + operand@,
{
    let mut result = vec![opcode];
    result.append(&mut operand);
    result
}

impl WasmEncodable for Instruction {
    open spec fn encoding(&self) -> Seq<u8> {
        match *self {
            Instruction::Loop(t) => seq![0x03u8] + block_type(t),
            Instruction::If(t) => seq![0x04u8] + block_type(t),
            Instruction::Else => seq![0x05u8],
            Instruction::End => seq![0x0bu8],
            Instruction::Break(depth) => seq![0x0cu8] + uleb(depth as nat),
            Instruction::Unreachable => seq![0x00u8],
            Instruction::Call(index) => seq![0x10u8] + uleb(index as nat),
            Instruction::Drop => seq![0x1au8],
            Instruction::LocalGetI32(index) => seq![0x20u8] + uleb(index as nat),
            Instruction::LocalSetI32(index) => seq![0x21u8] + uleb(index as nat),
            Instruction::LocalTeeI32(index) => seq![0x22u8] + uleb(index as nat),
            Instruction::LoadI32(align, offset) => seq![0x28u8] + uleb(align as nat) + uleb(
                offset as nat,
            ),
            Instruction::StoreI32(align, offset) => seq![0x36u8] + uleb(align as nat) + uleb(
                offset as nat,
            ),
            Instruction::ConstI32(value) => seq![0x41u8] + sleb(value as int),
            Instruction::EqualI32 => seq![0x46u8],
            Instruction::NotEqualI32 => seq![0x47u8],
            Instruction::LessThanSignedI32 => seq![0x48u8],
            Instruction::GreaterThanSignedI32 => seq![0x4au8],
            Instruction::LessThanOrEqualSignedI32 => seq![0x4cu8],
            Instruction::GreaterThanOrEqualSignedI32 => seq![0x4eu8],
            Instruction::AddI32 => seq![0x6au8],
            Instruction::SubtractI32 => seq![0x6bu8],
            Instruction::MultiplyI32 => seq![0x6cu8],
            Instruction::DivideSignedI32 => seq![0x6du8],
            Instruction::AndI32 => seq![0x71u8],
            Instruction::OrI32 => seq![0x72u8],
        }
    }

    fn wasm_encode(&self) -> (r: Vec<u8>) {
        match *self {
            Instruction::Loop(t) => with_operand(0x03, encode_block_type(t)),
            Instruction::If(t) => with_operand(0x04, encode_block_type(t)),
            Instruction::Else => vec![0x05],
            Instruction::End => vec![0x0b],
            Instruction::Break(depth) => with_operand(0x0c, depth.wasm_encode()),
            Instruction::Unreachable => vec![0x00],
            Instruction::Call(index) => with_operand(0x10, index.wasm_encode()),
            Instruction::Drop => vec![0x1a],
            Instruction::LocalGetI32(index) => with_operand(0x20, index.wasm_encode()),
            Instruction::LocalSetI32(index) => with_operand(0x21, index.wasm_encode()),
            Instruction::LocalTeeI32(index) => with_operand(0x22, index.wasm_encode()),
            Instruction::LoadI32(align, offset) => {
                let mut result = with_operand(0x28, align.wasm_encode());
                let mut rest = offset.wasm_encode();
                result.append(&mut rest);
                result
            },
            Instruction::StoreI32(align, offset) => {
                let mut result = with_operand(0x36, align.wasm_encode());
                let mut rest = offset.wasm_encode();
                result.append(&mut rest);
                result
            },
            Instruction::ConstI32(value) => with_operand(0x41, value.wasm_encode()),
            Instruction::EqualI32 => vec![0x46],
            Instruction::NotEqualI32 => vec![0x47],
            Instruction::LessThanSignedI32 => vec![0x48],
            Instruction::GreaterThanSignedI32 => vec![0x4a],
            Instruction::LessThanOrEqualSignedI32 => vec![0x4c],
            Instruction::GreaterThanOrEqualSignedI32 => vec![0x4e],
            Instruction::AddI32 => vec![0x6a],
            Instruction::SubtractI32 => vec![0x6b],
            Instruction::MultiplyI32 => vec![0x6c],
            Instruction::DivideSignedI32 => vec![0x6d],
            Instruction::AndI32 => vec![0x71],
            Instruction::OrI32 => vec![0x72],
        }
    }
}

} // verus!

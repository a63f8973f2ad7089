use vstd::prelude::*;

use crate::wasm::{concat_encodings, uleb, Instruction, ValueType, WasmEncodable};

use super::Section;

verus! {

/// The body of one function: its locals as runs of `(count, type)`, then its instructions.
pub struct FunctionCode {
    pub locals: Vec<(usize, ValueType)>,
    pub instructions: Vec<Instruction>,
}

/// The bytes of a function body before its length prefix.
pub open spec fn body_bytes(locals: Seq<(usize, ValueType)>, instructions: Seq<Instruction>) -> Seq<
    u8,
> {
    uleb(locals.len()) + concat_encodings(locals) + concat_encodings(instructions)
}

/// Encodes instructions one after another, with no length prefix.
pub fn encode_instructions(instructions: &Vec<Instruction>) -> (r: Vec<u8>)
    ensures
        r@ == concat_encodings(instructions@),
{
    let mut result = Vec::new();
    let mut i: usize = 0;
    while i < instructions.len()
        invariant
            i <= instructions@.len(),
            result@ == concat_encodings(instructions@.subrange(0, i as int)),
        decreases instructions@.len() - i,
    {
        let mut item = instructions[i].wasm_encode();
        result.append(&mut item);
        proof {
            assert(instructions@.subrange(0, i + 1).drop_last() == instructions@.subrange(
                0,
                i as int,
            ));
        }
        i = i + 1;
    }
    assert(instructions@.subrange(0, instructions@.len() as int) == instructions@);
    result
}

impl WasmEncodable for FunctionCode {
    open spec fn encoding(&self) -> Seq<u8> {
        let body = body_bytes(self.locals@, self.instructions@);
        uleb(body.len()) + body
    }

    fn wasm_encode(&self) -> (r: Vec<u8>) {
        let mut body = self.locals.wasm_encode();
        let mut instructions = encode_instructions(&self.instructions);
        body.append(&mut instructions);
        let mut result = body.len().wasm_encode();
        result.append(&mut body);
        result
    }
}

impl FunctionCode {
    pub fn new(locals: Vec<(usize, ValueType)>, instructions: Vec<Instruction>) -> (r: Self)
        ensures
            r.locals@ == locals@,
            r.instructions@ == instructions@,
    {
        Self { locals, instructions }
    }
}

/// Section 10: the bodies of the module's own functions, in declaration order.
pub struct CodeSection {
    pub functions: Vec<FunctionCode>,
}

impl Section for CodeSection {
    type Contents = Vec<FunctionCode>;

    open spec fn spec_id() -> u8 {
        10
    }

    open spec fn spec_contents(&self) -> Vec<FunctionCode> {
        self.functions
    }

    fn id() -> (r: u8) {
        10
    }

    fn contents(&self) -> (r: &Vec<FunctionCode>) {
        &self.functions
    }
}

impl Default for CodeSection {
    fn default() -> (r: Self)
        ensures
            r.functions@.len() == 0,
    {
        Self { functions: Vec::new() }
    }
}

impl CodeSection {
    pub fn add_function(&mut self, locals: Vec<(usize, ValueType)>, instructions: Vec<Instruction>)
        ensures
            final(self).functions@.len() == old(self).functions@.len() + 1,
            final(self).functions@.drop_last() == old(self).functions@,
            final(self).functions@.last().locals@ == locals@,
            final(self).functions@.last().instructions@ == instructions@,
    {
        let function = FunctionCode::new(locals, instructions);
        self.functions.push(function);
    }
}

} // verus!

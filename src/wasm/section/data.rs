use vstd::prelude::*;

use crate::wasm::{Instruction, WasmEncodable};

use super::Section;

verus! {

/// An active data segment: `data` is copied into memory `memory` at `offset`.
pub struct Data {
    pub memory: usize,
    pub offset: usize,
    pub data: Vec<u8>,
}

impl WasmEncodable for Data {
    open spec fn encoding(&self) -> Seq<u8> {
        self.memory.encoding() + Instruction::ConstI32(self.offset as i32).encoding()
            + Instruction::End.encoding() + self.data.encoding()
    }

    fn wasm_encode(&self) -> (r: Vec<u8>) {
        let mut result = self.memory.wasm_encode();
        let mut offset = Instruction::ConstI32(self.offset as i32).wasm_encode();
        let mut end = Instruction::End.wasm_encode();
        let mut data = self.data.wasm_encode();
        result.append(&mut offset);
        result.append(&mut end);
        result.append(&mut data);
        result
    }
}

/// Section 11: the data segments, in the order they were added.
pub struct DataSection {
    pub data: Vec<Data>,
}

impl Section for DataSection {
    type Contents = Vec<Data>;

    open spec fn spec_id() -> u8 {
        11
    }

    open spec fn spec_contents(&self) -> Vec<Data> {
        self.data
    }

    fn id() -> (r: u8) {
        11
    }

    fn contents(&self) -> (r: &Vec<Data>) {
        &self.data
    }
}

impl Default for DataSection {
    fn default() -> (r: Self)
        ensures
            r.data@.len() == 0,
    {
        Self { data: Vec::new() }
    }
}

impl DataSection {
    pub fn add_segment(&mut self, memory: usize, offset: usize, data: Vec<u8>)
        ensures
            final(self).data@.len() == old(self).data@.len() + 1,
            final(self).data@.drop_last() == old(self).data@,
            final(self).data@.last().memory == memory,
            final(self).data@.last().offset == offset,
            final(self).data@.last().data@ == data@,
    {
        self.data.push(Data { memory, offset, data });
    }
}

} // verus!

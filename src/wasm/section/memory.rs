use vstd::prelude::*;

use crate::wasm::WasmEncodable;

use super::Section;

verus! {

/// The limits of a linear memory, in 64 KiB pages.
pub enum Memory {
    Minimum(usize),
    MinimumAndMaximum(usize, usize),
}

impl WasmEncodable for Memory {
    open spec fn encoding(&self) -> Seq<u8> {
        match *self {
            Memory::Minimum(min) => seq![0x00u8] + min.encoding(),
            Memory::MinimumAndMaximum(min, max) => seq![0x01u8] + min.encoding()
                + max.encoding(),
        }
    }

    fn wasm_encode(&self) -> (r: Vec<u8>) {
        match *self {
            Memory::Minimum(min) => {
                let mut result = vec![0x00u8];
                let mut min = min.wasm_encode();
                result.append(&mut min);
                result
            },
            Memory::MinimumAndMaximum(min, max) => {
                let mut result = vec![0x01u8];
                let mut min = min.wasm_encode();
                let mut max = max.wasm_encode();
                result.append(&mut min);
                result.append(&mut max);
                result
            },
        }
    }
}

/// Section 5: the memories, in the order they were added.
pub struct MemorySection {
    pub memories: Vec<Memory>,
}

impl Section for MemorySection {
    type Contents = Vec<Memory>;

    open spec fn spec_id() -> u8 {
        5
    }

    open spec fn spec_contents(&self) -> Vec<Memory> {
        self.memories
    }

    fn id() -> (r: u8) {
        5
    }

    fn contents(&self) -> (r: &Vec<Memory>) {
        &self.memories
    }
}

impl Default for MemorySection {
    fn default() -> (r: Self)
        ensures
            r.memories@.len() == 0,
    {
        Self { memories: Vec::new() }
    }
}

impl MemorySection {
    /// Adds a memory with the given limits and returns its index.
    pub fn add(&mut self, min: usize, max: Option<usize>) -> (r: usize)
        ensures
            final(self).memories@ == old(self).memories@.push(
                match max {
                    Some(max) => Memory::MinimumAndMaximum(min, max),
                    None => Memory::Minimum(min),
                },
            ),
            r == old(self).memories@.len(),
    {
        let memory = if let Some(max) = max {
            Memory::MinimumAndMaximum(min, max)
        } else {
            Memory::Minimum(min)
        };
        self.memories.push(memory);
        self.memories.len() - 1
    }
}

} // verus!

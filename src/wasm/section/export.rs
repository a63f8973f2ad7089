use vstd::prelude::*;

use crate::wasm::WasmEncodable;

use super::Section;

verus! {

/// What an export refers to: a function or a memory, by index.
pub enum ExportDescription {
    Function(usize),
    Memory(usize),
}

impl WasmEncodable for ExportDescription {
    open spec fn encoding(&self) -> Seq<u8> {
        match *self {
            ExportDescription::Function(index) => seq![0x00u8] + index.encoding(),
            ExportDescription::Memory(index) => seq![0x02u8] + index.encoding(),
        }
    }

    fn wasm_encode(&self) -> (r: Vec<u8>) {
        let (kind, index) = match *self {
            ExportDescription::Function(index) => (0x00u8, index),
            ExportDescription::Memory(index) => (0x02u8, index),
        };
        let mut result = vec![kind];
        let mut operand = index.wasm_encode();
        result.append(&mut operand);
        result
    }
}

/// A named export.
pub struct Export {
    pub name: String,
    pub description: ExportDescription,
}

impl WasmEncodable for Export {
    open spec fn encoding(&self) -> Seq<u8> {
        self.name.encoding() + self.description.encoding()
    }

    fn wasm_encode(&self) -> (r: Vec<u8>) {
        let mut result = self.name.wasm_encode();
        let mut description = self.description.wasm_encode();
        result.append(&mut description);
        result
    }
}

/// Section 7: the exports, in the order they were added.
pub struct ExportSection {
    pub exports: Vec<Export>,
}

impl Section for ExportSection {
    type Contents = Vec<Export>;

    open spec fn spec_id() -> u8 {
        7
    }

    open spec fn spec_contents(&self) -> Vec<Export> {
        self.exports
    }

    fn id() -> (r: u8) {
        7
    }

    fn contents(&self) -> (r: &Vec<Export>) {
        &self.exports
    }
}

impl Default for ExportSection {
    fn default() -> (r: Self)
        ensures
            r.exports@.len() == 0,
    {
        Self { exports: Vec::new() }
    }
}

impl ExportSection {
    pub fn add_function(&mut self, name: &str, index: usize)
        ensures
            final(self).exports@.len() == old(self).exports@.len() + 1,
            final(self).exports@.drop_last() == old(self).exports@,
            final(self).exports@.last().name@ == name@,
            final(self).exports@.last().description == ExportDescription::Function(index),
    {
        self.add(name, ExportDescription::Function(index));
    }

    pub fn add_memory(&mut self, name: &str, index: usize)
        ensures
            final(self).exports@.len() == old(self).exports@.len() + 1,
            final(self).exports@.drop_last() == old(self).exports@,
            final(self).exports@.last().name@ == name@,
            final(self).exports@.last().description == ExportDescription::Memory(index),
    {
        self.add(name, ExportDescription::Memory(index));
    }

    fn add(&mut self, name: &str, description: ExportDescription)
        ensures
            final(self).exports@.len() == old(self).exports@.len() + 1,
            final(self).exports@.drop_last() == old(self).exports@,
            final(self).exports@.last().name@ == name@,
            final(self).exports@.last().description == description,
    {
        let export = Export { name: name.to_owned(), description };
        self.exports.push(export);
        assert(self.exports@.drop_last() == old(self).exports@);
    }
}

} // verus!

use vstd::prelude::*;

use super::section::{
    interned, CodeSection, DataSection, ExportDescription, ExportSection, FunctionSection,
    ImportDescription, ImportSection, Memory, MemorySection, TypeSection,
};
use super::{Instruction, ValueType, WasmEncodable};

verus! {

/// The magic number `\0asm` followed by version 1 as a little-endian `u32`.
pub open spec fn header() -> Seq<u8> {
    seq![0x00u8, 0x61u8, 0x73u8, 0x6du8, 0x01u8, 0x00u8, 0x00u8, 0x00u8]
}

/// A module under construction: it owns one section of each kind.
pub struct Module {
    pub types: TypeSection,
    pub imports: ImportSection,
    pub functions: FunctionSection,
    pub memories: MemorySection,
    pub exports: ExportSection,
    pub code: CodeSection,
    pub data: DataSection,
}

impl Default for Module {
    fn default() -> (r: Self)
        ensures
            r.wf(),
            r.types@.len() == 0,
            r.imports.imports@.len() == 0,
            r.functions.types@.len() == 0,
            r.memories.memories@.len() == 0,
            r.exports.exports@.len() == 0,
            r.code.functions@.len() == 0,
            r.data.data@.len() == 0,
    {
        Module {
            types: TypeSection::default(),
            imports: ImportSection::default(),
            functions: FunctionSection::default(),
            memories: MemorySection::default(),
            exports: ExportSection::default(),
            code: CodeSection::default(),
            data: DataSection::default(),
        }
    }
}

impl WasmEncodable for Module {
    /// The header, then the sections in ascending order of id.
    open spec fn encoding(&self) -> Seq<u8> {
        header() + self.types.encoding() + self.imports.encoding() + self.functions.encoding()
            + self.memories.encoding() + self.exports.encoding() + self.code.encoding()
            + self.data.encoding()
    }

    fn wasm_encode(&self) -> (r: Vec<u8>) {
        let mut result = vec![0x00u8, 0x61, 0x73, 0x6d, 0x01, 0x00, 0x00, 0x00];
        let mut types = self.types.wasm_encode();
        let mut imports = self.imports.wasm_encode();
        let mut functions = self.functions.wasm_encode();
        let mut memories = self.memories.wasm_encode();
        let mut exports = self.exports.wasm_encode();
        let mut code = self.code.wasm_encode();
        let mut data = self.data.wasm_encode();
        result.append(&mut types);
        result.append(&mut imports);
        result.append(&mut functions);
        result.append(&mut memories);
        result.append(&mut exports);
        result.append(&mut code);
        result.append(&mut data);
        assert(result@ =~= self.encoding());
        result
    }
}

impl Module {
    /// The type section holds no signature twice.
    pub open spec fn wf(&self) -> bool {
        self.types.wf()
    }

    /// Imports a host function from the module `waferImports`, with its signature interned.
    pub fn add_import(&mut self, name: &str, parameters: Vec<ValueType>, results: Vec<ValueType>)
        requires
            old(self).wf(),
        ensures
            final(self).wf(),
            final(self).types@ == interned(old(self).types@, (parameters@, results@)).0,
            final(self).imports.imports@.drop_last() == old(self).imports.imports@,
            final(self).imports.imports@.len() == old(self).imports.imports@.len() + 1,
            final(self).imports.imports@.last().module_name@ == "waferImports"@,
            final(self).imports.imports@.last().function_name@ == name@,
            final(self).imports.imports@.last().description == ImportDescription::Function(
                interned(old(self).types@, (parameters@, results@)).1 as usize,
            ),
            final(self).functions == old(self).functions,
            final(self).memories == old(self).memories,
            final(self).exports == old(self).exports,
            final(self).code == old(self).code,
            final(self).data == old(self).data,
    {
        let type_index = self.types.add_function(parameters, results);
        self.imports.add_function("waferImports", name, type_index);
    }

    /// Declares a function with its signature interned and its body, and returns
    /// its index among the module's own functions (imports not counted).
    pub fn add_function(
        &mut self,
        parameters: Vec<ValueType>,
        results: Vec<ValueType>,
        locals: Vec<(usize, ValueType)>,
        instructions: Vec<Instruction>,
    ) -> (r: usize)
        requires
            old(self).wf(),
        ensures
            final(self).wf(),
            r == old(self).functions.types@.len(),
            final(self).types@ == interned(old(self).types@, (parameters@, results@)).0,
            final(self).functions.types@ == old(self).functions.types@.push(
                interned(old(self).types@, (parameters@, results@)).1 as usize,
            ),
            final(self).code.functions@.drop_last() == old(self).code.functions@,
            final(self).code.functions@.len() == old(self).code.functions@.len() + 1,
            final(self).code.functions@.last().locals@ == locals@,
            final(self).code.functions@.last().instructions@ == instructions@,
            final(self).imports == old(self).imports,
            final(self).memories == old(self).memories,
            final(self).exports == old(self).exports,
            final(self).data == old(self).data,
    {
        let type_index = self.types.add_function(parameters, results);
        let index = self.functions.add_function(type_index);
        self.code.add_function(locals, instructions);
        index
    }

    /// Exports the function with the given index in the function index space.
    pub fn export_function(&mut self, name: &str, index: usize)
        ensures
            final(self).exports.exports@.drop_last() == old(self).exports.exports@,
            final(self).exports.exports@.len() == old(self).exports.exports@.len() + 1,
            final(self).exports.exports@.last().name@ == name@,
            final(self).exports.exports@.last().description == ExportDescription::Function(
                index,
            ),
            final(self).types == old(self).types,
            final(self).imports == old(self).imports,
            final(self).functions == old(self).functions,
            final(self).memories == old(self).memories,
            final(self).code == old(self).code,
            final(self).data == old(self).data,
    {
        self.exports.add_function(name, index);
    }

    /// Adds a memory with the given limits in pages and returns its index.
    pub fn add_memory(&mut self, min: usize, max: Option<usize>) -> (r: usize)
        ensures
            r == old(self).memories.memories@.len(),
            final(self).memories.memories@ == old(self).memories.memories@.push(
                match max {
                    Some(max) => Memory::MinimumAndMaximum(min, max),
                    None => Memory::Minimum(min),
                },
            ),
            final(self).types == old(self).types,
            final(self).imports == old(self).imports,
            final(self).functions == old(self).functions,
            final(self).exports == old(self).exports,
            final(self).code == old(self).code,
            final(self).data == old(self).data,
    {
        self.memories.add(min, max)
    }

    /// Exports the memory with the given index.
    pub fn export_memory(&mut self, name: &str, index: usize)
        ensures
            final(self).exports.exports@.drop_last() == old(self).exports.exports@,
            final(self).exports.exports@.len() == old(self).exports.exports@.len() + 1,
            final(self).exports.exports@.last().name@ == name@,
            final(self).exports.exports@.last().description == ExportDescription::Memory(index),
            final(self).types == old(self).types,
            final(self).imports == old(self).imports,
            final(self).functions == old(self).functions,
            final(self).memories == old(self).memories,
            final(self).code == old(self).code,
            final(self).data == old(self).data,
    {
        self.exports.add_memory(name, index);
    }

    /// Adds an active data segment that copies `data` into `memory` at `offset`.
    pub fn add_data_segment(&mut self, memory: usize, offset: usize, data: Vec<u8>)
        ensures
            final(self).data.data@.drop_last() == old(self).data.data@,
            final(self).data.data@.len() == old(self).data.data@.len() + 1,
            final(self).data.data@.last().memory == memory,
            final(self).data.data@.last().offset == offset,
            final(self).data.data@.last().data@ == data@,
            final(self).types == old(self).types,
            final(self).imports == old(self).imports,
            final(self).functions == old(self).functions,
            final(self).memories == old(self).memories,
            final(self).exports == old(self).exports,
            final(self).code == old(self).code,
    {
        self.data.add_segment(memory, offset, data);
    }
}

} // verus!

use vstd::prelude::*;

use crate::wasm::WasmEncodable;

use super::Section;

verus! {

/// What an import brings in: a function of the given type index.
pub enum ImportDescription {
    Function(usize),
}

impl WasmEncodable for ImportDescription {
    open spec fn encoding(&self) -> Seq<u8> {
        match *self {
            ImportDescription::Function(index) => seq![0x00u8] + index.encoding(),
        }
    }

    fn wasm_encode(&self) -> (r: Vec<u8>) {
        match *self {
            ImportDescription::Function(index) => {
                let mut result = vec![0x00u8];
                let mut operand = index.wasm_encode();
                result.append(&mut operand);
                result
            },
        }
    }
}

/// An import of `function_name` from the host module `module_name`.
pub struct Import {
    pub module_name: String,
    pub function_name: String,
    pub description: ImportDescription,
}

impl WasmEncodable for Import {
    open spec fn encoding(&self) -> Seq<u8> {
        self.module_name.encoding() + self.function_name.encoding() + self.description.encoding()
    }

    fn wasm_encode(&self) -> (r: Vec<u8>) {
        let mut result = self.module_name.wasm_encode();
        let mut function_name = self.function_name.wasm_encode();
        let mut description = self.description.wasm_encode();
        result.append(&mut function_name);
        result.append(&mut description);
        result
    }
}

/// Section 2: the imports, in the order they were added.
pub struct ImportSection {
    pub imports: Vec<Import>,
}

impl Section for ImportSection {
    type Contents = Vec<Import>;

    open spec fn spec_id() -> u8 {
        2
    }

    open spec fn spec_contents(&self) -> Vec<Import> {
        self.imports
    }

    fn id() -> (r: u8) {
        2
    }

    fn contents(&self) -> (r: &Vec<Import>) {
        &self.imports
    }
}

impl Default for ImportSection {
    fn default() -> (r: Self)
        ensures
            r.imports@.len() == 0,
    {
        Self { imports: Vec::new() }
    }
}

impl ImportSection {
    pub fn add_function(&mut self, module_name: &str, function_name: &str, index: usize)
        ensures
            final(self).imports@.len() == old(self).imports@.len() + 1,
            final(self).imports@.drop_last() == old(self).imports@,
            final(self).imports@.last().module_name@ == module_name@,
            final(self).imports@.last().function_name@ == function_name@,
            final(self).imports@.last().description == ImportDescription::Function(index),
    {
        let import = Import {
            module_name: module_name.to_owned(),
            function_name: function_name.to_owned(),
            description: ImportDescription::Function(index),
        };
        self.imports.push(import);
        assert(self.imports@.drop_last() == old(self).imports@);
    }
}

} // verus!

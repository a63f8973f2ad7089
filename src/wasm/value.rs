use vstd::prelude::*;

use super::WasmEncodable;

verus! {

/// The value types of WebAssembly that the compiler uses.
#[derive(Debug, PartialEq, Eq, Clone, Copy)]
pub enum ValueType {
    I32,
}

impl WasmEncodable for ValueType {
    open spec fn encoding(&self) -> Seq<u8> {
        match self {
            ValueType::I32 => seq![0x7fu8],
        }
    }

    fn wasm_encode(&self) -> (r: Vec<u8>) {
        match self {
            ValueType::I32 => vec![0x7f],
        }
    }
}

} // verus!

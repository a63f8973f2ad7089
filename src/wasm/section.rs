//! The sections of a module. Each has an id and a payload, and encodes as
//! `[id] [LEB128 payload length] [payload]`.
mod code;
mod data;
mod export;
mod function;
mod import;
mod memory;
mod types;

pub use code::{CodeSection, FunctionCode};
pub use data::{Data, DataSection};
pub use export::{Export, ExportDescription, ExportSection};
pub use function::FunctionSection;
pub use import::{Import, ImportDescription, ImportSection};
pub use memory::{Memory, MemorySection};
pub use types::{
    distinct_signatures, interned, lemma_intern_different, lemma_intern_twice, lemma_interned_wf,
    FunctionType, Signature, TypeSection,
};

use vstd::prelude::*;

use super::{uleb, WasmEncodable};

verus! {

/// A section of a module: an id and the contents that make its payload.
pub trait Section {
    type Contents: WasmEncodable;

    spec fn spec_id() -> u8;

    spec fn spec_contents(&self) -> Self::Contents;

    fn id() -> (r: u8)
        ensures
            r == Self::spec_id(),
    ;

    fn contents(&self) -> (r: &Self::Contents)
        ensures
            *r == self.spec_contents(),
    ;
}

/// The bytes of a section with the given id and payload.
pub open spec fn section_bytes(id: u8, payload: Seq<u8>) -> Seq<u8> {
    seq![id] + uleb(payload.len()) + payload
}

impl<T: Section> WasmEncodable for T {
    open spec fn encoding(&self) -> Seq<u8> {
        section_bytes(T::spec_id(), self.spec_contents().encoding())
    }

    fn wasm_encode(&self) -> (r: Vec<u8>) {
        let mut contents = self.contents().wasm_encode();
        let mut result = vec![T::id()];
        let mut length = contents.len().wasm_encode();
        result.append(&mut length);
        result.append(&mut contents);
        result
    }
}

} // verus!

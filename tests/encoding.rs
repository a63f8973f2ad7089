use wasm_ground_up::wasm::section::{
    CodeSection, DataSection, ExportSection, FunctionSection, ImportSection, MemorySection,
    TypeSection,
};
use wasm_ground_up::wasm::{Instruction, Module, ValueType, WasmEncodable};

#[test]
fn should_encode_const_i32() {
    let instruction = Instruction::ConstI32(42);

    let wasm = instruction.wasm_encode();

    assert_eq!(wasm, vec![65, 42]);
}

#[test]
fn should_encode_code_section_for_nop_function() {
    let mut section = CodeSection::default();
    section.add_function(vec![], vec![Instruction::End]);

    let wasm = section.wasm_encode();

    assert_eq!(wasm, vec![10, 4, 1, 2, 0, 0x0b]);
}

#[test]
fn should_encode_locals() {
    let mut section = CodeSection::default();
    section.add_function(vec![(1, ValueType::I32)], vec![Instruction::End]);

    let wasm = section.wasm_encode();

    assert_eq!(wasm, vec![10, 6, 1, 4, 1, 1, 0x7f, 0x0b]);
}

#[test]
fn should_encode_data_section_with_one_segment() {
    let mut section = DataSection::default();
    section.add_segment(0, 12, vec![0xde, 0xad, 0xbe, 0xef]);

    assert_eq!(
        section.wasm_encode(),
        vec![11, 10, 1, 0, 65, 12, 11, 4, 0xde, 0xad, 0xbe, 0xef]
    );
}

#[test]
fn should_encode_export_section() {
    let mut section = ExportSection::default();
    section.add_function("main", 123);
    section.add_memory("mem", 101);

    let wasm = section.wasm_encode();

    assert_eq!(
        wasm,
        vec![7, 14, 2, 4, 0x6d, 0x61, 0x69, 0x6e, 0, 123, 3, 0x6d, 0x65, 0x6d, 2, 101]
    );
}

#[test]
fn should_encode_function_section_with_single_type_index() {
    let mut section = FunctionSection::default();
    section.add_function(0);

    let wasm = section.wasm_encode();

    assert_eq!(wasm, vec![3, 2, 1, 0]);
}

#[test]
fn should_encode_import_section_with_one_import() {
    let mut section = ImportSection::default();
    section.add_function("mod", "add", 123);

    assert_eq!(
        section.wasm_encode(),
        vec![2, 11, 1, 3, 0x6d, 0x6f, 0x64, 3, 0x61, 0x64, 0x64, 0, 123]
    );
}

#[test]
fn should_encode_memory_section_with_minimum() {
    let mut section = MemorySection::default();
    section.add(32, None);

    let wasm = section.wasm_encode();

    assert_eq!(wasm, vec![5, 3, 1, 0, 32]);
}

#[test]
fn should_encode_memory_section_with_minimum_and_maximum() {
    let mut section = MemorySection::default();
    section.add(32, Some(64));

    let wasm = section.wasm_encode();

    assert_eq!(wasm, vec![5, 4, 1, 1, 32, 64]);
}

#[test]
fn should_encode_type_section_with_void_no_arg_function() {
    let mut section = TypeSection::default();
    section.add_function(vec![], vec![]);

    let wasm = section.wasm_encode();

    assert_eq!(wasm, vec![1, 4, 1, 0x60, 0, 0]);
}

#[test]
fn unsigned_leb128_of_small_numbers_is_one_byte() {
    for n in [0usize, 1, 63, 64, 127] {
        assert_eq!(n.wasm_encode(), vec![n as u8]);
    }
}

#[test]
fn unsigned_leb128_exact_bytes() {
    assert_eq!(128usize.wasm_encode(), vec![0x80, 0x01]);
    assert_eq!(624485usize.wasm_encode(), vec![0xe5, 0x8e, 0x26]);
    assert_eq!(u32::MAX.wasm_encode(), vec![0xff, 0xff, 0xff, 0xff, 0x0f]);
}

#[test]
fn signed_leb128_exact_bytes() {
    assert_eq!(0i32.wasm_encode(), vec![0x00]);
    assert_eq!(63i32.wasm_encode(), vec![0x3f]);
    assert_eq!(64i32.wasm_encode(), vec![0xc0, 0x00]);
    assert_eq!((-1i32).wasm_encode(), vec![0x7f]);
    assert_eq!((-64i32).wasm_encode(), vec![0x40]);
    assert_eq!((-65i32).wasm_encode(), vec![0xbf, 0x7f]);
    assert_eq!((-123456i32).wasm_encode(), vec![0xc0, 0xbb, 0x78]);
}

#[test]
fn unsigned_leb128_round_trips() {
    for n in [0u32, 1, 127, 128, 255, 16384, 624485, 1 << 31, u32::MAX] {
        let bytes = n.wasm_encode();
        let decoded = leb128::read::unsigned(&mut &bytes[..]).unwrap();
        assert_eq!(decoded, n as u64);
    }
}

#[test]
fn signed_leb128_round_trips() {
    for n in [0i32, 1, -1, 63, 64, -64, -65, 8191, -8192, i32::MAX, i32::MIN] {
        let bytes = n.wasm_encode();
        let decoded = leb128::read::signed(&mut &bytes[..]).unwrap();
        assert_eq!(decoded, n as i64);
    }
}

#[test]
fn vectors_and_strings_have_length_prefixes() {
    assert_eq!(vec![ValueType::I32, ValueType::I32].wasm_encode(), vec![2, 0x7f, 0x7f]);
    assert_eq!("hé".to_string().wasm_encode(), vec![3, 0x68, 0xc3, 0xa9]);
    assert_eq!((3usize, ValueType::I32).wasm_encode(), vec![3, 0x7f]);
    assert_eq!(vec![0xabu8; 130].wasm_encode()[..3], [0x82, 0x01, 0xab]);
}

#[test]
fn instructions_encode_with_their_opcodes() {
    assert_eq!(Instruction::Loop(None).wasm_encode(), vec![0x03, 0x40]);
    assert_eq!(Instruction::If(Some(ValueType::I32)).wasm_encode(), vec![0x04, 0x7f]);
    assert_eq!(Instruction::Break(1).wasm_encode(), vec![0x0c, 1]);
    assert_eq!(Instruction::Call(200).wasm_encode(), vec![0x10, 0xc8, 0x01]);
    assert_eq!(Instruction::Unreachable.wasm_encode(), vec![0x00]);
    assert_eq!(Instruction::LocalTeeI32(3).wasm_encode(), vec![0x22, 3]);
    assert_eq!(Instruction::LoadI32(2, 0).wasm_encode(), vec![0x28, 2, 0]);
    assert_eq!(Instruction::StoreI32(2, 0).wasm_encode(), vec![0x36, 2, 0]);
    assert_eq!(Instruction::ConstI32(-1).wasm_encode(), vec![0x41, 0x7f]);
    assert_eq!(Instruction::GreaterThanOrEqualSignedI32.wasm_encode(), vec![0x4e]);
    assert_eq!(Instruction::DivideSignedI32.wasm_encode(), vec![0x6d]);
    assert_eq!(Instruction::OrI32.wasm_encode(), vec![0x72]);
}

#[test]
fn identical_signatures_are_interned_once() {
    let mut section = TypeSection::default();
    let first = section.add_function(vec![ValueType::I32], vec![ValueType::I32]);
    let second = section.add_function(vec![ValueType::I32], vec![ValueType::I32]);
    assert_eq!(first, second);
    assert_eq!(section.functions.len(), 1);
}

#[test]
fn different_signatures_get_different_indices() {
    let mut section = TypeSection::default();
    let a = section.add_function(vec![], vec![ValueType::I32]);
    let b = section.add_function(vec![ValueType::I32], vec![ValueType::I32]);
    let c = section.add_function(vec![], vec![ValueType::I32]);
    assert_eq!((a, b, c), (0, 1, 0));
    assert_eq!(section.functions.len(), 2);
}

#[test]
fn empty_module_is_header_and_empty_sections() {
    let module = Module::default();
    assert_eq!(
        module.wasm_encode(),
        vec![
            0x00, 0x61, 0x73, 0x6d, 0x01, 0x00, 0x00, 0x00, 1, 1, 0, 2, 1, 0, 3, 1, 0, 5, 1, 0, 7,
            1, 0, 10, 1, 0, 11, 1, 0
        ]
    );
}

#[test]
fn module_builder_interns_and_indexes() {
    let mut module = Module::default();
    module.add_import("add", vec![ValueType::I32, ValueType::I32], vec![ValueType::I32]);
    let first = module.add_function(vec![], vec![ValueType::I32], vec![], vec![Instruction::End]);
    let second = module.add_function(
        vec![ValueType::I32, ValueType::I32],
        vec![ValueType::I32],
        vec![],
        vec![Instruction::End],
    );
    assert_eq!((first, second), (0, 1));
    assert_eq!(module.types.functions.len(), 2);
    assert_eq!(module.functions.types, vec![1, 0]);
    assert_eq!(module.add_memory(1, None), 0);
}

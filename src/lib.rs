//! A compiler from the Wafer language to WebAssembly binary modules.
pub mod wafer;
pub mod wasm;

use vstd::prelude::*;

use wafer::strings::{le32, le32_bytes};
use wafer::{compiles_to, CompileError, Wafer};
use wasm::section::{interned, ExportDescription, ImportDescription, Memory, Signature};
use wasm::{header, Module, ValueType, WasmEncodable};

verus! {

/// Built-in helpers, compiled in front of every program. An array is a pointer
/// to its length, followed by its elements; an index out of range traps.
pub open spec fn prelude_text() -> Seq<char> {
    "func __readInt32Array(array, index) {\n    if index < 0 or index >= __mem[array] { __trap() } else { __mem[array + 4 + index * 4] }\n}\nfunc __writeInt32Array(array, index, value) {\n    if index < 0 or index >= __mem[array] { __trap() } else { __mem[array + 4 + index * 4] := value }\n}\n"@
}

fn prelude() -> (r: &'static str)
    ensures
        r@ == prelude_text(),
{
    "func __readInt32Array(array, index) {\n    if index < 0 or index >= __mem[array] { __trap() } else { __mem[array + 4 + index * 4] }\n}\nfunc __writeInt32Array(array, index, value) {\n    if index < 0 or index >= __mem[array] { __trap() } else { __mem[array + 4 + index * 4] := value }\n}\n"
}

/// The text that is compiled for `input`: the prelude, a line break, then `input`.
pub open spec fn full_source(input: Seq<char>) -> Seq<char> {
    prelude_text() + "\n"@ + input
}

/// The signature of every function in the function index space: imports, then
/// defined functions. Each returns one `i32`.
pub open spec fn signatures(w: Wafer) -> Seq<Signature> {
    w.imports@.map_values(|i: wafer::Import| (i.parameters@, seq![ValueType::I32]))
        + w.functions@.map_values(|f: wafer::Function| (f.parameters@, seq![ValueType::I32]))
}

/// The type section after interning each signature in turn.
pub open spec fn interned_all(sigs: Seq<Signature>) -> Seq<Signature>
    decreases sigs.len(),
{
    if sigs.len() == 0 {
        Seq::empty()
    } else {
        interned(interned_all(sigs.drop_last()), sigs.last()).0
    }
}

/// The type index that the `k`-th signature receives.
pub open spec fn type_index(sigs: Seq<Signature>, k: int) -> int {
    interned(interned_all(sigs.subrange(0, k)), sigs[k]).1
}

/// Import `k` of `m` is import `k` of `w`.
pub open spec fn import_assembled(m: Module, w: Wafer, k: int) -> bool {
    &&& m.imports.imports@[k].module_name@ == "waferImports"@
    &&& m.imports.imports@[k].function_name@ == w.imports@[k].name@
    &&& m.imports.imports@[k].description == ImportDescription::Function(
        type_index(signatures(w), k) as usize,
    )
}

/// Function `k` of `m` is function `k` of `w`, declared, exported and with its body.
pub open spec fn function_assembled(m: Module, w: Wafer, k: int) -> bool {
    &&& m.functions.types@[k] == type_index(signatures(w), w.imports@.len() + k) as usize
    &&& m.exports.exports@[k].name@ == w.functions@[k].name@
    &&& m.exports.exports@[k].description == ExportDescription::Function(
        (w.imports@.len() + k) as usize,
    )
    &&& m.code.functions@[k].locals@ == w.functions@[k].locals@
    &&& m.code.functions@[k].instructions@ == w.functions@[k].instructions@
}

/// `m` is the module of `w`: its imports and functions, every function
/// exported, one memory of one page exported as `$waferMemory`, the data at
/// offset 0 and, right after it, the heap pointer `heap_base + 4`.
pub open spec fn assembled(m: Module, w: Wafer) -> bool {
    let imports = w.imports@.len();
    let functions = w.functions@.len();
    let heap_base = w.data@.len();
    &&& m.types@ == interned_all(signatures(w))
    &&& m.imports.imports@.len() == imports
    &&& forall|k: int| 0 <= k < imports ==> #[trigger] import_assembled(m, w, k)
    &&& m.functions.types@.len() == functions
    &&& m.exports.exports@.len() == functions + 1
    &&& m.code.functions@.len() == functions
    &&& forall|k: int| 0 <= k < functions ==> #[trigger] function_assembled(m, w, k)
    &&& m.memories.memories@ == seq![Memory::Minimum(1)]
    &&& m.exports.exports@[functions as int].name@ == "$waferMemory"@
    &&& m.exports.exports@[functions as int].description == ExportDescription::Memory(0)
    &&& m.data.data@.len() == 2
    &&& m.data.data@[0].memory == 0 && m.data.data@[0].offset == 0
    &&& m.data.data@[0].data@ == w.data@
    &&& m.data.data@[1].memory == 0 && m.data.data@[1].offset == heap_base
    &&& m.data.data@[1].data@ == le32(heap_base + 4 as int)
}

/// The results of every function: one `i32`.
fn one_i32() -> (r: Vec<ValueType>)
    ensures
        r@ == seq![ValueType::I32],
{
    let mut results = Vec::new();
    results.push(ValueType::I32);
    assert(results@ =~= seq![ValueType::I32]);
    results
}

fn copy_types(types: &Vec<ValueType>) -> (r: Vec<ValueType>)
    ensures
        r@ == types@,
{
    let mut copy: Vec<ValueType> = Vec::new();
    let mut i: usize = 0;
    while i < types.len()
        invariant
            i <= types@.len(),
            copy@ == types@.subrange(0, i as int),
        decreases types@.len() - i,
    {
        copy.push(types[i]);
        assert(copy@ =~= types@.subrange(0, i + 1));
        i = i + 1;
    }
    assert(copy@ =~= types@);
    copy
}

/// Builds the module of a lowered program: its imports and functions in order,
/// every function exported, one memory of one page exported as `$waferMemory`,
/// and the string data followed by the heap pointer.
#[verifier::rlimit(50)]
pub fn assemble(wafer: Wafer) -> (m: Module)
    requires
        wafer.imports@.len() + wafer.functions@.len() <= usize::MAX,
        wafer.data@.len() <= i32::MAX,
    ensures
        assembled(m, wafer),
{
    let ghost w = wafer;
    let ghost sigs = signatures(w);
    let Wafer { imports, mut functions, data } = wafer;
    let mut module = Module::default();
    let import_count = imports.len();
    let mut k: usize = 0;
    while k < imports.len()
        invariant
            imports@ == w.imports@,
            sigs == signatures(w),
            k <= imports@.len(),
            module.wf(),
            module.types@ == interned_all(sigs.subrange(0, k as int)),
            module.imports.imports@.len() == k,
            forall|j: int| 0 <= j < k ==> #[trigger] import_assembled(module, w, j),
            module.functions.types@.len() == 0,
            module.exports.exports@.len() == 0,
            module.code.functions@.len() == 0,
            module.memories.memories@.len() == 0,
            module.data.data@.len() == 0,
        decreases imports@.len() - k,
    {
        let ghost before = module;
        let parameters = copy_types(&imports[k].parameters);
        assert(sigs[k as int] == (parameters@, seq![ValueType::I32]));
        assert(sigs.subrange(0, k + 1).drop_last() =~= sigs.subrange(0, k as int));
        assert(sigs.subrange(0, k + 1).last() == sigs[k as int]);
        let results = one_i32();
        module.add_import(&imports[k].name, parameters, results);
        assert(module.types@ == interned_all(sigs.subrange(0, k + 1)));
        assert forall|j: int| 0 <= j < k + 1 implies #[trigger] import_assembled(module, w, j) by {
            if j < k {
                assert(import_assembled(before, w, j));
                assert(module.imports.imports@[j] == before.imports.imports@[j]);
            }
        }
        k = k + 1;
    }
    let function_count = functions.len();
    let mut k: usize = 0;
    while k < function_count
        invariant
            imports@ == w.imports@,
            import_count == imports@.len(),
            function_count == w.functions@.len(),
            import_count + function_count <= usize::MAX,
            functions@ == w.functions@.subrange(k as int, function_count as int),
            sigs == signatures(w),
            k <= function_count,
            module.wf(),
            module.types@ == interned_all(sigs.subrange(0, import_count + k)),
            module.imports.imports@.len() == import_count,
            forall|j: int| 0 <= j < import_count ==> #[trigger] import_assembled(module, w, j),
            module.functions.types@.len() == k,
            module.exports.exports@.len() == k,
            module.code.functions@.len() == k,
            forall|j: int| 0 <= j < k ==> #[trigger] function_assembled(module, w, j),
            module.memories.memories@.len() == 0,
            module.data.data@.len() == 0,
        decreases function_count - k,
    {
        let ghost before = module;
        let function = functions.remove(0);
        assert(function == w.functions@[k as int]);
        assert(sigs[import_count + k] == (function.parameters@, seq![ValueType::I32]));
        assert(sigs.subrange(0, import_count + k + 1).drop_last() =~= sigs.subrange(0, import_count + k));
        assert(sigs.subrange(0, import_count + k + 1).last() == sigs[import_count + k]);
        let results = one_i32();
        let index = module.add_function(function.parameters, results, function.locals, function.instructions);
        assert(module.types@ == interned_all(sigs.subrange(0, import_count + k + 1)));
        module.export_function(&function.name, import_count + index);
        assert forall|j: int| 0 <= j < k + 1 implies #[trigger] function_assembled(module, w, j) by {
            if j < k {
                assert(function_assembled(before, w, j));
                assert(module.functions.types@[j] == before.functions.types@[j]);
                assert(module.exports.exports@[j] == before.exports.exports@[j]);
                assert(module.code.functions@[j] == before.code.functions@[j]);
            }
        }
        assert forall|j: int| 0 <= j < import_count implies #[trigger] import_assembled(module, w, j) by {
            assert(import_assembled(before, w, j));
        }
        assert(functions@ =~= w.functions@.subrange(k + 1, function_count as int));
        k = k + 1;
    }
    assert(sigs.subrange(0, import_count + function_count) =~= sigs);
    let ghost before_memory = module;
    let memory = module.add_memory(1, None);
    module.export_memory("$waferMemory", memory);
    let heap_base = data.len();
    module.add_data_segment(memory, 0, data);
    module.add_data_segment(memory, heap_base, le32_bytes((heap_base + 4) as u64));
    proof {
        assert forall|j: int| 0 <= j < import_count implies #[trigger] import_assembled(module, w, j) by {
            assert(import_assembled(before_memory, w, j));
        }
        assert forall|j: int| 0 <= j < function_count implies #[trigger] function_assembled(module, w, j) by {
            assert(function_assembled(before_memory, w, j));
            assert(module.exports.exports@[j] == before_memory.exports.exports@[j]);
        }
        assert(module.memories.memories@ =~= seq![Memory::Minimum(1)]);
        assert(module.exports.exports@[function_count as int].name@ == "$waferMemory"@);
        assert(module.data.data@[0].data@ == w.data@);
        assert(module.data.data@[1].data@ == le32(heap_base + 4 as int));
        assert(module.types@ == interned_all(signatures(w)));
        assert(assembled(module, w));
    }
    module
}

/// Compiles a Wafer program, after the prelude, to the bytes of a WebAssembly module.
pub fn compile(input: &str) -> (r: Result<Vec<u8>, CompileError>)
    ensures
        r matches Ok(bytes) ==> bytes@.subrange(0, 8) == header(),
        r matches Ok(bytes) ==> exists|w: Wafer, m: Module|
            compiles_to(full_source(input@), w) && #[trigger] assembled(m, w) && bytes@
                == m.encoding(),
        r matches Err(CompileError::Lex(e)) ==> wafer::lexer::lex_error_holds(full_source(input@), e),
        r matches Err(CompileError::Lex(_)) ==> !exists|ds: Seq<wafer::syntax::Declaration>|
            wafer::parses_to(full_source(input@), ds),
        r matches Err(CompileError::Parse(_)) ==> !exists|ds: Seq<wafer::syntax::Declaration>|
            wafer::parses_to(full_source(input@), ds),
        r matches Err(CompileError::Lower(_)) ==> exists|ds: Seq<wafer::syntax::Declaration>|
            #[trigger] wafer::parses_to(full_source(input@), ds) && !wafer::program_resolves(ds),
        r matches Err(CompileError::DataTooLarge) ==> exists|ds: Seq<wafer::syntax::Declaration>|
            #[trigger] wafer::parses_to(full_source(input@), ds) && wafer::strings::literals_data(
                wafer::strings::interned_literals(ds),
            ).len() > i32::MAX,
{
    let mut source = prelude().to_owned();
    source.append("\n");
    source.append(input);
    assert(source@ == full_source(input@));
    let wafer = Wafer::parse(source.as_str())?;
    let ghost w = wafer;
    let module = assemble(wafer);
    let bytes = module.wasm_encode();
    assert(bytes@.subrange(0, 8) =~= header());
    assert(assembled(module, w) && bytes@ == module.encoding());
    Ok(bytes)
}

} // verus!

//! The Wafer front end: tokens, syntax, parsing, name resolution and lowering.
pub mod lexer;
pub mod lowering;
pub mod names;
pub mod parser;
pub mod strings;
pub mod symbols;
pub mod syntax;
pub mod token;

use vstd::prelude::*;

use crate::wasm::{Instruction, ValueType};
use lexer::{lex_error_holds, tokenize, tokenizes, LexError};
use lowering::{
    block_code, block_resolves, indices_in_range, lemma_function_code_sound, unclosed,
    InstructionCollector, LowerError, Scope,
};
use names::{block_locals, distinct_first, string_views};
use parser::{parse_program, ParseError};
use strings::{interned_literals, literals_data, Strings};
use symbols::{
    declaration_name, declaration_parameters, declaration_slots, definitions, externs,
    function_names, function_order, local_runs, Symbols,
};
use syntax::{declaration_wf, program_tokens, Declaration};
use token::{token_views, Token};

verus! {

/// A host function that the program imports.
#[derive(Debug)]
pub struct Import {
    pub name: String,
    pub parameters: Vec<ValueType>,
}

/// A function that the program defines, lowered.
#[derive(Debug)]
pub struct Function {
    pub name: String,
    pub public: bool,
    pub parameters: Vec<ValueType>,
    pub locals: Vec<(usize, ValueType)>,
    pub instructions: Vec<Instruction>,
}

/// A program after lowering: its imports, its functions and the initial
/// contents of memory.
#[derive(Debug)]
pub struct Wafer {
    pub imports: Vec<Import>,
    pub functions: Vec<Function>,
    pub data: Vec<u8>,
}

/// Why a source text could not be compiled.
#[derive(Debug, PartialEq, Eq, Clone)]
pub enum CompileError {
    Lex(LexError),
    Parse(ParseError),
    Lower(LowerError),
    /// The string literals take more than `i32::MAX` bytes.
    DataTooLarge,
}

/// `ds` is a parse of `source`: some tokenization of it spells them, and
/// they respect the grammar's precedence and block shapes.
pub open spec fn parses_to(source: Seq<char>, ds: Seq<Declaration>) -> bool {
    &&& exists|tokens: Seq<Token>| tokenizes(source, tokens) && token_views(tokens) == program_tokens(ds)
    &&& forall|i: int| 0 <= i < ds.len() ==> declaration_wf(#[trigger] ds[i])
}

/// Every parameter is an `i32`.
pub open spec fn i32_types(n: nat) -> Seq<ValueType> {
    Seq::new(n, |i: int| ValueType::I32)
}

/// What lowering consults for the function `d` of the program `ds`.
pub open spec fn scope_of(ds: Seq<Declaration>, d: Declaration) -> Scope {
    Scope {
        slots: declaration_slots(d),
        functions: function_order(ds).map_values(|x: Declaration| declaration_name(x)),
        literals: interned_literals(ds),
        heap_base: literals_data(interned_literals(ds)).len() as int,
    }
}

/// `w` is the lowering of some parse of `source` in which every name resolves.
pub open spec fn compiles_to(source: Seq<char>, w: Wafer) -> bool {
    exists|ds: Seq<Declaration>| parses_to(source, ds) && program_resolves(ds) && #[trigger] w.lowers(ds)
}

/// Every function body of `ds` resolves all of its names.
pub open spec fn program_resolves(ds: Seq<Declaration>) -> bool {
    forall|k: int|
        0 <= k < definitions(ds).len() ==> (#[trigger] definitions(ds)[k] matches Declaration::Function(f)
            && block_resolves(f.body, scope_of(ds, definitions(ds)[k])))
}

impl Wafer {
    /// The lowering of the program `ds`.
    pub open spec fn lowers(&self, ds: Seq<Declaration>) -> bool {
        &&& self.imports@.len() == externs(ds).len()
        &&& forall|k: int|
            0 <= k < self.imports@.len() ==> {
                &&& (#[trigger] self.imports@[k]).name@ == declaration_name(externs(ds)[k])
                &&& self.imports@[k].parameters@ == i32_types(
                    declaration_parameters(externs(ds)[k]).len(),
                )
            }
        &&& self.functions@.len() == definitions(ds).len()
        &&& forall|k: int|
            0 <= k < self.functions@.len() ==> (#[trigger] definitions(ds)[k] matches Declaration::Function(f) && {
                let function = self.functions@[k];
                &&& function.name@ == f.name@
                &&& function.public == f.public
                &&& function.parameters@ == i32_types(f.parameters@.len())
                &&& function.locals@ == local_runs(distinct_first(block_locals(f.body)).len())
                &&& function.instructions@ == block_code(f.body, scope_of(ds, definitions(ds)[k]))
                    + seq![Instruction::End]
            })
        &&& self.data@ == literals_data(interned_literals(ds))
    }

    /// Parses, resolves and lowers a program.
    pub fn parse(input: &str) -> (r: Result<Wafer, CompileError>)
        ensures
            r matches Ok(w) ==> compiles_to(input@, w),
            r matches Ok(w) ==> w.imports@.len() + w.functions@.len() <= usize::MAX
                && w.data@.len() <= i32::MAX,
            r matches Err(CompileError::Lex(e)) ==> lex_error_holds(input@, e),
            r matches Err(CompileError::Lex(_)) ==> !exists|ds: Seq<Declaration>| parses_to(input@, ds),
            r matches Err(CompileError::Parse(_)) ==> !exists|ds: Seq<Declaration>| parses_to(input@, ds),
            r matches Err(CompileError::Lower(_)) ==> exists|ds: Seq<Declaration>|
                #[trigger] parses_to(input@, ds) && !program_resolves(ds),
            r matches Err(CompileError::DataTooLarge) ==> exists|ds: Seq<Declaration>|
                #[trigger] parses_to(input@, ds) && literals_data(interned_literals(ds)).len()
                    > i32::MAX,
    {
        let tokens = match tokenize(input) {
            Ok(tokens) => tokens,
            Err(e) => {
                return Err(CompileError::Lex(e));
            },
        };
        let declarations = match parse_program(&tokens) {
            Ok(declarations) => declarations,
            Err(e) => {
                proof {
                    assert forall|ds: Seq<Declaration>| !parses_to(input@, ds) by {
                        if parses_to(input@, ds) {
                            let ts = choose|ts: Seq<Token>| tokenizes(input@, ts) && token_views(ts) == program_tokens(ds);
                            assert(token_views(ts) == token_views(tokens@));
                            assert(parser::program_of(tokens@, ds));
                        }
                    }
                }
                return Err(CompileError::Parse(e));
            },
        };
        let ghost ds = declarations@;
        assert(parses_to(input@, ds));
        let symbols = Symbols::new(&declarations);
        let strings = Strings::new(&declarations);
        if strings.data.len() > 0x7fff_ffff {
            return Err(CompileError::DataTooLarge);
        }
        let ghost order_names = function_order(ds).map_values(|x: Declaration| declaration_name(x));
        assert(function_names(symbols.functions@) =~= order_names);
        assert(function_order(ds) == externs(ds) + definitions(ds));
        let import_count = count_externs(&declarations);
        let total = symbols.functions.len();
        let mut imports: Vec<Import> = Vec::new();
        let mut functions: Vec<Function> = Vec::new();
        let mut i: usize = 0;
        while i < declarations.len()
            invariant
                ds == declarations@,
                parses_to(input@, ds),
                import_count == externs(ds).len(),
                total == symbols.functions@.len(),
                symbols.describes(ds),
                strings.wf(),
                string_views(strings.literals@) == interned_literals(ds),
                strings.data@.len() <= i32::MAX,
                function_names(symbols.functions@) == order_names,
                order_names == function_order(ds).map_values(|x: Declaration| declaration_name(x)),
                function_order(ds) == externs(ds) + definitions(ds),
                i <= ds.len(),
                imports@.len() == externs(ds.subrange(0, i as int)).len(),
                functions@.len() == definitions(ds.subrange(0, i as int)).len(),
                externs(ds.subrange(0, i as int)).is_prefix_of(externs(ds)),
                definitions(ds.subrange(0, i as int)).is_prefix_of(definitions(ds)),
                forall|k: int|
                    0 <= k < imports@.len() ==> {
                        &&& (#[trigger] imports@[k]).name@ == declaration_name(externs(ds)[k])
                        &&& imports@[k].parameters@ == i32_types(
                            declaration_parameters(externs(ds)[k]).len(),
                        )
                    },
                forall|k: int|
                    0 <= k < functions@.len() ==> (#[trigger] definitions(ds)[k] matches Declaration::Function(f) && {
                        let function = functions@[k];
                        &&& function.name@ == f.name@
                        &&& function.public == f.public
                        &&& function.parameters@ == i32_types(f.parameters@.len())
                        &&& function.locals@ == local_runs(distinct_first(block_locals(f.body)).len())
                        &&& function.instructions@ == block_code(f.body, scope_of(ds, definitions(ds)[k]))
                            + seq![Instruction::End]
                    }),
                forall|k: int|
                    0 <= k < functions@.len() ==> (#[trigger] definitions(ds)[k] matches Declaration::Function(f)
                        && block_resolves(f.body, scope_of(ds, definitions(ds)[k]))),
            decreases ds.len() - i,
        {
            proof {
                lemma_order_step(ds, i as int);
            }
            match &declarations[i] {
                Declaration::Extern(x) => {
                    let k = imports.len();
                    let table = &symbols.functions[k];
                    assert(externs(ds.subrange(0, i + 1))[k as int] == ds[i as int]);
                    assert(externs(ds)[k as int] == ds[i as int]);
                    imports.push(Import { name: x.name.clone(), parameters: table.parameters() });
                },
                Declaration::Function(f) => {
                    let k = functions.len();
                    let ghost d = ds[i as int];
                    assert(definitions(ds.subrange(0, i + 1))[k as int] == d);
                    assert(definitions(ds)[k as int] == d);
                    assert(import_count + k < total);
                    let index = import_count + k;
                    assert(function_order(ds)[index as int] == d);
                    let table = &symbols.functions[index];
                    let mut collector = InstructionCollector::new(table, &symbols, &strings);
                    assert(collector.scope() == scope_of(ds, d));
                    match collector.collect(&f.body) {
                        Ok(()) => {},
                        Err(e) => {
                            proof {
                                assert(!program_resolves(ds)) by {
                                    assert(definitions(ds)[k as int] == d);
                                }
                            }
                            return Err(CompileError::Lower(e));
                        },
                    }
                    let instructions = collector.instructions;
                    proof {
                        assert(table.describes(d));
                        assert(symbols::symbol_names(table.symbols@).len() == table.symbols@.len());
                        assert(declaration_slots(d).len() == declaration_parameters(d).len() + distinct_first(block_locals(f.body)).len());
                    }
                    functions.push(
                        Function {
                            name: f.name.clone(),
                            public: f.public,
                            parameters: table.parameters(),
                            locals: table.locals(),
                            instructions,
                        },
                    );
                },
            }
            i = i + 1;
        }
        assert(ds.subrange(0, ds.len() as int) =~= ds);
        let data = strings.into_bytes();
        let wafer = Wafer { imports, functions, data };
        assert(wafer.lowers(ds));
        assert(program_resolves(ds));
        assert(parses_to(input@, ds));
        let r = Ok(wafer);
        assert(r matches Ok(w) && w.lowers(ds));
        assert(function_order(ds).len() == externs(ds).len() + definitions(ds).len());
        r
    }
}

fn count_externs(declarations: &Vec<Declaration>) -> (r: usize)
    ensures
        r == externs(declarations@).len(),
{
    let mut count: usize = 0;
    let mut i: usize = 0;
    while i < declarations.len()
        invariant
            i <= declarations@.len(),
            count == externs(declarations@.subrange(0, i as int)).len(),
            count <= i,
        decreases declarations@.len() - i,
    {
        proof {
            lemma_order_step(declarations@, i as int);
        }
        if let Declaration::Extern(_) = &declarations[i] {
            count = count + 1;
        }
        i = i + 1;
    }
    assert(declarations@.subrange(0, declarations@.len() as int) =~= declarations@);
    count
}

/// In every lowered function, each `Call` names a function of the index space,
/// each local access names a slot of that function, and there is one `End` more
/// than there are `If`s and `Loop`s: every block is closed, and so is the body.
pub proof fn lemma_lowered_functions_sound(w: Wafer, ds: Seq<Declaration>, k: int)
    requires
        w.lowers(ds),
        program_resolves(ds),
        0 <= k < w.functions@.len(),
        function_order(ds).len() <= usize::MAX,
        declaration_slots(definitions(ds)[k]).len() <= usize::MAX,
    ensures
        indices_in_range(
            w.functions@[k].instructions@,
            declaration_slots(definitions(ds)[k]).len(),
            function_order(ds).len(),
        ),
        unclosed(w.functions@[k].instructions@) == -1,
{
    let d = definitions(ds)[k];
    if let Declaration::Function(f) = d {
        let scope = scope_of(ds, d);
        assert(scope.functions.len() == function_order(ds).len());
        lemma_function_code_sound(f.body, scope);
    }
}

/// One more declaration extends exactly one of the two groups, and each group
/// of a prefix is a prefix of the group of the whole.
proof fn lemma_order_step(ds: Seq<Declaration>, i: int)
    requires
        0 <= i < ds.len(),
    ensures
        ds.subrange(0, i + 1).drop_last() == ds.subrange(0, i),
        externs(ds.subrange(0, i + 1)) == if ds[i] is Extern {
            externs(ds.subrange(0, i)).push(ds[i])
        } else {
            externs(ds.subrange(0, i))
        },
        definitions(ds.subrange(0, i + 1)) == if ds[i] is Function {
            definitions(ds.subrange(0, i)).push(ds[i])
        } else {
            definitions(ds.subrange(0, i))
        },
        externs(ds.subrange(0, i + 1)).is_prefix_of(externs(ds)),
        definitions(ds.subrange(0, i + 1)).is_prefix_of(definitions(ds)),
{
    assert(ds.subrange(0, i + 1).drop_last() =~= ds.subrange(0, i));
    lemma_groups_prefix(ds, i + 1);
}

proof fn lemma_groups_prefix(ds: Seq<Declaration>, n: int)
    requires
        0 <= n <= ds.len(),
    ensures
        externs(ds.subrange(0, n)).is_prefix_of(externs(ds)),
        definitions(ds.subrange(0, n)).is_prefix_of(definitions(ds)),
    decreases ds.len() - n,
{
    if n < ds.len() {
        assert(ds.subrange(0, n + 1).drop_last() =~= ds.subrange(0, n));
        lemma_groups_prefix(ds, n + 1);
    } else {
        assert(ds.subrange(0, n) =~= ds);
    }
}

} // verus!

//! Symbol tables: the slot of every parameter and local of each function, and
//! the index of every function, imports first.
use vstd::prelude::*;

use super::names::{collect_block_locals, distinct_first, string_views, unique, block_locals};
use super::syntax::{names, Declaration};
use crate::wasm::ValueType;

verus! {

#[derive(Debug, PartialEq, Eq, Clone, Copy, Structural)]
pub enum SymbolKind {
    Parameter,
    LocalVariable,
}

/// A named slot of a function.
#[derive(Debug)]
pub struct Symbol {
    pub name: String,
    pub index: usize,
    pub value_type: ValueType,
    pub kind: SymbolKind,
}

/// The slots of one function: its parameters, then its locals.
#[derive(Debug)]
pub struct FunctionSymbols {
    pub name: String,
    pub parameter_count: usize,
    pub symbols: Vec<Symbol>,
}

/// The symbols of every function of a program, imports first, each group in
/// declaration order.
#[derive(Debug)]
pub struct Symbols {
    pub functions: Vec<FunctionSymbols>,
}

pub open spec fn declaration_name(d: Declaration) -> Seq<char> {
    match d {
        Declaration::Extern(x) => x.name@,
        Declaration::Function(f) => f.name@,
    }
}

pub open spec fn declaration_parameters(d: Declaration) -> Seq<Seq<char>> {
    match d {
        Declaration::Extern(x) => names(x.parameters@),
        Declaration::Function(f) => names(f.parameters@),
    }
}

/// The names of the slots of a declaration in index order: parameters, then
/// each local the first time the body asks for it.
pub open spec fn declaration_slots(d: Declaration) -> Seq<Seq<char>> {
    match d {
        Declaration::Extern(x) => names(x.parameters@),
        Declaration::Function(f) => names(f.parameters@) + distinct_first(block_locals(f.body)),
    }
}

/// The imports of a program, in order.
pub open spec fn externs(ds: Seq<Declaration>) -> Seq<Declaration>
    decreases ds.len(),
{
    if ds.len() == 0 {
        Seq::empty()
    } else if ds.last() is Extern {
        externs(ds.drop_last()).push(ds.last())
    } else {
        externs(ds.drop_last())
    }
}

/// The functions that a program defines, in order.
pub open spec fn definitions(ds: Seq<Declaration>) -> Seq<Declaration>
    decreases ds.len(),
{
    if ds.len() == 0 {
        Seq::empty()
    } else if ds.last() is Function {
        definitions(ds.drop_last()).push(ds.last())
    } else {
        definitions(ds.drop_last())
    }
}

/// The function index space: imports, then the functions the program defines.
pub open spec fn function_order(ds: Seq<Declaration>) -> Seq<Declaration> {
    externs(ds) + definitions(ds)
}

/// The index of the first occurrence of `x` in `s`.
pub open spec fn first_index(s: Seq<Seq<char>>, x: Seq<char>) -> Option<nat>
    decreases s.len(),
{
    if s.len() == 0 {
        None
    } else {
        match first_index(s.drop_last(), x) {
            Some(i) => Some(i),
            None => if s.last() == x {
                Some((s.len() - 1) as nat)
            } else {
                None
            },
        }
    }
}

/// The index of the last occurrence of `x` in `s`.
pub open spec fn last_index(s: Seq<Seq<char>>, x: Seq<char>) -> Option<nat>
    decreases s.len(),
{
    if s.len() == 0 {
        None
    } else if s.last() == x {
        Some((s.len() - 1) as nat)
    } else {
        last_index(s.drop_last(), x)
    }
}

pub open spec fn symbol_names(symbols: Seq<Symbol>) -> Seq<Seq<char>> {
    symbols.map_values(|s: Symbol| s.name@)
}

impl FunctionSymbols {
    /// The table holds exactly the slots of `d`, each at its own index.
    pub open spec fn describes(&self, d: Declaration) -> bool {
        &&& self.name@ == declaration_name(d)
        &&& self.parameter_count == declaration_parameters(d).len()
        &&& symbol_names(self.symbols@) == declaration_slots(d)
        &&& forall|i: int|
            0 <= i < self.symbols@.len() ==> {
                &&& (#[trigger] self.symbols@[i]).index == i
                &&& self.symbols@[i].value_type == ValueType::I32
                &&& self.symbols@[i].kind == if i < self.parameter_count {
                    SymbolKind::Parameter
                } else {
                    SymbolKind::LocalVariable
                }
            }
    }

    /// Each slot sits at its own index, is an `i32`, and the parameters come first.
    pub open spec fn wf(&self) -> bool {
        &&& self.parameter_count <= self.symbols@.len()
        &&& forall|i: int|
            0 <= i < self.symbols@.len() ==> (#[trigger] self.symbols@[i]).index == i
                && self.symbols@[i].value_type == ValueType::I32
    }

    pub open spec fn slot_names(&self) -> Seq<Seq<char>> {
        symbol_names(self.symbols@)
    }

    /// Builds the table of a declaration.
    pub fn new(d: &Declaration) -> (r: Self)
        ensures
            r.describes(*d),
    {
        let (name, parameters, locals) = match d {
            Declaration::Extern(x) => (x.name.clone(), &x.parameters, Vec::new()),
            Declaration::Function(f) => {
                let mut requested: Vec<String> = Vec::new();
                collect_block_locals(&f.body, &mut requested);
                assert(string_views(requested@) =~= block_locals(f.body));
                (f.name.clone(), &f.parameters, unique(requested))
            },
        };
        let ghost slots = declaration_slots(*d);
        proof {
            assert(string_views(locals@) + Seq::empty() =~= string_views(locals@));
            assert(names(parameters@) + string_views(locals@) =~= slots);
        }
        let mut symbols: Vec<Symbol> = Vec::new();
        let mut i: usize = 0;
        while i < parameters.len()
            invariant
                i <= parameters@.len(),
                symbols@.len() == i,
                symbol_names(symbols@) =~= names(parameters@).subrange(0, i as int),
                forall|k: int|
                    0 <= k < symbols@.len() ==> {
                        &&& (#[trigger] symbols@[k]).index == k
                        &&& symbols@[k].value_type == ValueType::I32
                        &&& symbols@[k].kind == SymbolKind::Parameter
                    },
            decreases parameters@.len() - i,
        {
            let ghost before = symbols@;
            symbols.push(
                Symbol {
                    name: parameters[i].clone(),
                    index: i,
                    value_type: ValueType::I32,
                    kind: SymbolKind::Parameter,
                },
            );
            assert(symbol_names(symbols@) =~= symbol_names(before).push(parameters@[i as int]@));
            assert(names(parameters@).subrange(0, i + 1) =~= names(parameters@).subrange(0, i as int).push(parameters@[i as int]@));
            i = i + 1;
        }
        let parameter_count = parameters.len();
        let mut j: usize = 0;
        while j < locals.len()
            invariant
                parameter_count == parameters@.len(),
                j <= locals@.len(),
                symbols@.len() == parameter_count + j,
                symbol_names(symbols@) =~= names(parameters@) + string_views(locals@).subrange(
                    0,
                    j as int,
                ),
                forall|k: int|
                    0 <= k < symbols@.len() ==> {
                        &&& (#[trigger] symbols@[k]).index == k
                        &&& symbols@[k].value_type == ValueType::I32
                        &&& symbols@[k].kind == if k < parameter_count {
                            SymbolKind::Parameter
                        } else {
                            SymbolKind::LocalVariable
                        }
                    },
            decreases locals@.len() - j,
        {
            let ghost before = symbols@;
            let index = symbols.len();
            symbols.push(
                Symbol {
                    name: locals[j].clone(),
                    index,
                    value_type: ValueType::I32,
                    kind: SymbolKind::LocalVariable,
                },
            );
            assert(symbol_names(symbols@) =~= symbol_names(before).push(locals@[j as int]@));
            assert(string_views(locals@).subrange(0, j + 1) =~= string_views(locals@).subrange(0, j as int).push(locals@[j as int]@));
            j = j + 1;
        }
        assert(string_views(locals@).subrange(0, locals@.len() as int) =~= string_views(locals@));
        FunctionSymbols { name, parameter_count, symbols }
    }

    /// The type and index of the slot named `local_name`: the last slot of that
    /// name, so that a local shadows a parameter.
    pub fn local(&self, local_name: &str) -> (r: Option<(ValueType, usize)>)
        requires
            forall|i: int| 0 <= i < self.symbols@.len() ==> (#[trigger] self.symbols@[i]).index == i
                && self.symbols@[i].value_type == ValueType::I32,
        ensures
            r == match last_index(self.slot_names(), local_name@) {
                Some(i) => Some((ValueType::I32, i as usize)),
                None => None,
            },
    {
        let key = local_name.to_owned();
        let mut i = self.symbols.len();
        assert(self.slot_names().subrange(0, i as int) =~= self.slot_names());
        while i > 0
            invariant
                key@ == local_name@,
                i <= self.symbols@.len(),
                forall|k: int| 0 <= k < self.symbols@.len() ==> (#[trigger] self.symbols@[k]).index == k
                    && self.symbols@[k].value_type == ValueType::I32,
                last_index(self.slot_names(), local_name@) == last_index(
                    self.slot_names().subrange(0, i as int),
                    local_name@,
                ),
            decreases i,
        {
            let ghost prefix = self.slot_names().subrange(0, i as int);
            assert(prefix.drop_last() =~= self.slot_names().subrange(0, i - 1));
            if self.symbols[i - 1].name == key {
                return Some((self.symbols[i - 1].value_type, self.symbols[i - 1].index));
            }
            i = i - 1;
        }
        None
    }

    /// The locals as runs of `(count, type)`: one run of all of them, or none.
    pub fn locals(&self) -> (r: Vec<(usize, ValueType)>)
        requires
            self.parameter_count <= self.symbols@.len(),
        ensures
            r@ == local_runs((self.symbols@.len() - self.parameter_count) as nat),
    {
        let count = self.symbols.len() - self.parameter_count;
        if count == 0 {
            Vec::new()
        } else {
            vec![(count, ValueType::I32)]
        }
    }

    /// The type of each parameter, in order.
    pub fn parameters(&self) -> (r: Vec<ValueType>)
        ensures
            r@ == Seq::new(self.parameter_count as nat, |i: int| ValueType::I32),
    {
        let mut types: Vec<ValueType> = Vec::new();
        let mut i: usize = 0;
        while i < self.parameter_count
            invariant
                i <= self.parameter_count,
                types@ == Seq::new(i as nat, |k: int| ValueType::I32),
            decreases self.parameter_count - i,
        {
            types.push(ValueType::I32);
            assert(types@ =~= Seq::new((i + 1) as nat, |k: int| ValueType::I32));
            i = i + 1;
        }
        types
    }
}

/// The locals of a function as runs of `(count, type)`: every local is an
/// `i32`, so there is one run, or none when there are no locals.
pub open spec fn local_runs(count: nat) -> Seq<(usize, ValueType)> {
    if count == 0 {
        Seq::empty()
    } else {
        seq![(count as usize, ValueType::I32)]
    }
}

pub open spec fn function_names(functions: Seq<FunctionSymbols>) -> Seq<Seq<char>> {
    functions.map_values(|f: FunctionSymbols| f.name@)
}

impl Symbols {
    /// The table holds one entry for each declaration of `function_order(ds)`.
    pub open spec fn describes(&self, ds: Seq<Declaration>) -> bool {
        &&& self.functions@.len() == function_order(ds).len()
        &&& forall|k: int|
            0 <= k < self.functions@.len() ==> (#[trigger] self.functions@[k]).describes(
                function_order(ds)[k],
            )
    }

    pub open spec fn wf(&self) -> bool {
        forall|k: int| 0 <= k < self.functions@.len() ==> (#[trigger] self.functions@[k]).wf()
    }

    /// The table of the function `name`, if there is one.
    pub open spec fn table(&self, name: Seq<char>) -> Option<FunctionSymbols> {
        match first_index(function_names(self.functions@), name) {
            Some(i) => Some(self.functions@[i as int]),
            None => None,
        }
    }

    /// The type and index of the slot `local_name` of the function `function_name`.
    pub fn local(&self, function_name: &str, local_name: &str) -> (r: Option<(ValueType, usize)>)
        requires
            self.wf(),
        ensures
            r == match self.table(function_name@) {
                Some(t) => match last_index(t.slot_names(), local_name@) {
                    Some(i) => Some((ValueType::I32, i as usize)),
                    None => None,
                },
                None => None,
            },
    {
        proof {
            lemma_first_index_bound(function_names(self.functions@), function_name@);
        }
        match self.symbols_for_function(function_name) {
            Some(table) => table.local(local_name),
            None => None,
        }
    }

    /// The locals of the function `function_name` as runs of `(count, type)`.
    pub fn locals(&self, function_name: &str) -> (r: Vec<(usize, ValueType)>)
        requires
            self.wf(),
            self.table(function_name@) is Some,
        ensures
            r@ == local_runs(
                (self.table(function_name@)->0.symbols@.len() - self.table(
                    function_name@,
                )->0.parameter_count) as nat,
            ),
    {
        proof {
            lemma_first_index_bound(function_names(self.functions@), function_name@);
        }
        match self.symbols_for_function(function_name) {
            Some(table) => table.locals(),
            None => Vec::new(),
        }
    }

    /// The parameter types of the function `function_name`.
    pub fn parameters(&self, function_name: &str) -> (r: Vec<ValueType>)
        requires
            self.table(function_name@) is Some,
        ensures
            r@ == Seq::new(
                self.table(function_name@)->0.parameter_count as nat,
                |i: int| ValueType::I32,
            ),
    {
        proof {
            lemma_first_index_bound(function_names(self.functions@), function_name@);
        }
        match self.symbols_for_function(function_name) {
            Some(table) => table.parameters(),
            None => Vec::new(),
        }
    }

    /// Builds the tables of all functions of a program: imports first, then
    /// the functions it defines, each group in declaration order.
    pub fn new(declarations: &Vec<Declaration>) -> (r: Self)
        ensures
            r.describes(declarations@),
            r.wf(),
    {
        let mut imports: Vec<FunctionSymbols> = Vec::new();
        let mut functions: Vec<FunctionSymbols> = Vec::new();
        let mut i: usize = 0;
        while i < declarations.len()
            invariant
                i <= declarations@.len(),
                imports@.len() == externs(declarations@.subrange(0, i as int)).len(),
                functions@.len() == definitions(declarations@.subrange(0, i as int)).len(),
                forall|k: int| 0 <= k < imports@.len() ==> (#[trigger] imports@[k]).describes(
                    externs(declarations@.subrange(0, i as int))[k],
                ),
                forall|k: int| 0 <= k < functions@.len() ==> (#[trigger] functions@[k]).describes(
                    definitions(declarations@.subrange(0, i as int))[k],
                ),
            decreases declarations@.len() - i,
        {
            let d = &declarations[i];
            let table = FunctionSymbols::new(d);
            assert(declarations@.subrange(0, i + 1).drop_last() =~= declarations@.subrange(0, i as int));
            match d {
                Declaration::Extern(_) => imports.push(table),
                Declaration::Function(_) => functions.push(table),
            }
            i = i + 1;
        }
        assert(declarations@.subrange(0, declarations@.len() as int) =~= declarations@);
        imports.append(&mut functions);
        let symbols = Symbols { functions: imports };
        proof {
            assert forall|k: int| 0 <= k < symbols.functions@.len() implies (#[trigger] symbols.functions@[k]).wf() by {
                let t = symbols.functions@[k];
                let d = function_order(declarations@)[k];
                assert(t.describes(d));
                assert(symbol_names(t.symbols@).len() == t.symbols@.len());
                assert(declaration_slots(d).len() >= declaration_parameters(d).len());
            }
        }
        symbols
    }

    /// The index of the function `name` in the function index space.
    pub fn function(&self, name: &str) -> (r: Option<usize>)
        ensures
            r == match first_index(function_names(self.functions@), name@) {
                Some(i) => Some(i as usize),
                None => None,
            },
    {
        let key = name.to_owned();
        let mut i: usize = 0;
        assert(function_names(self.functions@).subrange(0, 0) =~= Seq::<Seq<char>>::empty());
        while i < self.functions.len()
            invariant
                key@ == name@,
                i <= self.functions@.len(),
                first_index(function_names(self.functions@).subrange(0, i as int), name@) is None,
            decreases self.functions@.len() - i,
        {
            let ghost prefix = function_names(self.functions@).subrange(0, i + 1);
            assert(prefix.drop_last() =~= function_names(self.functions@).subrange(0, i as int));
            if self.functions[i].name == key {
                proof {
                    lemma_first_index_prefix(function_names(self.functions@), name@, i + 1);
                }
                return Some(i);
            }
            i = i + 1;
        }
        assert(function_names(self.functions@).subrange(0, self.functions@.len() as int) =~= function_names(self.functions@));
        None
    }

    /// The table of the function `name`, the first of that name.
    fn symbols_for_function(&self, name: &str) -> (r: Option<&FunctionSymbols>)
        ensures
            match first_index(function_names(self.functions@), name@) {
                Some(i) => i < self.functions@.len() && r == Some(&self.functions@[i as int]),
                None => r is None,
            },
    {
        proof {
            lemma_first_index_bound(function_names(self.functions@), name@);
        }
        match self.function(name) {
            Some(i) => {
                assert(function_names(self.functions@).len() == self.functions@.len());
                if i < self.functions.len() {
                    Some(&self.functions[i])
                } else {
                    None
                }
            },
            None => None,
        }
    }
}

/// The first occurrence in a prefix that holds `x` is the first occurrence in the whole.
pub proof fn lemma_first_index_prefix(s: Seq<Seq<char>>, x: Seq<char>, n: int)
    requires
        0 <= n <= s.len(),
        first_index(s.subrange(0, n), x) is Some,
    ensures
        first_index(s, x) == first_index(s.subrange(0, n), x),
    decreases s.len() - n,
{
    if n < s.len() {
        assert(s.subrange(0, n + 1).drop_last() =~= s.subrange(0, n));
        lemma_first_index_prefix(s, x, n + 1);
    } else {
        assert(s.subrange(0, n) =~= s);
    }
}

pub proof fn lemma_first_index_bound(s: Seq<Seq<char>>, x: Seq<char>)
    ensures
        first_index(s, x) matches Some(i) ==> i < s.len() && s[i as int] == x,
    decreases s.len(),
{
    if s.len() > 0 {
        lemma_first_index_bound(s.drop_last(), x);
    }
}

} // verus!

//! Lowering: turning function bodies into stack-machine code, one syntax node at a time.
use vstd::prelude::*;

use super::names::string_views;
use super::strings::{literal_offset, Strings};
use super::symbols::{
    first_index, function_names, last_index, lemma_first_index_bound, FunctionSymbols, Symbols,
};
use super::syntax::{BinaryOperator, Block, Expression, Statement};
use crate::wasm::{Instruction, ValueType};

verus! {

/// What lowering consults: the slots of the current function, the function
/// index space, the interned literals and the size of their data.
pub struct Scope {
    pub slots: Seq<Seq<char>>,
    pub functions: Seq<Seq<char>>,
    pub literals: Seq<Seq<char>>,
    pub heap_base: int,
}

pub open spec fn mem_name() -> Seq<char> {
    "__mem"@
}

pub open spec fn heap_base_name() -> Seq<char> {
    "__heap_base"@
}

pub open spec fn trap_name() -> Seq<char> {
    "__trap"@
}

pub open spec fn read_array_name() -> Seq<char> {
    "__readInt32Array"@
}

pub open spec fn write_array_name() -> Seq<char> {
    "__writeInt32Array"@
}

pub open spec fn slot(scope: Scope, name: Seq<char>) -> usize {
    match last_index(scope.slots, name) {
        Some(i) => i as usize,
        None => 0,
    }
}

pub open spec fn function_index(scope: Scope, name: Seq<char>) -> usize {
    match first_index(scope.functions, name) {
        Some(i) => i as usize,
        None => 0,
    }
}

pub open spec fn has_slot(scope: Scope, name: Seq<char>) -> bool {
    last_index(scope.slots, name) is Some
}

pub open spec fn has_function(scope: Scope, name: Seq<char>) -> bool {
    first_index(scope.functions, name) is Some
}

pub open spec fn operator_instruction(op: BinaryOperator) -> Instruction {
    match op {
        BinaryOperator::Add => Instruction::AddI32,
        BinaryOperator::Subtract => Instruction::SubtractI32,
        BinaryOperator::Multiply => Instruction::MultiplyI32,
        BinaryOperator::Divide => Instruction::DivideSignedI32,
        BinaryOperator::Equal => Instruction::EqualI32,
        BinaryOperator::NotEqual => Instruction::NotEqualI32,
        BinaryOperator::Less => Instruction::LessThanSignedI32,
        BinaryOperator::LessEqual => Instruction::LessThanOrEqualSignedI32,
        BinaryOperator::Greater => Instruction::GreaterThanSignedI32,
        BinaryOperator::GreaterEqual => Instruction::GreaterThanOrEqualSignedI32,
        BinaryOperator::And => Instruction::AndI32,
        BinaryOperator::Or => Instruction::OrI32,
    }
}

/// Every name that `e` uses resolves in `scope`.
pub open spec fn expression_resolves(e: Expression, scope: Scope) -> bool
    decreases e,
{
    match e {
        Expression::Number(_) => true,
        Expression::Str(s) => literal_offset(scope.literals, s@) is Some,
        Expression::Identifier(name) => name@ == heap_base_name() || has_slot(scope, name@),
        Expression::Binary(_, l, r) => expression_resolves(*l, scope) && expression_resolves(*r, scope),
        Expression::Group(inner) => expression_resolves(*inner, scope),
        Expression::If(c, t, f) => expression_resolves(*c, scope) && block_resolves(*t, scope)
            && block_resolves(*f, scope),
        Expression::Call(name, args) => name@ == trap_name() || (has_function(scope, name@)
            && arguments_resolve(args@, scope)),
        Expression::Index(name, i) => expression_resolves(*i, scope) && (name@ == mem_name() || (
        has_slot(scope, name@) && has_function(scope, read_array_name()))),
        Expression::Assign(name, v) => has_slot(scope, name@) && expression_resolves(*v, scope),
        Expression::IndexAssign(name, i, v) => expression_resolves(*i, scope) && expression_resolves(
            *v,
            scope,
        ) && if name@ == mem_name() {
            has_slot(scope, "$temp"@)
        } else {
            has_slot(scope, name@) && has_function(scope, write_array_name())
        },
    }
}

pub open spec fn arguments_resolve(args: Seq<Expression>, scope: Scope) -> bool
    decreases args,
{
    args.len() > 0 ==> arguments_resolve(args.drop_last(), scope) && expression_resolves(
        args.last(),
        scope,
    )
}

pub open spec fn block_resolves(b: Block, scope: Scope) -> bool
    decreases b,
{
    statements_resolve(b.statements@, scope) && match b.value {
        Some(v) => expression_resolves(*v, scope),
        None => true,
    }
}

pub open spec fn statements_resolve(statements: Seq<Statement>, scope: Scope) -> bool
    decreases statements,
{
    statements.len() > 0 ==> statements_resolve(statements.drop_last(), scope) && statement_resolves(
        statements.last(),
        scope,
    )
}

pub open spec fn statement_resolves(s: Statement, scope: Scope) -> bool
    decreases s,
{
    match s {
        Statement::Let(name, e) => has_slot(scope, name@) && expression_resolves(e, scope),
        Statement::If(c, t, f) => expression_resolves(c, scope) && block_resolves(t, scope)
            && match f {
            Some(f) => block_resolves(f, scope),
            None => true,
        },
        Statement::While(c, body) => expression_resolves(c, scope) && block_resolves(body, scope),
        Statement::Expression(e) => expression_resolves(e, scope),
    }
}

/// The code of an expression: it leaves one `i32` on the stack.
pub open spec fn expression_code(e: Expression, scope: Scope) -> Seq<Instruction>
    decreases e,
{
    match e {
        Expression::Number(v) => seq![Instruction::ConstI32(v)],
        Expression::Str(s) => seq![
            Instruction::ConstI32(
                match literal_offset(scope.literals, s@) {
                    Some(o) => o as i32,
                    None => 0,
                },
            ),
        ],
        Expression::Identifier(name) => if name@ == heap_base_name() {
            seq![Instruction::ConstI32(scope.heap_base as i32)]
        } else {
            seq![Instruction::LocalGetI32(slot(scope, name@))]
        },
        Expression::Binary(op, l, r) => expression_code(*l, scope) + expression_code(*r, scope)
            + seq![operator_instruction(op)],
        Expression::Group(inner) => expression_code(*inner, scope),
        Expression::If(c, t, f) => expression_code(*c, scope) + seq![
            Instruction::If(Some(ValueType::I32)),
        ] + block_code(*t, scope) + seq![Instruction::Else] + block_code(*f, scope) + seq![
            Instruction::End,
        ],
        Expression::Call(name, args) => if name@ == trap_name() {
            seq![Instruction::Unreachable]
        } else {
            arguments_code(args@, scope) + seq![Instruction::Call(function_index(scope, name@))]
        },
        Expression::Index(name, i) => if name@ == mem_name() {
            expression_code(*i, scope) + seq![Instruction::LoadI32(2, 0)]
        } else {
            seq![Instruction::LocalGetI32(slot(scope, name@))] + expression_code(*i, scope) + seq![
                Instruction::Call(function_index(scope, read_array_name())),
            ]
        },
        Expression::Assign(name, v) => expression_code(*v, scope) + seq![
            Instruction::LocalTeeI32(slot(scope, name@)),
        ],
        Expression::IndexAssign(name, i, v) => if name@ == mem_name() {
            expression_code(*i, scope) + expression_code(*v, scope) + seq![
                Instruction::LocalTeeI32(slot(scope, "$temp"@)),
                Instruction::StoreI32(2, 0),
                Instruction::LocalGetI32(slot(scope, "$temp"@)),
            ]
        } else {
            seq![Instruction::LocalGetI32(slot(scope, name@))] + expression_code(*i, scope)
                + expression_code(*v, scope) + seq![
                Instruction::Call(function_index(scope, write_array_name())),
            ]
        },
    }
}

/// The code of call arguments, left to right.
pub open spec fn arguments_code(args: Seq<Expression>, scope: Scope) -> Seq<Instruction>
    decreases args,
{
    if args.len() == 0 {
        Seq::empty()
    } else {
        arguments_code(args.drop_last(), scope) + expression_code(args.last(), scope)
    }
}

/// The code of a block: its statements, then its value; the block adds no markers.
pub open spec fn block_code(b: Block, scope: Scope) -> Seq<Instruction>
    decreases b,
{
    statements_code(b.statements@, scope) + match b.value {
        Some(v) => expression_code(*v, scope),
        None => Seq::empty(),
    }
}

pub open spec fn statements_code(statements: Seq<Statement>, scope: Scope) -> Seq<Instruction>
    decreases statements,
{
    if statements.len() == 0 {
        Seq::empty()
    } else {
        statements_code(statements.drop_last(), scope) + statement_code(statements.last(), scope)
    }
}

/// The code of a statement: it leaves the stack as it found it.
pub open spec fn statement_code(s: Statement, scope: Scope) -> Seq<Instruction>
    decreases s,
{
    match s {
        Statement::Let(name, e) => expression_code(e, scope) + seq![
            Instruction::LocalSetI32(slot(scope, name@)),
        ],
        Statement::If(c, t, f) => expression_code(c, scope) + seq![Instruction::If(None)]
            + block_code(t, scope) + match f {
            Some(f) => seq![Instruction::Else] + block_code(f, scope),
            None => Seq::empty(),
        } + seq![Instruction::End],
        Statement::While(c, body) => seq![Instruction::Loop(None)] + expression_code(c, scope)
            + seq![Instruction::If(None)] + block_code(body, scope) + seq![
            Instruction::Break(1),
            Instruction::End,
            Instruction::End,
        ],
        Statement::Expression(e) => expression_code(e, scope) + seq![Instruction::Drop],
    }
}

/// Why a body could not be lowered.
#[derive(Debug, PartialEq, Eq, Clone)]
pub enum LowerError {
    UnknownIdentifier(String),
    UnknownFunction(String),
    UnknownLiteral(String),
}

/// Whether `name` is spelled `word`.
fn is_named(name: &String, word: &str) -> (r: bool)
    ensures
        r == (name@ == word@),
{
    let text = name.as_str();
    let n = word.unicode_len();
    if text.unicode_len() != n {
        return false;
    }
    let mut k: usize = 0;
    while k < n
        invariant
            n == word@.len(),
            n == text@.len(),
            text@ == name@,
            k <= n,
            forall|m: int| 0 <= m < k ==> text@[m] == word@[m],
        decreases n - k,
    {
        if text.get_char(k) != word.get_char(k) {
            return false;
        }
        k = k + 1;
    }
    assert(text@ =~= word@);
    true
}

/// Appends the code of one function body to `instructions`, resolving names in
/// the tables it borrows.
pub struct InstructionCollector<'a> {
    pub symbols: &'a FunctionSymbols,
    pub functions: &'a Symbols,
    pub strings: &'a Strings,
    pub instructions: Vec<Instruction>,
}

impl<'a> InstructionCollector<'a> {
    pub open spec fn scope(&self) -> Scope {
        Scope {
            slots: self.symbols.slot_names(),
            functions: function_names(self.functions.functions@),
            literals: string_views(self.strings.literals@),
            heap_base: self.strings.data@.len() as int,
        }
    }

    pub open spec fn wf(&self) -> bool {
        &&& forall|i: int|
            0 <= i < self.symbols.symbols@.len() ==> (#[trigger] self.symbols.symbols@[i]).index
                == i && self.symbols.symbols@[i].value_type == ValueType::I32
        &&& self.strings.wf()
        &&& self.strings.data@.len() <= i32::MAX
    }

    pub fn new(symbols: &'a FunctionSymbols, functions: &'a Symbols, strings: &'a Strings) -> (r: Self)
        ensures
            r.symbols == symbols,
            r.functions == functions,
            r.strings == strings,
            r.instructions@.len() == 0,
    {
        InstructionCollector { symbols, functions, strings, instructions: Vec::new() }
    }

    fn local_slot(&self, name: &String) -> (r: Result<usize, LowerError>)
        requires
            self.wf(),
        ensures
            r is Ok <==> has_slot(self.scope(), name@),
            r matches Ok(i) ==> i == slot(self.scope(), name@),
    {
        match self.symbols.local(name.as_str()) {
            Some((_, index)) => Ok(index),
            None => Err(LowerError::UnknownIdentifier(name.clone())),
        }
    }

    fn callee(&self, name: &String) -> (r: Result<usize, LowerError>)
        ensures
            r is Ok <==> has_function(self.scope(), name@),
            r matches Ok(i) ==> i == function_index(self.scope(), name@),
    {
        match self.functions.function(name.as_str()) {
            Some(index) => Ok(index),
            None => Err(LowerError::UnknownFunction(name.clone())),
        }
    }

    /// Appends the code of `e`; fails exactly when a name in it does not resolve.
    pub fn collect_expression(&mut self, e: &Expression) -> (r: Result<(), LowerError>)
        requires
            old(self).wf(),
        ensures
            final(self).symbols == old(self).symbols,
            final(self).functions == old(self).functions,
            final(self).strings == old(self).strings,
            r is Ok <==> expression_resolves(*e, old(self).scope()),
            r is Ok ==> final(self).instructions@ == old(self).instructions@ + expression_code(
                *e,
                old(self).scope(),
            ),
        decreases e,
    {
        let ghost scope = self.scope();
        let ghost start = self.instructions@;
        match e {
            Expression::Number(v) => {
                self.instructions.push(Instruction::ConstI32(*v));
            },
            Expression::Str(s) => match self.strings.offset(s.as_str()) {
                Some(offset) => self.instructions.push(Instruction::ConstI32(offset)),
                None => {
                    return Err(LowerError::UnknownLiteral(s.clone()));
                },
            },
            Expression::Identifier(name) => {
                if is_named(name, "__heap_base") {
                    let heap_base = self.strings.len();
                    self.instructions.push(Instruction::ConstI32(heap_base));
                } else {
                    let index = self.local_slot(name)?;
                    self.instructions.push(Instruction::LocalGetI32(index));
                }
            },
            Expression::Binary(op, l, r) => {
                self.collect_expression(l)?;
                self.collect_expression(r)?;
                let instruction = match op {
                    BinaryOperator::Add => Instruction::AddI32,
                    BinaryOperator::Subtract => Instruction::SubtractI32,
                    BinaryOperator::Multiply => Instruction::MultiplyI32,
                    BinaryOperator::Divide => Instruction::DivideSignedI32,
                    BinaryOperator::Equal => Instruction::EqualI32,
                    BinaryOperator::NotEqual => Instruction::NotEqualI32,
                    BinaryOperator::Less => Instruction::LessThanSignedI32,
                    BinaryOperator::LessEqual => Instruction::LessThanOrEqualSignedI32,
                    BinaryOperator::Greater => Instruction::GreaterThanSignedI32,
                    BinaryOperator::GreaterEqual => Instruction::GreaterThanOrEqualSignedI32,
                    BinaryOperator::And => Instruction::AndI32,
                    BinaryOperator::Or => Instruction::OrI32,
                };
                self.instructions.push(instruction);
            },
            Expression::Group(inner) => {
                self.collect_expression(inner)?;
            },
            Expression::If(c, t, f) => {
                self.collect_expression(c)?;
                self.instructions.push(Instruction::If(Some(ValueType::I32)));
                self.collect_block(t)?;
                self.instructions.push(Instruction::Else);
                self.collect_block(f)?;
                self.instructions.push(Instruction::End);
            },
            Expression::Call(name, args) => {
                if is_named(name, "__trap") {
                    self.instructions.push(Instruction::Unreachable);
                } else {
                    let index = self.callee(name)?;
                    self.collect_arguments(args)?;
                    self.instructions.push(Instruction::Call(index));
                }
            },
            Expression::Index(name, i) => {
                if is_named(name, "__mem") {
                    self.collect_expression(i)?;
                    self.instructions.push(Instruction::LoadI32(2, 0));
                } else {
                    let slot = self.local_slot(name)?;
                    let read = "__readInt32Array".to_owned();
                    let function = self.callee(&read)?;
                    self.instructions.push(Instruction::LocalGetI32(slot));
                    self.collect_expression(i)?;
                    self.instructions.push(Instruction::Call(function));
                }
            },
            Expression::Assign(name, v) => {
                let slot = self.local_slot(name)?;
                self.collect_expression(v)?;
                self.instructions.push(Instruction::LocalTeeI32(slot));
            },
            Expression::IndexAssign(name, i, v) => {
                if is_named(name, "__mem") {
                    let temp = "$temp".to_owned();
                    let slot = self.local_slot(&temp)?;
                    self.collect_expression(i)?;
                    self.collect_expression(v)?;
                    self.instructions.push(Instruction::LocalTeeI32(slot));
                    self.instructions.push(Instruction::StoreI32(2, 0));
                    self.instructions.push(Instruction::LocalGetI32(slot));
                } else {
                    let slot = self.local_slot(name)?;
                    let write = "__writeInt32Array".to_owned();
                    let function = self.callee(&write)?;
                    self.instructions.push(Instruction::LocalGetI32(slot));
                    self.collect_expression(i)?;
                    self.collect_expression(v)?;
                    self.instructions.push(Instruction::Call(function));
                }
            },
        }
        assert(self.instructions@ =~= start + expression_code(*e, scope));
        Ok(())
    }

    /// Appends the code of call arguments, left to right.
    pub fn collect_arguments(&mut self, args: &Vec<Expression>) -> (r: Result<(), LowerError>)
        requires
            old(self).wf(),
        ensures
            final(self).symbols == old(self).symbols,
            final(self).functions == old(self).functions,
            final(self).strings == old(self).strings,
            r is Ok <==> arguments_resolve(args@, old(self).scope()),
            r is Ok ==> final(self).instructions@ == old(self).instructions@ + arguments_code(
                args@,
                old(self).scope(),
            ),
        decreases args@,
    {
        let ghost scope = self.scope();
        let ghost start = self.instructions@;
        let mut i: usize = 0;
        while i < args.len()
            invariant
                self.wf(),
                self.symbols == old(self).symbols,
                self.functions == old(self).functions,
                self.strings == old(self).strings,
                self.scope() == scope,
                i <= args@.len(),
                arguments_resolve(args@.subrange(0, i as int), scope),
                self.instructions@ == start + arguments_code(args@.subrange(0, i as int), scope),
            decreases args@.len() - i,
        {
            assert(args@.subrange(0, i + 1).drop_last() =~= args@.subrange(0, i as int));
            match self.collect_expression(&args[i]) {
                Ok(()) => {},
                Err(error) => {
                    proof {
                        lemma_arguments_resolve_prefix(args@, scope, i + 1);
                    }
                    return Err(error);
                },
            }
            i = i + 1;
        }
        assert(args@.subrange(0, args@.len() as int) =~= args@);
        Ok(())
    }

    /// Appends the code of a block: its statements, then its value.
    pub fn collect_block(&mut self, b: &Block) -> (r: Result<(), LowerError>)
        requires
            old(self).wf(),
        ensures
            final(self).symbols == old(self).symbols,
            final(self).functions == old(self).functions,
            final(self).strings == old(self).strings,
            r is Ok <==> block_resolves(*b, old(self).scope()),
            r is Ok ==> final(self).instructions@ == old(self).instructions@ + block_code(
                *b,
                old(self).scope(),
            ),
        decreases b,
    {
        let ghost scope = self.scope();
        let ghost start = self.instructions@;
        let mut i: usize = 0;
        while i < b.statements.len()
            invariant
                self.wf(),
                self.symbols == old(self).symbols,
                self.functions == old(self).functions,
                self.strings == old(self).strings,
                self.scope() == scope,
                i <= b.statements@.len(),
                statements_resolve(b.statements@.subrange(0, i as int), scope),
                self.instructions@ == start + statements_code(b.statements@.subrange(0, i as int), scope),
            decreases b.statements@.len() - i,
        {
            assert(b.statements@.subrange(0, i + 1).drop_last() =~= b.statements@.subrange(0, i as int));
            match self.collect_statement(&b.statements[i]) {
                Ok(()) => {},
                Err(error) => {
                    proof {
                        lemma_statements_resolve_prefix(b.statements@, scope, i + 1);
                    }
                    return Err(error);
                },
            }
            i = i + 1;
        }
        assert(b.statements@.subrange(0, b.statements@.len() as int) =~= b.statements@);
        match &b.value {
            Some(v) => {
                self.collect_expression(v)?;
            },
            None => {},
        }
        assert(self.instructions@ =~= start + block_code(*b, scope));
        Ok(())
    }

    /// Appends the code of a statement.
    pub fn collect_statement(&mut self, s: &Statement) -> (r: Result<(), LowerError>)
        requires
            old(self).wf(),
        ensures
            final(self).symbols == old(self).symbols,
            final(self).functions == old(self).functions,
            final(self).strings == old(self).strings,
            r is Ok <==> statement_resolves(*s, old(self).scope()),
            r is Ok ==> final(self).instructions@ == old(self).instructions@ + statement_code(
                *s,
                old(self).scope(),
            ),
        decreases s,
    {
        let ghost scope = self.scope();
        let ghost start = self.instructions@;
        match s {
            Statement::Let(name, e) => {
                let slot = self.local_slot(name)?;
                self.collect_expression(e)?;
                self.instructions.push(Instruction::LocalSetI32(slot));
            },
            Statement::If(c, t, f) => {
                self.collect_expression(c)?;
                self.instructions.push(Instruction::If(None));
                self.collect_block(t)?;
                match f {
                    Some(f) => {
                        self.instructions.push(Instruction::Else);
                        self.collect_block(f)?;
                    },
                    None => {},
                }
                self.instructions.push(Instruction::End);
            },
            Statement::While(c, body) => {
                self.instructions.push(Instruction::Loop(None));
                self.collect_expression(c)?;
                self.instructions.push(Instruction::If(None));
                self.collect_block(body)?;
                self.instructions.push(Instruction::Break(1));
                self.instructions.push(Instruction::End);
                self.instructions.push(Instruction::End);
            },
            Statement::Expression(e) => {
                self.collect_expression(e)?;
                self.instructions.push(Instruction::Drop);
            },
        }
        assert(self.instructions@ =~= start + statement_code(*s, scope));
        Ok(())
    }

    /// Appends the code of a function body, then the `End` that closes it.
    pub fn collect(&mut self, body: &Block) -> (r: Result<(), LowerError>)
        requires
            old(self).wf(),
        ensures
            final(self).symbols == old(self).symbols,
            final(self).functions == old(self).functions,
            final(self).strings == old(self).strings,
            r is Ok <==> block_resolves(*body, old(self).scope()),
            r is Ok ==> final(self).instructions@ == old(self).instructions@ + block_code(
                *body,
                old(self).scope(),
            ) + seq![Instruction::End],
    {
        self.collect_block(body)?;
        self.instructions.push(Instruction::End);
        Ok(())
    }
}

proof fn lemma_arguments_resolve_prefix(args: Seq<Expression>, scope: Scope, n: int)
    requires
        0 <= n <= args.len(),
        !arguments_resolve(args.subrange(0, n), scope),
    ensures
        !arguments_resolve(args, scope),
    decreases args.len() - n,
{
    if n < args.len() {
        assert(args.subrange(0, n + 1).drop_last() =~= args.subrange(0, n));
        lemma_arguments_resolve_prefix(args, scope, n + 1);
    } else {
        assert(args.subrange(0, n) =~= args);
    }
}

proof fn lemma_statements_resolve_prefix(statements: Seq<Statement>, scope: Scope, n: int)
    requires
        0 <= n <= statements.len(),
        !statements_resolve(statements.subrange(0, n), scope),
    ensures
        !statements_resolve(statements, scope),
    decreases statements.len() - n,
{
    if n < statements.len() {
        assert(statements.subrange(0, n + 1).drop_last() =~= statements.subrange(0, n));
        lemma_statements_resolve_prefix(statements, scope, n + 1);
    } else {
        assert(statements.subrange(0, n) =~= statements);
    }
}

/// Call operands index a function and local operands index a slot.
pub open spec fn instruction_in_range(instruction: Instruction, slots: nat, functions: nat) -> bool {
    match instruction {
        Instruction::Call(n) => n < functions,
        Instruction::LocalGetI32(n) => n < slots,
        Instruction::LocalSetI32(n) => n < slots,
        Instruction::LocalTeeI32(n) => n < slots,
        _ => true,
    }
}

pub open spec fn indices_in_range(code: Seq<Instruction>, slots: nat, functions: nat) -> bool {
    forall|i: int| 0 <= i < code.len() ==> instruction_in_range(#[trigger] code[i], slots, functions)
}

/// The openers (`If`, `Loop`) of `code` less its `End`s.
pub open spec fn unclosed(code: Seq<Instruction>) -> int
    decreases code.len(),
{
    if code.len() == 0 {
        0
    } else {
        unclosed(code.drop_last()) + match code.last() {
            Instruction::If(_) | Instruction::Loop(_) => 1int,
            Instruction::End => -1int,
            _ => 0int,
        }
    }
}

proof fn lemma_unclosed_concat(a: Seq<Instruction>, b: Seq<Instruction>)
    ensures
        unclosed(a + b) == unclosed(a) + unclosed(b),
    decreases b.len(),
{
    if b.len() > 0 {
        lemma_unclosed_concat(a, b.drop_last());
        assert((a + b).drop_last() =~= a + b.drop_last());
    } else {
        assert(a + b =~= a);
    }
}

proof fn lemma_in_range_concat(a: Seq<Instruction>, b: Seq<Instruction>, slots: nat, functions: nat)
    requires
        indices_in_range(a, slots, functions),
        indices_in_range(b, slots, functions),
    ensures
        indices_in_range(a + b, slots, functions),
{
    assert forall|i: int| 0 <= i < (a + b).len() implies instruction_in_range(
        #[trigger] (a + b)[i],
        slots,
        functions,
    ) by {
        if i >= a.len() {
            assert((a + b)[i] == b[i - a.len()]);
        }
    }
}

/// Both properties of a piece of code at once: indices in range, and as many
/// `End`s as openers.
pub open spec fn sound_code(code: Seq<Instruction>, scope: Scope) -> bool {
    indices_in_range(code, scope.slots.len(), scope.functions.len()) && unclosed(code) == 0
}

proof fn lemma_sound_concat(a: Seq<Instruction>, b: Seq<Instruction>, scope: Scope)
    requires
        sound_code(a, scope),
        sound_code(b, scope),
    ensures
        sound_code(a + b, scope),
{
    lemma_unclosed_concat(a, b);
    lemma_in_range_concat(a, b, scope.slots.len(), scope.functions.len());
}

/// A marker instruction alone: its indices are in range when `ok` says so.
proof fn lemma_single(ins: Instruction, scope: Scope)
    requires
        instruction_in_range(ins, scope.slots.len(), scope.functions.len()),
    ensures
        indices_in_range(seq![ins], scope.slots.len(), scope.functions.len()),
        unclosed(seq![ins]) == match ins {
            Instruction::If(_) | Instruction::Loop(_) => 1int,
            Instruction::End => -1int,
            _ => 0int,
        },
{
    assert(seq![ins].drop_last() =~= Seq::<Instruction>::empty());
    assert(unclosed(Seq::<Instruction>::empty()) == 0);
    assert(seq![ins].last() == ins);
}

/// `cond If(t) then middle End`, where `middle` is empty or `Else` and a block.
proof fn lemma_if_shape(
    cond: Seq<Instruction>,
    t: Option<ValueType>,
    then: Seq<Instruction>,
    middle: Seq<Instruction>,
    scope: Scope,
)
    requires
        sound_code(cond, scope),
        sound_code(then, scope),
        sound_code(middle, scope),
    ensures
        sound_code(cond + seq![Instruction::If(t)] + then + middle + seq![Instruction::End], scope),
{
    let s = scope;
    lemma_single(Instruction::If(t), s);
    lemma_single(Instruction::End, s);
    let a = cond + seq![Instruction::If(t)];
    let b = a + then;
    let d = b + middle;
    lemma_unclosed_concat(cond, seq![Instruction::If(t)]);
    lemma_unclosed_concat(a, then);
    lemma_unclosed_concat(b, middle);
    lemma_unclosed_concat(d, seq![Instruction::End]);
    lemma_in_range_concat(cond, seq![Instruction::If(t)], s.slots.len(), s.functions.len());
    lemma_in_range_concat(a, then, s.slots.len(), s.functions.len());
    lemma_in_range_concat(b, middle, s.slots.len(), s.functions.len());
    lemma_in_range_concat(d, seq![Instruction::End], s.slots.len(), s.functions.len());
}

/// `Else` followed by a block.
proof fn lemma_else_shape(block: Seq<Instruction>, scope: Scope)
    requires
        sound_code(block, scope),
    ensures
        sound_code(seq![Instruction::Else] + block, scope),
{
    lemma_single(Instruction::Else, scope);
    lemma_sound_concat(seq![Instruction::Else], block, scope);
}

/// `Loop cond If body Break(1) End End`.
proof fn lemma_while_shape(cond: Seq<Instruction>, body: Seq<Instruction>, scope: Scope)
    requires
        sound_code(cond, scope),
        sound_code(body, scope),
    ensures
        sound_code(
            seq![Instruction::Loop(None)] + cond + seq![Instruction::If(None)] + body + seq![
                Instruction::Break(1),
                Instruction::End,
                Instruction::End,
            ],
            scope,
        ),
{
    let s = scope;
    lemma_single(Instruction::Loop(None), s);
    lemma_single(Instruction::If(None), s);
    let tail = seq![Instruction::Break(1), Instruction::End, Instruction::End];
    assert(tail.drop_last().drop_last().drop_last() =~= Seq::<Instruction>::empty());
    assert(tail.drop_last().drop_last() =~= seq![Instruction::Break(1)]);
    assert(tail.drop_last() =~= seq![Instruction::Break(1), Instruction::End]);
    assert(unclosed(Seq::<Instruction>::empty()) == 0);
    assert(unclosed(seq![Instruction::Break(1)]) == 0);
    assert(unclosed(seq![Instruction::Break(1), Instruction::End]) == -1);
    assert(unclosed(tail) == -2);
    assert(indices_in_range(tail, s.slots.len(), s.functions.len()));
    let a = seq![Instruction::Loop(None)] + cond;
    let b = a + seq![Instruction::If(None)];
    let d = b + body;
    lemma_unclosed_concat(seq![Instruction::Loop(None)], cond);
    lemma_unclosed_concat(a, seq![Instruction::If(None)]);
    lemma_unclosed_concat(b, body);
    lemma_unclosed_concat(d, tail);
    lemma_in_range_concat(seq![Instruction::Loop(None)], cond, s.slots.len(), s.functions.len());
    lemma_in_range_concat(a, seq![Instruction::If(None)], s.slots.len(), s.functions.len());
    lemma_in_range_concat(b, body, s.slots.len(), s.functions.len());
    lemma_in_range_concat(d, tail, s.slots.len(), s.functions.len());
}

proof fn lemma_slot_bound(scope: Scope, name: Seq<char>)
    requires
        has_slot(scope, name),
        scope.slots.len() <= usize::MAX,
    ensures
        (slot(scope, name) as nat) < scope.slots.len(),
{
    lemma_last_index_bound(scope.slots, name);
}

proof fn lemma_function_bound(scope: Scope, name: Seq<char>)
    requires
        has_function(scope, name),
        scope.functions.len() <= usize::MAX,
    ensures
        (function_index(scope, name) as nat) < scope.functions.len(),
{
    lemma_first_index_bound(scope.functions, name);
}

proof fn lemma_last_index_bound(s: Seq<Seq<char>>, x: Seq<char>)
    ensures
        last_index(s, x) matches Some(i) ==> i < s.len(),
    decreases s.len(),
{
    if s.len() > 0 {
        lemma_last_index_bound(s.drop_last(), x);
    }
}

/// The code of an expression whose names resolve uses only indices that exist,
/// and closes every block it opens.
pub proof fn lemma_expression_code_sound(e: Expression, scope: Scope)
    requires
        expression_resolves(e, scope),
        scope.slots.len() <= usize::MAX,
        scope.functions.len() <= usize::MAX,
    ensures
        sound_code(expression_code(e, scope), scope),
    decreases e,
{
    let s = scope;
    match e {
        Expression::Number(v) => {
            lemma_single(Instruction::ConstI32(v), s);
        },
        Expression::Str(_) => {
            lemma_single(expression_code(e, s)[0], s);
        },
        Expression::Identifier(name) => {
            if name@ != heap_base_name() {
                lemma_slot_bound(s, name@);
            }
            lemma_single(expression_code(e, s)[0], s);
        },
        Expression::Binary(op, l, r) => {
            lemma_expression_code_sound(*l, s);
            lemma_expression_code_sound(*r, s);
            lemma_single(operator_instruction(op), s);
            lemma_sound_concat(expression_code(*l, s), expression_code(*r, s), s);
            lemma_sound_concat(expression_code(*l, s) + expression_code(*r, s), seq![operator_instruction(op)], s);
        },
        Expression::Group(inner) => {
            lemma_expression_code_sound(*inner, s);
        },
        Expression::If(c, t, f) => {
            lemma_expression_code_sound(*c, s);
            lemma_block_code_sound(*t, s);
            lemma_block_code_sound(*f, s);
            lemma_else_shape(block_code(*f, s), s);
            lemma_if_shape(expression_code(*c, s), Some(ValueType::I32), block_code(*t, s), seq![Instruction::Else] + block_code(*f, s), s);
            assert(expression_code(e, s) =~= expression_code(*c, s) + seq![Instruction::If(Some(ValueType::I32))] + block_code(*t, s) + (seq![Instruction::Else] + block_code(*f, s)) + seq![Instruction::End]);
        },
        Expression::Call(name, args) => {
            if name@ == trap_name() {
                lemma_single(Instruction::Unreachable, s);
            } else {
                lemma_arguments_code_sound(args@, s);
                lemma_function_bound(s, name@);
                lemma_single(Instruction::Call(function_index(s, name@)), s);
                lemma_sound_concat(arguments_code(args@, s), seq![Instruction::Call(function_index(s, name@))], s);
            }
        },
        Expression::Index(name, i) => {
            lemma_expression_code_sound(*i, s);
            if name@ == mem_name() {
                lemma_single(Instruction::LoadI32(2, 0), s);
                lemma_sound_concat(expression_code(*i, s), seq![Instruction::LoadI32(2, 0)], s);
            } else {
                lemma_slot_bound(s, name@);
                lemma_function_bound(s, read_array_name());
                let get = seq![Instruction::LocalGetI32(slot(s, name@))];
                let call = seq![Instruction::Call(function_index(s, read_array_name()))];
                lemma_single(get[0], s);
                lemma_single(call[0], s);
                lemma_sound_concat(get, expression_code(*i, s), s);
                lemma_sound_concat(get + expression_code(*i, s), call, s);
            }
        },
        Expression::Assign(name, v) => {
            lemma_expression_code_sound(*v, s);
            lemma_slot_bound(s, name@);
            let tee = seq![Instruction::LocalTeeI32(slot(s, name@))];
            lemma_single(tee[0], s);
            lemma_sound_concat(expression_code(*v, s), tee, s);
        },
        Expression::IndexAssign(name, i, v) => {
            lemma_expression_code_sound(*i, s);
            lemma_expression_code_sound(*v, s);
            let iv = expression_code(*i, s) + expression_code(*v, s);
            lemma_sound_concat(expression_code(*i, s), expression_code(*v, s), s);
            if name@ == mem_name() {
                lemma_slot_bound(s, "$temp"@);
                let t = slot(s, "$temp"@);
                let tail = seq![Instruction::LocalTeeI32(t), Instruction::StoreI32(2, 0), Instruction::LocalGetI32(t)];
                lemma_single(Instruction::LocalTeeI32(t), s);
                lemma_single(Instruction::StoreI32(2, 0), s);
                lemma_single(Instruction::LocalGetI32(t), s);
                lemma_sound_concat(seq![Instruction::LocalTeeI32(t)], seq![Instruction::StoreI32(2, 0)], s);
                lemma_sound_concat(seq![Instruction::LocalTeeI32(t)] + seq![Instruction::StoreI32(2, 0)], seq![Instruction::LocalGetI32(t)], s);
                assert(seq![Instruction::LocalTeeI32(t)] + seq![Instruction::StoreI32(2, 0)] + seq![Instruction::LocalGetI32(t)] =~= tail);
                lemma_sound_concat(iv, tail, s);
            } else {
                lemma_slot_bound(s, name@);
                lemma_function_bound(s, write_array_name());
                let get = seq![Instruction::LocalGetI32(slot(s, name@))];
                let call = seq![Instruction::Call(function_index(s, write_array_name()))];
                lemma_single(get[0], s);
                lemma_single(call[0], s);
                lemma_sound_concat(get, expression_code(*i, s), s);
                lemma_sound_concat(get + expression_code(*i, s), expression_code(*v, s), s);
                lemma_sound_concat(get + expression_code(*i, s) + expression_code(*v, s), call, s);
            }
        },
    }
}

pub proof fn lemma_arguments_code_sound(args: Seq<Expression>, scope: Scope)
    requires
        arguments_resolve(args, scope),
        scope.slots.len() <= usize::MAX,
        scope.functions.len() <= usize::MAX,
    ensures
        sound_code(arguments_code(args, scope), scope),
    decreases args,
{
    if args.len() == 0 {
        assert(unclosed(Seq::<Instruction>::empty()) == 0);
    } else {
        lemma_arguments_code_sound(args.drop_last(), scope);
        lemma_expression_code_sound(args.last(), scope);
        lemma_sound_concat(arguments_code(args.drop_last(), scope), expression_code(args.last(), scope), scope);
    }
}

pub proof fn lemma_block_code_sound(b: Block, scope: Scope)
    requires
        block_resolves(b, scope),
        scope.slots.len() <= usize::MAX,
        scope.functions.len() <= usize::MAX,
    ensures
        sound_code(block_code(b, scope), scope),
    decreases b,
{
    lemma_statements_code_sound(b.statements@, scope);
    match b.value {
        Some(v) => {
            lemma_expression_code_sound(*v, scope);
            lemma_sound_concat(statements_code(b.statements@, scope), expression_code(*v, scope), scope);
        },
        None => {
            assert(unclosed(Seq::<Instruction>::empty()) == 0);
            lemma_sound_concat(statements_code(b.statements@, scope), Seq::empty(), scope);
        },
    }
}

pub proof fn lemma_statements_code_sound(statements: Seq<Statement>, scope: Scope)
    requires
        statements_resolve(statements, scope),
        scope.slots.len() <= usize::MAX,
        scope.functions.len() <= usize::MAX,
    ensures
        sound_code(statements_code(statements, scope), scope),
    decreases statements,
{
    if statements.len() == 0 {
        assert(unclosed(Seq::<Instruction>::empty()) == 0);
    } else {
        lemma_statements_code_sound(statements.drop_last(), scope);
        lemma_statement_code_sound(statements.last(), scope);
        lemma_sound_concat(statements_code(statements.drop_last(), scope), statement_code(statements.last(), scope), scope);
    }
}

pub proof fn lemma_statement_code_sound(st: Statement, scope: Scope)
    requires
        statement_resolves(st, scope),
        scope.slots.len() <= usize::MAX,
        scope.functions.len() <= usize::MAX,
    ensures
        sound_code(statement_code(st, scope), scope),
    decreases st,
{
    let s = scope;
    match st {
        Statement::Let(name, e) => {
            lemma_expression_code_sound(e, s);
            lemma_slot_bound(s, name@);
            let set = seq![Instruction::LocalSetI32(slot(s, name@))];
            lemma_single(set[0], s);
            lemma_sound_concat(expression_code(e, s), set, s);
        },
        Statement::If(c, t, f) => {
            lemma_expression_code_sound(c, s);
            lemma_block_code_sound(t, s);
            let middle = match f {
                Some(f) => seq![Instruction::Else] + block_code(f, s),
                None => Seq::empty(),
            };
            match f {
                Some(f) => {
                    lemma_block_code_sound(f, s);
                    lemma_else_shape(block_code(f, s), s);
                },
                None => {
                    assert(unclosed(Seq::<Instruction>::empty()) == 0);
                },
            }
            lemma_if_shape(expression_code(c, s), None, block_code(t, s), middle, s);
        },
        Statement::While(c, body) => {
            lemma_expression_code_sound(c, s);
            lemma_block_code_sound(body, s);
            lemma_while_shape(expression_code(c, s), block_code(body, s), s);
        },
        Statement::Expression(e) => {
            lemma_expression_code_sound(e, s);
            lemma_single(Instruction::Drop, s);
            lemma_sound_concat(expression_code(e, s), seq![Instruction::Drop], s);
        },
    }
}

/// The code of a function body whose names resolve uses only indices that
/// exist, and has one `End` more than it has `If`s and `Loop`s: the one that
/// closes the body.
pub proof fn lemma_function_code_sound(body: Block, scope: Scope)
    requires
        block_resolves(body, scope),
        scope.slots.len() <= usize::MAX,
        scope.functions.len() <= usize::MAX,
    ensures
        indices_in_range(block_code(body, scope) + seq![Instruction::End], scope.slots.len(), scope.functions.len()),
        unclosed(block_code(body, scope) + seq![Instruction::End]) == -1,
{
    lemma_block_code_sound(body, scope);
    lemma_single(Instruction::End, scope);
    lemma_unclosed_concat(block_code(body, scope), seq![Instruction::End]);
    lemma_in_range_concat(block_code(body, scope), seq![Instruction::End], scope.slots.len(), scope.functions.len());
}

} // verus!

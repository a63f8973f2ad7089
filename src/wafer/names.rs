//! What a syntax tree declares and mentions, in order of appearance: the slots
//! that `let` and raw stores ask for, and the string literals.
use itertools::Itertools;
use vstd::prelude::*;

use super::syntax::{Block, Expression, Statement};

verus! {

/// The elements of `s` in order of first occurrence, each once.
pub open spec fn distinct_first(s: Seq<Seq<char>>) -> Seq<Seq<char>>
    decreases s.len(),
{
    if s.len() == 0 {
        Seq::empty()
    } else {
        let p = distinct_first(s.drop_last());
        if p.contains(s.last()) {
            p
        } else {
            p.push(s.last())
        }
    }
}

pub open spec fn string_views(s: Seq<String>) -> Seq<Seq<char>> {
    s.map_values(|x: String| x@)
}

/// Relies on `Itertools::unique`, which yields each element the first time it
/// is seen and skips it after that.
#[verifier::external_body]
pub(crate) fn unique(values: Vec<String>) -> (r: Vec<String>)
    ensures
        string_views(r@) == distinct_first(string_views(values@)),
{
    values.into_iter().unique().collect()
}

/// The name of the scratch slot that raw memory stores use.
pub open spec fn temp_name() -> Seq<char> {
    "$temp"@
}

/// Local slot requests of an expression, in pre-order: a raw or array store
/// asks for the scratch slot.
pub open spec fn expression_locals(e: Expression) -> Seq<Seq<char>>
    decreases e,
{
    match e {
        Expression::Binary(_, l, r) => expression_locals(*l) + expression_locals(*r),
        Expression::Group(inner) => expression_locals(*inner),
        Expression::If(c, t, f) => expression_locals(*c) + block_locals(*t) + block_locals(*f),
        Expression::Call(_, args) => arguments_locals(args@),
        Expression::Index(_, i) => expression_locals(*i),
        Expression::Assign(_, v) => expression_locals(*v),
        Expression::IndexAssign(_, i, v) => seq![temp_name()] + expression_locals(*i)
            + expression_locals(*v),
        _ => Seq::empty(),
    }
}

pub open spec fn arguments_locals(args: Seq<Expression>) -> Seq<Seq<char>>
    decreases args,
{
    if args.len() == 0 {
        Seq::empty()
    } else {
        arguments_locals(args.drop_last()) + expression_locals(args.last())
    }
}

pub open spec fn block_locals(b: Block) -> Seq<Seq<char>>
    decreases b,
{
    statements_locals(b.statements@) + match b.value {
        Some(v) => expression_locals(*v),
        None => Seq::empty(),
    }
}

pub open spec fn statements_locals(statements: Seq<Statement>) -> Seq<Seq<char>>
    decreases statements,
{
    if statements.len() == 0 {
        Seq::empty()
    } else {
        statements_locals(statements.drop_last()) + statement_locals(statements.last())
    }
}

/// A `let` asks for a slot named after its variable.
pub open spec fn statement_locals(s: Statement) -> Seq<Seq<char>>
    decreases s,
{
    match s {
        Statement::Let(name, e) => seq![name@] + expression_locals(e),
        Statement::If(c, t, f) => expression_locals(c) + block_locals(t) + match f {
            Some(f) => block_locals(f),
            None => Seq::empty(),
        },
        Statement::While(c, body) => expression_locals(c) + block_locals(body),
        Statement::Expression(e) => expression_locals(e),
    }
}

/// String literals of an expression, in pre-order.
pub open spec fn expression_literals(e: Expression) -> Seq<Seq<char>>
    decreases e,
{
    match e {
        Expression::Str(s) => seq![s@],
        Expression::Binary(_, l, r) => expression_literals(*l) + expression_literals(*r),
        Expression::Group(inner) => expression_literals(*inner),
        Expression::If(c, t, f) => expression_literals(*c) + block_literals(*t) + block_literals(
            *f,
        ),
        Expression::Call(_, args) => arguments_literals(args@),
        Expression::Index(_, i) => expression_literals(*i),
        Expression::Assign(_, v) => expression_literals(*v),
        Expression::IndexAssign(_, i, v) => expression_literals(*i) + expression_literals(*v),
        _ => Seq::empty(),
    }
}

pub open spec fn arguments_literals(args: Seq<Expression>) -> Seq<Seq<char>>
    decreases args,
{
    if args.len() == 0 {
        Seq::empty()
    } else {
        arguments_literals(args.drop_last()) + expression_literals(args.last())
    }
}

pub open spec fn block_literals(b: Block) -> Seq<Seq<char>>
    decreases b,
{
    statements_literals(b.statements@) + match b.value {
        Some(v) => expression_literals(*v),
        None => Seq::empty(),
    }
}

pub open spec fn statements_literals(statements: Seq<Statement>) -> Seq<Seq<char>>
    decreases statements,
{
    if statements.len() == 0 {
        Seq::empty()
    } else {
        statements_literals(statements.drop_last()) + statement_literals(statements.last())
    }
}

pub open spec fn statement_literals(s: Statement) -> Seq<Seq<char>>
    decreases s,
{
    match s {
        Statement::Let(_, e) => expression_literals(e),
        Statement::If(c, t, f) => expression_literals(c) + block_literals(t) + match f {
            Some(f) => block_literals(f),
            None => Seq::empty(),
        },
        Statement::While(c, body) => expression_literals(c) + block_literals(body),
        Statement::Expression(e) => expression_literals(e),
    }
}

/// Appends the slot requests of `e` to `out`.
pub fn collect_expression_locals(e: &Expression, out: &mut Vec<String>)
    ensures
        string_views(final(out)@) == string_views(old(out)@) + expression_locals(*e),
    decreases e,
{
    let ghost start = string_views(out@);
    match e {
        Expression::Binary(_, l, r) => {
            collect_expression_locals(l, out);
            collect_expression_locals(r, out);
        },
        Expression::Group(inner) => collect_expression_locals(inner, out),
        Expression::If(c, t, f) => {
            collect_expression_locals(c, out);
            collect_block_locals(t, out);
            collect_block_locals(f, out);
        },
        Expression::Call(_, args) => collect_arguments_locals(args, out),
        Expression::Index(_, i) => collect_expression_locals(i, out),
        Expression::Assign(_, v) => collect_expression_locals(v, out),
        Expression::IndexAssign(_, i, v) => {
            out.push("$temp".to_owned());
            collect_expression_locals(i, out);
            collect_expression_locals(v, out);
        },
        _ => {},
    }
    assert(string_views(out@) =~= start + expression_locals(*e));
}

/// Appends the slot requests of call arguments to `out`.
pub fn collect_arguments_locals(args: &Vec<Expression>, out: &mut Vec<String>)
    ensures
        string_views(final(out)@) == string_views(old(out)@) + arguments_locals(args@),
    decreases args@,
{
    let ghost start = string_views(out@);
    let mut i: usize = 0;
    while i < args.len()
        invariant
            i <= args@.len(),
            string_views(out@) == start + arguments_locals(args@.subrange(0, i as int)),
        decreases args@.len() - i,
    {
        collect_expression_locals(&args[i], out);
        assert(args@.subrange(0, i + 1).drop_last() =~= args@.subrange(0, i as int));
        i = i + 1;
    }
    assert(args@.subrange(0, args@.len() as int) =~= args@);
}

/// Appends the slot requests of `b` to `out`.
pub fn collect_block_locals(b: &Block, out: &mut Vec<String>)
    ensures
        string_views(final(out)@) == string_views(old(out)@) + block_locals(*b),
    decreases b,
{
    let ghost start = string_views(out@);
    let mut i: usize = 0;
    while i < b.statements.len()
        invariant
            i <= b.statements@.len(),
            string_views(out@) == start + statements_locals(b.statements@.subrange(0, i as int)),
        decreases b.statements@.len() - i,
    {
        collect_statement_locals(&b.statements[i], out);
        assert(b.statements@.subrange(0, i + 1).drop_last() =~= b.statements@.subrange(0, i as int));
        i = i + 1;
    }
    assert(b.statements@.subrange(0, b.statements@.len() as int) =~= b.statements@);
    match &b.value {
        Some(v) => collect_expression_locals(v, out),
        None => {},
    }
    assert(string_views(out@) =~= start + block_locals(*b));
}

/// Appends the slot requests of `s` to `out`.
pub fn collect_statement_locals(s: &Statement, out: &mut Vec<String>)
    ensures
        string_views(final(out)@) == string_views(old(out)@) + statement_locals(*s),
    decreases s,
{
    let ghost start = string_views(out@);
    match s {
        Statement::Let(name, e) => {
            out.push(name.clone());
            collect_expression_locals(e, out);
        },
        Statement::If(c, t, f) => {
            collect_expression_locals(c, out);
            collect_block_locals(t, out);
            match f {
                Some(f) => collect_block_locals(f, out),
                None => {},
            }
        },
        Statement::While(c, body) => {
            collect_expression_locals(c, out);
            collect_block_locals(body, out);
        },
        Statement::Expression(e) => collect_expression_locals(e, out),
    }
    assert(string_views(out@) =~= start + statement_locals(*s));
}

/// Appends the string literals of `e` to `out`.
pub fn collect_expression_literals(e: &Expression, out: &mut Vec<String>)
    ensures
        string_views(final(out)@) == string_views(old(out)@) + expression_literals(*e),
    decreases e,
{
    let ghost start = string_views(out@);
    match e {
        Expression::Binary(_, l, r) => {
            collect_expression_literals(l, out);
            collect_expression_literals(r, out);
        },
        Expression::Group(inner) => collect_expression_literals(inner, out),
        Expression::If(c, t, f) => {
            collect_expression_literals(c, out);
            collect_block_literals(t, out);
            collect_block_literals(f, out);
        },
        Expression::Call(_, args) => collect_arguments_literals(args, out),
        Expression::Index(_, i) => collect_expression_literals(i, out),
        Expression::Assign(_, v) => collect_expression_literals(v, out),
        Expression::Str(text) => out.push(text.clone()),
        Expression::IndexAssign(_, i, v) => {
            collect_expression_literals(i, out);
            collect_expression_literals(v, out);
        },
        _ => {},
    }
    assert(string_views(out@) =~= start + expression_literals(*e));
}

/// Appends the string literals of call arguments to `out`.
pub fn collect_arguments_literals(args: &Vec<Expression>, out: &mut Vec<String>)
    ensures
        string_views(final(out)@) == string_views(old(out)@) + arguments_literals(args@),
    decreases args@,
{
    let ghost start = string_views(out@);
    let mut i: usize = 0;
    while i < args.len()
        invariant
            i <= args@.len(),
            string_views(out@) == start + arguments_literals(args@.subrange(0, i as int)),
        decreases args@.len() - i,
    {
        collect_expression_literals(&args[i], out);
        assert(args@.subrange(0, i + 1).drop_last() =~= args@.subrange(0, i as int));
        i = i + 1;
    }
    assert(args@.subrange(0, args@.len() as int) =~= args@);
}

/// Appends the string literals of `b` to `out`.
pub fn collect_block_literals(b: &Block, out: &mut Vec<String>)
    ensures
        string_views(final(out)@) == string_views(old(out)@) + block_literals(*b),
    decreases b,
{
    let ghost start = string_views(out@);
    let mut i: usize = 0;
    while i < b.statements.len()
        invariant
            i <= b.statements@.len(),
            string_views(out@) == start + statements_literals(b.statements@.subrange(0, i as int)),
        decreases b.statements@.len() - i,
    {
        collect_statement_literals(&b.statements[i], out);
        assert(b.statements@.subrange(0, i + 1).drop_last() =~= b.statements@.subrange(0, i as int));
        i = i + 1;
    }
    assert(b.statements@.subrange(0, b.statements@.len() as int) =~= b.statements@);
    match &b.value {
        Some(v) => collect_expression_literals(v, out),
        None => {},
    }
    assert(string_views(out@) =~= start + block_literals(*b));
}

/// Appends the string literals of `s` to `out`.
pub fn collect_statement_literals(s: &Statement, out: &mut Vec<String>)
    ensures
        string_views(final(out)@) == string_views(old(out)@) + statement_literals(*s),
    decreases s,
{
    let ghost start = string_views(out@);
    match s {
        Statement::Let(_, e) => collect_expression_literals(e, out),
        Statement::If(c, t, f) => {
            collect_expression_literals(c, out);
            collect_block_literals(t, out);
            match f {
                Some(f) => collect_block_literals(f, out),
                None => {},
            }
        },
        Statement::While(c, body) => {
            collect_expression_literals(c, out);
            collect_block_literals(body, out);
        },
        Statement::Expression(e) => collect_expression_literals(e, out),
    }
    assert(string_views(out@) =~= start + statement_literals(*s));
}

} // verus!

//! The syntax tree of a Wafer program, and the tokens that each node stands for.
use vstd::prelude::*;

use super::token::{identifier, mark, number, string, TokenKind, TokenView};

verus! {

#[derive(Debug, PartialEq, Eq, Clone, Copy, Structural)]
pub enum BinaryOperator {
    Add,
    Subtract,
    Multiply,
    Divide,
    Equal,
    NotEqual,
    Less,
    LessEqual,
    Greater,
    GreaterEqual,
    And,
    Or,
}

#[derive(Debug)]
pub enum Expression {
    /// A literal in `[0, 2^31)`.
    Number(i32),
    /// A string literal, by its contents.
    Str(String),
    Identifier(String),
    Binary(BinaryOperator, Box<Expression>, Box<Expression>),
    /// A parenthesized expression.
    Group(Box<Expression>),
    /// `if cond { .. } else { .. }`, whose blocks end in a value.
    If(Box<Expression>, Box<Block>, Box<Block>),
    Call(String, Vec<Expression>),
    /// `name[index]`
    Index(String, Box<Expression>),
    /// `name := value`
    Assign(String, Box<Expression>),
    /// `name[index] := value`
    IndexAssign(String, Box<Expression>, Box<Expression>),
}

/// Statements between braces, and the expression that ends the block, if any.
#[derive(Debug)]
pub struct Block {
    pub statements: Vec<Statement>,
    pub value: Option<Box<Expression>>,
}

#[derive(Debug)]
pub enum Statement {
    Let(String, Expression),
    If(Expression, Block, Option<Block>),
    While(Expression, Block),
    Expression(Expression),
}

/// `extern func name(parameters);`
#[derive(Debug)]
pub struct ExternDeclaration {
    pub name: String,
    pub parameters: Vec<String>,
}

/// `public? func name(parameters) body`
#[derive(Debug)]
pub struct FunctionDeclaration {
    pub name: String,
    pub public: bool,
    pub parameters: Vec<String>,
    pub body: Block,
}

#[derive(Debug)]
pub enum Declaration {
    Extern(ExternDeclaration),
    Function(FunctionDeclaration),
}

pub open spec fn operator_token(op: BinaryOperator) -> TokenView {
    mark(
        match op {
            BinaryOperator::Add => TokenKind::Plus,
            BinaryOperator::Subtract => TokenKind::Minus,
            BinaryOperator::Multiply => TokenKind::Star,
            BinaryOperator::Divide => TokenKind::Slash,
            BinaryOperator::Equal => TokenKind::EqualEqual,
            BinaryOperator::NotEqual => TokenKind::NotEqual,
            BinaryOperator::Less => TokenKind::Less,
            BinaryOperator::LessEqual => TokenKind::LessEqual,
            BinaryOperator::Greater => TokenKind::Greater,
            BinaryOperator::GreaterEqual => TokenKind::GreaterEqual,
            BinaryOperator::And => TokenKind::And,
            BinaryOperator::Or => TokenKind::Or,
        },
    )
}

/// How tightly an operator binds: logical 1, comparison 2, additive 3,
/// multiplicative 4. Level 0 is a whole expression, level 5 a primary.
pub open spec fn precedence(op: BinaryOperator) -> nat {
    match op {
        BinaryOperator::And | BinaryOperator::Or => 1,
        BinaryOperator::Equal | BinaryOperator::NotEqual | BinaryOperator::Less
        | BinaryOperator::LessEqual | BinaryOperator::Greater
        | BinaryOperator::GreaterEqual => 2,
        BinaryOperator::Add | BinaryOperator::Subtract => 3,
        BinaryOperator::Multiply | BinaryOperator::Divide => 4,
    }
}

/// The tokens of an expression.
pub open spec fn expression_tokens(e: Expression) -> Seq<TokenView>
    decreases e,
{
    match e {
        Expression::Number(v) => seq![number(v as nat)],
        Expression::Str(s) => seq![string(s@)],
        Expression::Identifier(name) => seq![identifier(name@)],
        Expression::Binary(op, l, r) => expression_tokens(*l) + seq![operator_token(op)]
            + expression_tokens(*r),
        Expression::Group(inner) => seq![mark(TokenKind::LeftParen)] + expression_tokens(*inner)
            + seq![mark(TokenKind::RightParen)],
        Expression::If(c, t, f) => seq![mark(TokenKind::If)] + expression_tokens(*c)
            + block_tokens(*t) + seq![mark(TokenKind::Else)] + block_tokens(*f),
        Expression::Call(name, args) => seq![identifier(name@), mark(TokenKind::LeftParen)]
            + arguments_tokens(args@) + seq![mark(TokenKind::RightParen)],
        Expression::Index(name, i) => seq![identifier(name@), mark(TokenKind::LeftBracket)]
            + expression_tokens(*i) + seq![mark(TokenKind::RightBracket)],
        Expression::Assign(name, v) => seq![identifier(name@), mark(TokenKind::ColonEquals)]
            + expression_tokens(*v),
        Expression::IndexAssign(name, i, v) => seq![
            identifier(name@),
            mark(TokenKind::LeftBracket),
        ] + expression_tokens(*i) + seq![
            mark(TokenKind::RightBracket),
            mark(TokenKind::ColonEquals),
        ] + expression_tokens(*v),
    }
}

/// The tokens of call arguments, separated by commas.
pub open spec fn arguments_tokens(args: Seq<Expression>) -> Seq<TokenView>
    decreases args,
{
    if args.len() == 0 {
        Seq::empty()
    } else if args.len() == 1 {
        expression_tokens(args[0])
    } else {
        arguments_tokens(args.drop_last()) + seq![mark(TokenKind::Comma)] + expression_tokens(
            args.last(),
        )
    }
}

/// The tokens of a block, braces included.
pub open spec fn block_tokens(b: Block) -> Seq<TokenView>
    decreases b,
{
    seq![mark(TokenKind::LeftBrace)] + statements_tokens(b.statements@) + match b.value {
        Some(v) => expression_tokens(*v),
        None => Seq::empty(),
    } + seq![mark(TokenKind::RightBrace)]
}

pub open spec fn statements_tokens(statements: Seq<Statement>) -> Seq<TokenView>
    decreases statements,
{
    if statements.len() == 0 {
        Seq::empty()
    } else {
        statements_tokens(statements.drop_last()) + statement_tokens(statements.last())
    }
}

pub open spec fn statement_tokens(s: Statement) -> Seq<TokenView>
    decreases s,
{
    match s {
        Statement::Let(name, e) => seq![
            mark(TokenKind::Let),
            identifier(name@),
            mark(TokenKind::Equals),
        ] + expression_tokens(e) + seq![mark(TokenKind::Semicolon)],
        Statement::If(c, t, f) => seq![mark(TokenKind::If)] + expression_tokens(c) + block_tokens(t)
            + match f {
            Some(f) => seq![mark(TokenKind::Else)] + block_tokens(f),
            None => Seq::empty(),
        },
        Statement::While(c, body) => seq![mark(TokenKind::While)] + expression_tokens(c)
            + block_tokens(body),
        Statement::Expression(e) => expression_tokens(e) + seq![mark(TokenKind::Semicolon)],
    }
}

/// Operator precedence and the places where assignments may stand are respected:
/// `e` can stand where an expression of level `level` is expected.
pub open spec fn expression_wf(e: Expression, level: nat) -> bool
    decreases e,
{
    match e {
        Expression::Number(v) => v >= 0,
        Expression::Str(_) => true,
        Expression::Identifier(_) => true,
        Expression::Binary(op, l, r) => level <= precedence(op) && expression_wf(*l, precedence(op))
            && expression_wf(*r, precedence(op) + 1),
        Expression::Group(inner) => expression_wf(*inner, 0),
        Expression::If(c, t, f) => expression_wf(*c, 0) && block_wf(*t, true) && block_wf(*f, true),
        Expression::Call(_, args) => arguments_wf(args@),
        Expression::Index(_, i) => expression_wf(*i, 0),
        Expression::Assign(_, v) => level == 0 && expression_wf(*v, 0),
        Expression::IndexAssign(_, i, v) => level == 0 && expression_wf(*i, 0) && expression_wf(
            *v,
            0,
        ),
    }
}

pub open spec fn arguments_wf(args: Seq<Expression>) -> bool
    decreases args,
{
    args.len() > 0 ==> arguments_wf(args.drop_last()) && expression_wf(args.last(), 0)
}

/// A block in value position ends in an expression; one in statement position does not.
pub open spec fn block_wf(b: Block, valued: bool) -> bool
    decreases b,
{
    statements_wf(b.statements@) && match b.value {
        Some(v) => valued && expression_wf(*v, 0),
        None => !valued,
    }
}

pub open spec fn statements_wf(statements: Seq<Statement>) -> bool
    decreases statements,
{
    statements.len() > 0 ==> statements_wf(statements.drop_last()) && statement_wf(
        statements.last(),
    )
}

pub open spec fn statement_wf(s: Statement) -> bool
    decreases s,
{
    match s {
        Statement::Let(_, e) => expression_wf(e, 0),
        Statement::If(c, t, f) => expression_wf(c, 0) && block_wf(t, false) && match f {
            Some(f) => block_wf(f, false),
            None => true,
        },
        Statement::While(c, body) => expression_wf(c, 0) && block_wf(body, false),
        Statement::Expression(e) => expression_wf(e, 0),
    }
}

/// An expression that can stand at some level can stand at any lower one.
pub proof fn lemma_expression_wf_weaken(e: Expression, level: nat, lower: nat)
    requires
        expression_wf(e, level),
        lower <= level,
    ensures
        expression_wf(e, lower),
{
}

/// The names of parameters, as sequences of characters.
pub open spec fn names(names: Seq<String>) -> Seq<Seq<char>> {
    names.map_values(|s: String| s@)
}

/// Parameter names separated by commas.
pub open spec fn parameters_tokens(parameters: Seq<Seq<char>>) -> Seq<TokenView>
    decreases parameters.len(),
{
    if parameters.len() == 0 {
        Seq::empty()
    } else if parameters.len() == 1 {
        seq![identifier(parameters[0])]
    } else {
        parameters_tokens(parameters.drop_last()) + seq![
            mark(TokenKind::Comma),
            identifier(parameters.last()),
        ]
    }
}

pub open spec fn declaration_tokens(d: Declaration) -> Seq<TokenView> {
    match d {
        Declaration::Extern(x) => seq![
            mark(TokenKind::Extern),
            mark(TokenKind::Func),
            identifier(x.name@),
            mark(TokenKind::LeftParen),
        ] + parameters_tokens(names(x.parameters@)) + seq![
            mark(TokenKind::RightParen),
            mark(TokenKind::Semicolon),
        ],
        Declaration::Function(f) => (if f.public {
            seq![mark(TokenKind::Public)]
        } else {
            Seq::empty()
        }) + seq![mark(TokenKind::Func), identifier(f.name@), mark(TokenKind::LeftParen)]
            + parameters_tokens(names(f.parameters@)) + seq![mark(TokenKind::RightParen)]
            + block_tokens(f.body),
    }
}

pub open spec fn declaration_wf(d: Declaration) -> bool {
    match d {
        Declaration::Extern(_) => true,
        Declaration::Function(f) => block_wf(f.body, true),
    }
}

/// The tokens of a whole program.
pub open spec fn program_tokens(declarations: Seq<Declaration>) -> Seq<TokenView>
    decreases declarations.len(),
{
    if declarations.len() == 0 {
        Seq::empty()
    } else {
        program_tokens(declarations.drop_last()) + declaration_tokens(declarations.last())
    }
}

} // verus!

//! A recursive-descent parser from tokens to the syntax tree.
//!
//! Grammar, lowest precedence first:
//!   program     = declaration*
//!   declaration = "extern" "func" name "(" names ")" ";"
//!               | "public"? "func" name "(" names ")" block
//!   block       = "{" statement* expression? "}"
//!   statement   = "let" name "=" expression ";"
//!               | "if" expression block ("else" block)?
//!               | "while" expression block
//!               | expression ";"
//!   expression  = name ":=" expression | name "[" expression "]" ":=" expression | logical
//!   logical     = comparison (("and" | "or") comparison)*
//!   comparison  = additive (("==" | "!=" | "<" | "<=" | ">" | ">=") additive)*
//!   additive    = term (("+" | "-") term)*
//!   term        = primary (("*" | "/") primary)*
//!   primary     = number | string | name | name "(" arguments ")" | name "[" expression "]"
//!               | "(" expression ")" | "if" expression block "else" block
//! Blocks of functions and of `if` expressions end in an expression; blocks of
//! statements do not.
use vstd::prelude::*;

use super::syntax::{
    arguments_tokens, arguments_wf, block_tokens, block_wf, expression_tokens, expression_wf,
    lemma_expression_wf_weaken, operator_token, precedence, statement_tokens, statement_wf,
    statements_tokens, statements_wf, BinaryOperator, Block, Expression, Statement,
    declaration_tokens, declaration_wf, names, parameters_tokens, program_tokens, Declaration,
    ExternDeclaration, FunctionDeclaration,
};
use super::token::{identifier, mark, token_views, Token, TokenKind, TokenView};

verus! {

/// The position of the first token that the parser could not accept.
#[derive(Debug, PartialEq, Eq, Clone, Copy, Structural)]
pub struct ParseError {
    pub position: usize,
}

/// The tokens from `p` to `q` are `ts`.
pub open spec fn spans(tokens: Seq<Token>, p: int, q: int, ts: Seq<TokenView>) -> bool {
    0 <= p <= q <= tokens.len() && token_views(tokens).subrange(p, q) == ts
}

proof fn lemma_join(tokens: Seq<Token>, p: int, m: int, q: int, a: Seq<TokenView>, b: Seq<TokenView>)
    requires
        spans(tokens, p, m, a),
        spans(tokens, m, q, b),
    ensures
        spans(tokens, p, q, a + b),
{
    assert(token_views(tokens).subrange(p, q) =~= token_views(tokens).subrange(p, m) + token_views(
        tokens,
    ).subrange(m, q));
}

proof fn lemma_one(tokens: Seq<Token>, p: int)
    requires
        0 <= p < tokens.len(),
    ensures
        spans(tokens, p, p + 1, seq![tokens[p]@]),
{
    assert(token_views(tokens).subrange(p, p + 1) =~= seq![tokens[p]@]);
}

proof fn lemma_empty(tokens: Seq<Token>, p: int)
    requires
        0 <= p <= tokens.len(),
    ensures
        spans(tokens, p, p, Seq::empty()),
{
    assert(token_views(tokens).subrange(p, p) =~= Seq::<TokenView>::empty());
}

/// The precedence of an operator token; zero for other tokens.
pub open spec fn operator_level(kind: TokenKind) -> nat {
    match kind {
        TokenKind::And | TokenKind::Or => 1,
        TokenKind::EqualEqual | TokenKind::NotEqual | TokenKind::Less | TokenKind::LessEqual
        | TokenKind::Greater | TokenKind::GreaterEqual => 2,
        TokenKind::Plus | TokenKind::Minus => 3,
        TokenKind::Star | TokenKind::Slash => 4,
        _ => 0,
    }
}

/// A token of this kind, right after an expression of level `level`, would
/// make the parser read on: a call, an index, an assignment or an operator.
pub open spec fn extends(kind: TokenKind, level: nat) -> bool {
    ||| kind == TokenKind::LeftParen
    ||| kind == TokenKind::LeftBracket
    ||| (level == 0 && kind == TokenKind::ColonEquals)
    ||| (operator_level(kind) >= 1 && operator_level(kind) >= level)
}

/// Whether the token at `q` of `tokens` has the given kind.
pub open spec fn kind_at(tokens: Seq<Token>, q: int, kind: TokenKind) -> bool {
    0 <= q < tokens.len() && tokens[q].kind == kind
}

/// An expression of level `level` may end at `q`.
pub open spec fn ends_before(tokens: Seq<Token>, q: int, level: nat) -> bool {
    q < tokens.len() ==> !extends(tokens[q].kind, level)
}

/// The tokens from `pos` are those of `e`, which can stand at `level` and which
/// the next token does not continue.
pub open spec fn expression_at(tokens: Seq<Token>, pos: int, e: Expression, level: nat) -> bool {
    &&& spans(tokens, pos, pos + expression_tokens(e).len(), expression_tokens(e))
    &&& expression_wf(e, level)
    &&& ends_before(tokens, pos + expression_tokens(e).len(), level)
}

/// The tokens from `pos` are call arguments `args`, then `)`.
pub open spec fn arguments_at(tokens: Seq<Token>, pos: int, args: Seq<Expression>) -> bool {
    &&& spans(tokens, pos, pos + arguments_tokens(args).len(), arguments_tokens(args))
    &&& arguments_wf(args)
    &&& kind_at(tokens, pos + arguments_tokens(args).len(), TokenKind::RightParen)
}

pub open spec fn block_at(tokens: Seq<Token>, pos: int, b: Block, valued: bool) -> bool {
    spans(tokens, pos, pos + block_tokens(b).len(), block_tokens(b)) && block_wf(b, valued)
}

/// The tokens from `pos` are the statement `s`, and no `else` follows it.
pub open spec fn statement_at(tokens: Seq<Token>, pos: int, s: Statement) -> bool {
    &&& spans(tokens, pos, pos + statement_tokens(s).len(), statement_tokens(s))
    &&& statement_wf(s)
    &&& !kind_at(tokens, pos + statement_tokens(s).len(), TokenKind::Else)
}

/// The tokens from `pos` are the value `v` of a block, then its `}`.
pub open spec fn value_at(tokens: Seq<Token>, pos: int, v: Expression) -> bool {
    &&& spans(
        tokens,
        pos,
        pos + expression_tokens(v).len() + 1,
        expression_tokens(v) + seq![mark(TokenKind::RightBrace)],
    )
    &&& expression_wf(v, 0)
}

/// The tokens from `pos` are an `if` expression.
pub open spec fn if_expression_at(tokens: Seq<Token>, pos: int, x: Expression) -> bool {
    &&& x is If
    &&& spans(tokens, pos, pos + expression_tokens(x).len(), expression_tokens(x))
    &&& expression_wf(x, 0)
}

pub open spec fn starts_expression(kind: TokenKind) -> bool {
    kind == TokenKind::Number || kind == TokenKind::Str || kind == TokenKind::Identifier || kind
        == TokenKind::LeftParen || kind == TokenKind::If
}

proof fn lemma_view_kind(t: Token)
    ensures
        t@.0 == t.kind,
{
}

/// The token at `p + k` is the `k`-th of a span.
proof fn lemma_span_at(tokens: Seq<Token>, p: int, q: int, ts: Seq<TokenView>, k: int)
    requires
        spans(tokens, p, q, ts),
        0 <= k < ts.len(),
    ensures
        tokens[p + k]@ == ts[k],
        tokens[p + k].kind == ts[k].0,
{
    assert(token_views(tokens).subrange(p, q)[k] == token_views(tokens)[p + k]);
    lemma_view_kind(tokens[p + k]);
}

/// A span splits into spans of its two parts.
proof fn lemma_split(tokens: Seq<Token>, p: int, a: Seq<TokenView>, b: Seq<TokenView>)
    requires
        spans(tokens, p, p + (a + b).len(), a + b),
    ensures
        spans(tokens, p, p + a.len(), a),
        spans(tokens, p + a.len(), p + a.len() + b.len(), b),
{
    let v = token_views(tokens);
    let whole = v.subrange(p, p + (a + b).len());
    assert(whole == a + b);
    assert(v.subrange(p, p + a.len()) =~= whole.subrange(0, a.len() as int));
    assert(whole.subrange(0, a.len() as int) =~= a);
    assert(v.subrange(p + a.len(), p + a.len() + b.len()) =~= whole.subrange(
        a.len() as int,
        (a + b).len() as int,
    ));
    assert(whole.subrange(a.len() as int, (a + b).len() as int) =~= b);
}

/// A prefix of a span is a span.
proof fn lemma_prefix(tokens: Seq<Token>, p: int, a: Seq<TokenView>, whole: Seq<TokenView>)
    requires
        spans(tokens, p, p + whole.len(), whole),
        a.is_prefix_of(whole),
    ensures
        spans(tokens, p, p + a.len(), a),
{
    assert(whole =~= a + whole.subrange(a.len() as int, whole.len() as int));
    lemma_split(tokens, p, a, whole.subrange(a.len() as int, whole.len() as int));
}

/// Expressions start with a literal, a name, `(` or `if`; an expression other
/// than an assignment never has `:=` as its second token.
proof fn lemma_expression_start(e: Expression, level: nat)
    requires
        expression_wf(e, level),
    ensures
        expression_tokens(e).len() >= 1,
        starts_expression(expression_tokens(e)[0].0),
        !(e is Assign) && expression_tokens(e).len() >= 2 ==> expression_tokens(e)[1].0
            != TokenKind::ColonEquals,
        expression_tokens(e)[0].0 == TokenKind::If ==> leftmost(e) is If && expression_wf(
            leftmost(e),
            0,
        ),
        expression_tokens(leftmost(e)).is_prefix_of(expression_tokens(e)),
    decreases e,
{
    match e {
        Expression::Binary(op, l, r) => {
            lemma_expression_start(*l, precedence(op));
            lemma_expression_start(*r, precedence(op) + 1);
            let t = expression_tokens(e);
            assert(t == expression_tokens(*l) + (seq![operator_token(op)] + expression_tokens(*r)));
            assert(t[0] == expression_tokens(*l)[0]);
            assert(precedence(op) >= 1);
            assert(expression_wf(*l, precedence(op)));
            assert(!(*l is Assign));
            assert(operator_token(op).0 != TokenKind::ColonEquals);
            if expression_tokens(*l).len() >= 2 {
                assert(t[1] == expression_tokens(*l)[1]);
            } else {
                assert(t[1] == operator_token(op));
            }
            assert(expression_tokens(leftmost(*l)).is_prefix_of(expression_tokens(*l)));
        },
        Expression::Group(inner) => {
            lemma_expression_start(*inner, 0);
        },
        Expression::If(c, _, _) => {
            lemma_expression_start(*c, 0);
        },
        Expression::Index(_, i) => {},
        Expression::IndexAssign(_, i, _) => {},
        _ => {},
    }
}

/// The leftmost operand of an operator chain.
pub open spec fn leftmost(e: Expression) -> Expression
    decreases e,
{
    match e {
        Expression::Binary(_, l, _) => leftmost(*l),
        _ => e,
    }
}

/// Statements start with `let`, `while`, `if` or an expression; never with
/// `else` or `}`.
proof fn lemma_statement_start(s: Statement)
    requires
        statement_wf(s),
    ensures
        statement_tokens(s).len() >= 1,
        statement_tokens(s)[0].0 != TokenKind::Else,
        statement_tokens(s)[0].0 != TokenKind::RightBrace,
        statement_tokens(s)[0].0 == TokenKind::Let <==> s is Let,
        statement_tokens(s)[0].0 == TokenKind::While <==> s is While,
        s is If ==> statement_tokens(s)[0].0 == TokenKind::If,
{
    match s {
        Statement::Let(_, _) => {},
        Statement::If(c, _, _) => {},
        Statement::While(c, _) => {},
        Statement::Expression(e) => {
            lemma_expression_start(e, 0);
            assert(statement_tokens(s)[0] == expression_tokens(e)[0]);
        },
    }
}

proof fn lemma_block_start(b: Block)
    ensures
        block_tokens(b).len() >= 2,
        block_tokens(b)[0] == mark(TokenKind::LeftBrace),
{
}

/// An expression of a lower level can stand at a higher one, unless it is an
/// assignment or an operator of too low a precedence.
proof fn lemma_wf_raise(e: Expression)
    requires
        expression_wf(e, 0),
        !(e is Assign) && !(e is IndexAssign),
    ensures
        expression_wf(e, 1),
{
}

/// Chains of operators of one precedence: the leftmost operand and the
/// `(operator, operand)` pairs that follow it.
pub open spec fn chain_head(e: Expression, level: nat) -> Expression
    decreases e,
{
    match e {
        Expression::Binary(op, l, _) => if precedence(op) == level {
            chain_head(*l, level)
        } else {
            e
        },
        _ => e,
    }
}

pub open spec fn chain_tail(e: Expression, level: nat) -> Seq<(BinaryOperator, Expression)>
    decreases e,
{
    match e {
        Expression::Binary(op, l, r) => if precedence(op) == level {
            chain_tail(*l, level).push((op, *r))
        } else {
            Seq::empty()
        },
        _ => Seq::empty(),
    }
}

pub open spec fn chain_tokens(tail: Seq<(BinaryOperator, Expression)>) -> Seq<TokenView>
    decreases tail.len(),
{
    if tail.len() == 0 {
        Seq::empty()
    } else {
        chain_tokens(tail.drop_last()) + seq![operator_token(tail.last().0)] + expression_tokens(
            tail.last().1,
        )
    }
}

proof fn lemma_chain(e: Expression, level: nat)
    requires
        expression_wf(e, level),
        1 <= level <= 4,
    ensures
        expression_tokens(e) == expression_tokens(chain_head(e, level)) + chain_tokens(
            chain_tail(e, level),
        ),
        expression_wf(chain_head(e, level), level + 1),
        forall|i: int|
            0 <= i < chain_tail(e, level).len() ==> precedence(
                (#[trigger] chain_tail(e, level)[i]).0,
            ) == level && expression_wf(chain_tail(e, level)[i].1, level + 1),
        e is Index ==> chain_head(e, level) == e && chain_tail(e, level).len() == 0,
    decreases e,
{
    match e {
        Expression::Binary(op, l, r) => {
            if precedence(op) == level {
                lemma_chain(*l, level);
                let tail = chain_tail(e, level);
                assert(tail.drop_last() =~= chain_tail(*l, level));
            } else {
                assert(chain_tokens(Seq::<(BinaryOperator, Expression)>::empty()) =~= Seq::empty());
                assert(expression_tokens(e) + Seq::<TokenView>::empty() =~= expression_tokens(e));
            }
        },
        _ => {
            assert(expression_tokens(e) + Seq::<TokenView>::empty() =~= expression_tokens(e));
        },
    }
}

proof fn lemma_chain_prefix(tail: Seq<(BinaryOperator, Expression)>, c: int)
    requires
        0 <= c <= tail.len(),
    ensures
        chain_tokens(tail.subrange(0, c)).is_prefix_of(chain_tokens(tail)),
        c < tail.len() ==> chain_tokens(tail.subrange(0, c + 1)) == chain_tokens(tail.subrange(0, c))
            + seq![operator_token(tail[c].0)] + expression_tokens(tail[c].1),
    decreases tail.len() - c,
{
    if c < tail.len() {
        assert(tail.subrange(0, c + 1).drop_last() =~= tail.subrange(0, c));
        lemma_chain_prefix(tail, c + 1);
    } else {
        assert(tail.subrange(0, c) =~= tail);
    }
}

proof fn lemma_arguments_prefix(args: Seq<Expression>, c: int)
    requires
        1 <= c <= args.len(),
    ensures
        arguments_tokens(args.subrange(0, c)).is_prefix_of(arguments_tokens(args)),
        c < args.len() ==> arguments_tokens(args.subrange(0, c + 1)) == arguments_tokens(
            args.subrange(0, c),
        ) + seq![mark(TokenKind::Comma)] + expression_tokens(args[c]),
        arguments_wf(args) ==> expression_wf(args[c - 1], 0),
    decreases args.len() - c,
{
    if c < args.len() {
        assert(args.subrange(0, c + 1).drop_last() =~= args.subrange(0, c));
        lemma_arguments_prefix(args, c + 1);
    } else {
        assert(args.subrange(0, c) =~= args);
    }
    if arguments_wf(args) {
        lemma_arguments_wf_prefix(args, c);
    }
}

proof fn lemma_arguments_wf_prefix(args: Seq<Expression>, c: int)
    requires
        0 <= c <= args.len(),
        arguments_wf(args),
    ensures
        arguments_wf(args.subrange(0, c)),
        c >= 1 ==> expression_wf(args[c - 1], 0),
    decreases args.len() - c,
{
    if c < args.len() {
        assert(args.subrange(0, c + 1).drop_last() =~= args.subrange(0, c));
        lemma_arguments_wf_prefix(args, c + 1);
    } else {
        assert(args.subrange(0, c) =~= args);
    }
    if c >= 1 {
        let prefix = args.subrange(0, c);
        assert(prefix.last() == args[c - 1]);
        assert(arguments_wf(prefix));
        assert(expression_wf(prefix.last(), 0));
    }
}

proof fn lemma_first_argument(args: Seq<Expression>)
    requires
        args.len() >= 1,
    ensures
        arguments_tokens(args.subrange(0, 1)) == expression_tokens(args[0]),
{
    assert(args.subrange(0, 1).drop_last() =~= Seq::<Expression>::empty());
}

proof fn lemma_statements_prefix(ss: Seq<Statement>, c: int)
    requires
        0 <= c <= ss.len(),
    ensures
        statements_tokens(ss.subrange(0, c)).is_prefix_of(statements_tokens(ss)),
        c < ss.len() ==> statements_tokens(ss.subrange(0, c + 1)) == statements_tokens(
            ss.subrange(0, c),
        ) + statement_tokens(ss[c]),
        statements_wf(ss) ==> statements_wf(ss.subrange(0, c)),
        statements_wf(ss) && c < ss.len() ==> statement_wf(ss[c]),
    decreases ss.len() - c,
{
    if c < ss.len() {
        assert(ss.subrange(0, c + 1).drop_last() =~= ss.subrange(0, c));
        lemma_statements_prefix(ss, c + 1);
    } else {
        assert(ss.subrange(0, c) =~= ss);
    }
}

proof fn lemma_parameters_prefix(ps: Seq<Seq<char>>, c: int)
    requires
        1 <= c <= ps.len(),
    ensures
        parameters_tokens(ps.subrange(0, c)).is_prefix_of(parameters_tokens(ps)),
        c < ps.len() ==> parameters_tokens(ps.subrange(0, c + 1)) == parameters_tokens(
            ps.subrange(0, c),
        ) + seq![mark(TokenKind::Comma), identifier(ps[c])],
        parameters_tokens(ps.subrange(0, 1)) == seq![identifier(ps[0])],
    decreases ps.len() - c,
{
    if c < ps.len() {
        assert(ps.subrange(0, c + 1).drop_last() =~= ps.subrange(0, c));
        lemma_parameters_prefix(ps, c + 1);
    } else {
        assert(ps.subrange(0, c) =~= ps);
    }
}

proof fn lemma_program_prefix(ds: Seq<Declaration>, c: int)
    requires
        0 <= c <= ds.len(),
    ensures
        program_tokens(ds.subrange(0, c)).is_prefix_of(program_tokens(ds)),
        c < ds.len() ==> program_tokens(ds.subrange(0, c + 1)) == program_tokens(ds.subrange(0, c))
            + declaration_tokens(ds[c]),
    decreases ds.len() - c,
{
    if c < ds.len() {
        assert(ds.subrange(0, c + 1).drop_last() =~= ds.subrange(0, c));
        lemma_program_prefix(ds, c + 1);
    } else {
        assert(ds.subrange(0, c) =~= ds);
    }
}

proof fn lemma_operator_level(op: BinaryOperator)
    ensures
        operator_level(operator_token(op).0) == precedence(op),
        operator_token(op).0 != TokenKind::LeftParen,
        operator_token(op).0 != TokenKind::LeftBracket,
        operator_token(op).0 != TokenKind::ColonEquals,
{
}

/// Where the parser of a chain of level `level` stands after `c` operators.
pub open spec fn chain_position(e: Expression, level: nat, pos: int, c: int) -> int {
    pos + expression_tokens(chain_head(e, level)).len() + chain_tokens(
        chain_tail(e, level).subrange(0, c),
    ).len()
}

proof fn lemma_chain_position(t: Seq<Token>, pos: int, e: Expression, level: nat, c: int)
    requires
        expression_at(t, pos, e, level),
        1 <= level <= 4,
        0 <= c <= chain_tail(e, level).len(),
    ensures
        c == 0 ==> expression_at(t, pos, chain_head(e, level), level + 1) && chain_position(
            e,
            level,
            pos,
            0,
        ) == pos + expression_tokens(chain_head(e, level)).len(),
        c < chain_tail(e, level).len() ==> {
            let q = chain_position(e, level, pos, c);
            let (op, r) = chain_tail(e, level)[c];
            &&& t[q]@ == operator_token(op)
            &&& t[q].kind == operator_token(op).0
            &&& operator_level(t[q].kind) == level
            &&& expression_at(t, q + 1, r, level + 1)
            &&& q + 1 + expression_tokens(r).len() == chain_position(e, level, pos, c + 1)
        },
        c == chain_tail(e, level).len() ==> chain_position(e, level, pos, c) == pos
            + expression_tokens(e).len(),
    decreases chain_tail(e, level).len() - c,
{
    lemma_chain(e, level);
    let h = expression_tokens(chain_head(e, level));
    let tail = chain_tail(e, level);
    let whole = expression_tokens(e);
    lemma_chain_prefix(tail, c);
    assert(tail.subrange(0, 0) =~= Seq::<(BinaryOperator, Expression)>::empty());
    if c < tail.len() {
        lemma_chain_prefix(tail, c + 1);
        let p = chain_tokens(tail.subrange(0, c));
        let (op, r) = tail[c];
        let upto = h + p + seq![operator_token(op)] + expression_tokens(r);
        assert(chain_tokens(tail.subrange(0, c + 1)).is_prefix_of(chain_tokens(tail)));
        assert(upto.is_prefix_of(whole)) by {
            assert(upto =~= h + chain_tokens(tail.subrange(0, c + 1)));
        }
        lemma_prefix(t, pos, upto, whole);
        lemma_split(t, pos, h + p + seq![operator_token(op)], expression_tokens(r));
        lemma_span_at(t, pos, pos + upto.len(), upto, (h.len() + p.len()) as int);
        lemma_operator_level(op);
        let q = chain_position(e, level, pos, c);
        let after = q + 1 + expression_tokens(r).len();
        if c + 1 < tail.len() {
            lemma_chain_position(t, pos, e, level, c + 1);
            lemma_operator_level(tail[c + 1].0);
        } else {
            assert(tail.subrange(0, c + 1) =~= tail);
        }
        assert(ends_before(t, after, level + 1));
    }
    if c == tail.len() {
        assert(tail.subrange(0, c) =~= tail);
    }
    if c == 0 {
        assert(chain_tokens(tail.subrange(0, 0)) =~= Seq::<TokenView>::empty());
        assert(h.is_prefix_of(whole));
        lemma_prefix(t, pos, h, whole);
    }
}

/// The end of an expression's tokens that start at `pos`.
pub open spec fn end_of(pos: int, e: Expression) -> int {
    pos + expression_tokens(e).len()
}

proof fn lemma_primary_parts(t: Seq<Token>, pos: int, e: Expression)
    requires
        expression_at(t, pos, e, 5),
    ensures
        0 <= pos < t.len(),
        t[pos]@ == expression_tokens(e)[0],
        t[pos].kind == expression_tokens(e)[0].0,
        starts_expression(t[pos].kind),
        e is Number ==> t[pos].kind == TokenKind::Number && end_of(pos, e) == pos + 1
            && t[pos].value <= i32::MAX,
        e is Str ==> t[pos].kind == TokenKind::Str && end_of(pos, e) == pos + 1,
        e is Identifier ==> t[pos].kind == TokenKind::Identifier && end_of(pos, e) == pos + 1
            && !kind_at(t, pos + 1, TokenKind::LeftParen) && !kind_at(t, pos + 1, TokenKind::LeftBracket),
        e matches Expression::Group(inner) ==> t[pos].kind == TokenKind::LeftParen && expression_at(
            t,
            pos + 1,
            *inner,
            0,
        ) && kind_at(t, end_of(pos + 1, *inner), TokenKind::RightParen) && end_of(pos, e) == end_of(
            pos + 1,
            *inner,
        ) + 1,
        e matches Expression::If(c, tb, fb) ==> t[pos].kind == TokenKind::If && expression_at(
            t,
            pos + 1,
            *c,
            0,
        ) && block_at(t, end_of(pos + 1, *c), *tb, true) && kind_at(
            t,
            end_of(pos + 1, *c) + block_tokens(*tb).len(),
            TokenKind::Else,
        ) && block_at(t, end_of(pos + 1, *c) + block_tokens(*tb).len() + 1, *fb, true) && end_of(
            pos,
            e,
        ) == end_of(pos + 1, *c) + block_tokens(*tb).len() + 1 + block_tokens(*fb).len(),
        e matches Expression::Call(_, args) ==> t[pos].kind == TokenKind::Identifier && kind_at(
            t,
            pos + 1,
            TokenKind::LeftParen,
        ) && arguments_at(t, pos + 2, args@) && end_of(pos, e) == pos + 2 + arguments_tokens(
            args@,
        ).len() + 1,
        e matches Expression::Index(_, i) ==> t[pos].kind == TokenKind::Identifier && kind_at(
            t,
            pos + 1,
            TokenKind::LeftBracket,
        ) && expression_at(t, pos + 2, *i, 0) && kind_at(t, end_of(pos + 2, *i), TokenKind::RightBracket)
            && end_of(pos, e) == end_of(pos + 2, *i) + 1,
        !(e is Binary) && !(e is Assign) && !(e is IndexAssign),
{
    let whole = expression_tokens(e);
    lemma_expression_start(e, 5);
    lemma_span_at(t, pos, end_of(pos, e), whole, 0);
    match e {
        Expression::Number(v) => {},
        Expression::Str(_) => {},
        Expression::Identifier(_) => {},
        Expression::Group(inner) => {
            let a = seq![mark(TokenKind::LeftParen)];
            let m = expression_tokens(*inner);
            let z = seq![mark(TokenKind::RightParen)];
            assert(whole == a + m + z);
            lemma_split(t, pos, a + m, z);
            lemma_split(t, pos, a, m);
            lemma_span_at(t, end_of(pos + 1, *inner), end_of(pos + 1, *inner) + 1, z, 0);
            lemma_expression_start(*inner, 0);
        },
        Expression::If(c, tb, fb) => {
            let a = seq![mark(TokenKind::If)];
            let cc = expression_tokens(*c);
            let bt = block_tokens(*tb);
            let el = seq![mark(TokenKind::Else)];
            let bf = block_tokens(*fb);
            assert(whole == a + cc + bt + el + bf);
            lemma_split(t, pos, a + cc + bt + el, bf);
            lemma_split(t, pos, a + cc + bt, el);
            lemma_split(t, pos, a + cc, bt);
            lemma_split(t, pos, a, cc);
            lemma_span_at(t, pos + 1 + cc.len() + bt.len(), pos + 1 + cc.len() + bt.len() + 1, el, 0);
            lemma_block_start(*tb);
            lemma_span_at(t, pos + 1 + cc.len(), pos + 1 + cc.len() + bt.len(), bt, 0);
        },
        Expression::Call(name, args) => {
            let a = seq![identifier(name@), mark(TokenKind::LeftParen)];
            let m = arguments_tokens(args@);
            let z = seq![mark(TokenKind::RightParen)];
            assert(whole == a + m + z);
            lemma_split(t, pos, a + m, z);
            lemma_split(t, pos, a, m);
            lemma_span_at(t, pos, pos + 2, a, 1);
            lemma_span_at(t, pos + 2 + m.len(), pos + 3 + m.len(), z, 0);
        },
        Expression::Index(name, i) => {
            let a = seq![identifier(name@), mark(TokenKind::LeftBracket)];
            let m = expression_tokens(*i);
            let z = seq![mark(TokenKind::RightBracket)];
            assert(whole == a + m + z);
            lemma_split(t, pos, a + m, z);
            lemma_split(t, pos, a, m);
            lemma_span_at(t, pos, pos + 2, a, 1);
            lemma_span_at(t, end_of(pos + 2, *i), end_of(pos + 2, *i) + 1, z, 0);
        },
        _ => {},
    }
}

proof fn lemma_block_parts(t: Seq<Token>, pos: int, b: Block, valued: bool, c: int)
    requires
        block_at(t, pos, b, valued),
        0 <= c <= b.statements@.len(),
    ensures
        kind_at(t, pos, TokenKind::LeftBrace),
        ({
            let ss = b.statements@;
            let q = pos + 1 + statements_tokens(ss.subrange(0, c)).len();
            &&& c < ss.len() ==> statement_at(t, q, ss[c]) && !kind_at(t, q, TokenKind::RightBrace)
                && !kind_at(t, q, TokenKind::Else) && q + statement_tokens(ss[c]).len() == pos + 1 + statements_tokens(
                ss.subrange(0, c + 1),
            ).len()
            &&& c == ss.len() ==> match b.value {
                None => kind_at(t, q, TokenKind::RightBrace) && q + 1 == pos + block_tokens(b).len(),
                Some(v) => value_at(t, q, *v) && expression_at(t, q, *v, 0) && !kind_at(
                    t,
                    q,
                    TokenKind::RightBrace,
                ) && !kind_at(t, q, TokenKind::Else) && kind_at(t, end_of(q, *v), TokenKind::RightBrace) && end_of(q, *v) + 1 == pos
                    + block_tokens(b).len(),
            }
        }),
    decreases b.statements@.len() - c,
{
    let ss = b.statements@;
    let whole = block_tokens(b);
    let st = statements_tokens(ss);
    let val = match b.value {
        Some(v) => expression_tokens(*v),
        None => Seq::empty(),
    };
    let open = seq![mark(TokenKind::LeftBrace)];
    let close = seq![mark(TokenKind::RightBrace)];
    assert(whole == open + st + val + close);
    lemma_span_at(t, pos, pos + whole.len(), whole, 0);
    lemma_statements_prefix(ss, c);
    let p = statements_tokens(ss.subrange(0, c));
    let q = pos + 1 + p.len();
    if c < ss.len() {
        lemma_statements_prefix(ss, c + 1);
        let s = ss[c];
        let upto = open + p + statement_tokens(s);
        assert(upto =~= open + statements_tokens(ss.subrange(0, c + 1)));
        assert(upto.is_prefix_of(whole)) by {
            assert(statements_tokens(ss.subrange(0, c + 1)).is_prefix_of(st));
        }
        lemma_prefix(t, pos, upto, whole);
        lemma_split(t, pos, open + p, statement_tokens(s));
        lemma_statement_start(s);
        lemma_span_at(t, q, q + statement_tokens(s).len(), statement_tokens(s), 0);
        let after = q + statement_tokens(s).len();
        if c + 1 < ss.len() {
            lemma_block_parts(t, pos, b, valued, c + 1);
            lemma_statement_start(ss[c + 1]);
        } else {
            lemma_block_parts(t, pos, b, valued, c + 1);
        }
        assert(!kind_at(t, after, TokenKind::Else));
    } else {
        assert(ss.subrange(0, c) =~= ss);
        assert(whole == open + p + val + close);
        lemma_split(t, pos, open + p + val, close);
        lemma_span_at(t, q + val.len(), q + val.len() + 1, close, 0);
        match b.value {
            Some(v) => {
                assert(open + p + val + close =~= open + p + (val + close));
                lemma_split(t, pos, open + p, val + close);
                lemma_split(t, q, val, close);
                lemma_expression_start(*v, 0);
                lemma_span_at(t, q, q + val.len(), val, 0);
            },
            None => {
                assert(open + p + val =~= open + p);
            },
        }
    }
}

proof fn lemma_leftmost_if(t: Seq<Token>, pos: int, e: Expression, level: nat)
    requires
        spans(t, pos, end_of(pos, e), expression_tokens(e)),
        expression_wf(e, level),
        pos < t.len() && t[pos].kind == TokenKind::If,
    ensures
        if_expression_at(t, pos, leftmost(e)),
{
    lemma_expression_start(e, level);
    lemma_span_at(t, pos, end_of(pos, e), expression_tokens(e), 0);
    lemma_prefix(t, pos, expression_tokens(leftmost(e)), expression_tokens(e));
}

proof fn lemma_if_expression_parts(t: Seq<Token>, pos: int, x: Expression)
    requires
        if_expression_at(t, pos, x),
    ensures
        x matches Expression::If(c, tb, _) ==> kind_at(t, pos, TokenKind::If) && expression_at(
            t,
            pos + 1,
            *c,
            0,
        ) && block_at(t, end_of(pos + 1, *c), *tb, true),
{
    if let Expression::If(c, tb, fb) = x {
        let whole = expression_tokens(x);
        let a = seq![mark(TokenKind::If)];
        let cc = expression_tokens(*c);
        let bt = block_tokens(*tb);
        let rest = seq![mark(TokenKind::Else)] + block_tokens(*fb);
        assert(whole =~= a + cc + bt + rest);
        lemma_split(t, pos, a + cc + bt, rest);
        lemma_split(t, pos, a + cc, bt);
        lemma_split(t, pos, a, cc);
        lemma_span_at(t, pos, pos + 1, a, 0);
        lemma_block_start(*tb);
        lemma_span_at(t, pos + 1 + cc.len(), pos + 1 + cc.len() + bt.len(), bt, 0);
    }
}

proof fn lemma_value_parts(t: Seq<Token>, pos: int, v: Expression)
    requires
        value_at(t, pos, v),
    ensures
        0 <= pos < t.len(),
        expression_at(t, pos, v, 0),
        kind_at(t, end_of(pos, v), TokenKind::RightBrace),
        t[pos].kind != TokenKind::Let && t[pos].kind != TokenKind::While,
        t[pos].kind == TokenKind::If ==> if_expression_at(t, pos, leftmost(v)),
{
    let close = seq![mark(TokenKind::RightBrace)];
    lemma_split(t, pos, expression_tokens(v), close);
    lemma_span_at(t, end_of(pos, v), end_of(pos, v) + 1, close, 0);
    lemma_expression_start(v, 0);
    lemma_span_at(t, pos, end_of(pos, v), expression_tokens(v), 0);
    if t[pos].kind == TokenKind::If {
        lemma_leftmost_if(t, pos, v, 0);
    }
}

proof fn lemma_statement_parts(t: Seq<Token>, pos: int, s: Statement)
    requires
        statement_at(t, pos, s),
    ensures
        0 <= pos < t.len(),
        t[pos].kind == TokenKind::Let <==> s is Let,
        t[pos].kind == TokenKind::While <==> s is While,
        s is If ==> t[pos].kind == TokenKind::If,
        s matches Statement::Let(_, e) ==> kind_at(t, pos + 1, TokenKind::Identifier) && kind_at(
            t,
            pos + 2,
            TokenKind::Equals,
        ) && expression_at(t, pos + 3, e, 0) && kind_at(t, end_of(pos + 3, e), TokenKind::Semicolon)
            && pos + statement_tokens(s).len() == end_of(pos + 3, e) + 1,
        s matches Statement::While(c, body) ==> expression_at(t, pos + 1, c, 0) && block_at(
            t,
            end_of(pos + 1, c),
            body,
            false,
        ) && pos + statement_tokens(s).len() == end_of(pos + 1, c) + block_tokens(body).len(),
        s matches Statement::If(c, tb, f) ==> expression_at(t, pos + 1, c, 0) && block_at(
            t,
            end_of(pos + 1, c),
            tb,
            false,
        ) && match f {
            None => !kind_at(t, end_of(pos + 1, c) + block_tokens(tb).len(), TokenKind::Else)
                && pos + statement_tokens(s).len() == end_of(pos + 1, c) + block_tokens(tb).len(),
            Some(fb) => kind_at(t, end_of(pos + 1, c) + block_tokens(tb).len(), TokenKind::Else)
                && block_at(t, end_of(pos + 1, c) + block_tokens(tb).len() + 1, fb, false) && pos
                + statement_tokens(s).len() == end_of(pos + 1, c) + block_tokens(tb).len() + 1
                + block_tokens(fb).len(),
        },
        s matches Statement::Expression(e) ==> expression_at(t, pos, e, 0) && kind_at(
            t,
            end_of(pos, e),
            TokenKind::Semicolon,
        ) && pos + statement_tokens(s).len() == end_of(pos, e) + 1 && (t[pos].kind == TokenKind::If
            ==> if_expression_at(t, pos, leftmost(e))),
{
    let whole = statement_tokens(s);
    lemma_statement_start(s);
    lemma_span_at(t, pos, pos + whole.len(), whole, 0);
    match s {
        Statement::Let(name, e) => {
            let a = seq![mark(TokenKind::Let), identifier(name@), mark(TokenKind::Equals)];
            let m = expression_tokens(e);
            let z = seq![mark(TokenKind::Semicolon)];
            lemma_split(t, pos, a + m, z);
            lemma_split(t, pos, a, m);
            lemma_span_at(t, pos, pos + 3, a, 1);
            lemma_span_at(t, pos, pos + 3, a, 2);
            lemma_span_at(t, end_of(pos + 3, e), end_of(pos + 3, e) + 1, z, 0);
        },
        Statement::While(c, body) => {
            let a = seq![mark(TokenKind::While)];
            let m = expression_tokens(c);
            let bt = block_tokens(body);
            lemma_split(t, pos, a + m, bt);
            lemma_split(t, pos, a, m);
            lemma_block_start(body);
            lemma_span_at(t, end_of(pos + 1, c), end_of(pos + 1, c) + bt.len(), bt, 0);
        },
        Statement::If(c, tb, f) => {
            let a = seq![mark(TokenKind::If)];
            let m = expression_tokens(c);
            let bt = block_tokens(tb);
            let tail = match f {
                Some(fb) => seq![mark(TokenKind::Else)] + block_tokens(fb),
                None => Seq::empty(),
            };
            assert(whole == a + m + bt + tail);
            lemma_split(t, pos, a + m + bt, tail);
            lemma_split(t, pos, a + m, bt);
            lemma_split(t, pos, a, m);
            lemma_block_start(tb);
            lemma_span_at(t, end_of(pos + 1, c), end_of(pos + 1, c) + bt.len(), bt, 0);
            let mid = end_of(pos + 1, c) + bt.len();
            match f {
                Some(fb) => {
                    lemma_split(t, mid, seq![mark(TokenKind::Else)], block_tokens(fb));
                    lemma_span_at(t, mid, mid + 1, seq![mark(TokenKind::Else)], 0);
                },
                None => {
                    assert(a + m + bt + tail =~= a + m + bt);
                },
            }
        },
        Statement::Expression(e) => {
            let m = expression_tokens(e);
            let z = seq![mark(TokenKind::Semicolon)];
            lemma_split(t, pos, m, z);
            lemma_span_at(t, end_of(pos, e), end_of(pos, e) + 1, z, 0);
            lemma_expression_start(e, 0);
            if t[pos].kind == TokenKind::If {
                lemma_leftmost_if(t, pos, e, 0);
            }
        },
    }
}

pub open spec fn assign_value(e: Expression) -> Expression {
    match e {
        Expression::Assign(_, v) => *v,
        _ => e,
    }
}

/// The part of an expression that the operator parser reads: the target of
/// an indexed store, or the whole expression.
pub open spec fn binary_part(e: Expression) -> Expression {
    match e {
        Expression::IndexAssign(name, i, _) => Expression::Index(name, i),
        _ => e,
    }
}

pub open spec fn stored_value(e: Expression) -> Expression {
    match e {
        Expression::IndexAssign(_, _, v) => *v,
        _ => e,
    }
}

pub open spec fn group_inner(e: Expression) -> Expression {
    match e {
        Expression::Group(x) => *x,
        _ => e,
    }
}

pub open spec fn if_condition(e: Expression) -> Expression {
    match e {
        Expression::If(c, _, _) => *c,
        _ => e,
    }
}

pub open spec fn if_then(e: Expression) -> Block {
    match e {
        Expression::If(_, tb, _) => *tb,
        _ => arbitrary(),
    }
}

pub open spec fn if_else(e: Expression) -> Block {
    match e {
        Expression::If(_, _, fb) => *fb,
        _ => arbitrary(),
    }
}

pub open spec fn call_arguments(e: Expression) -> Seq<Expression> {
    match e {
        Expression::Call(_, args) => args@,
        _ => Seq::empty(),
    }
}

pub open spec fn index_expression(e: Expression) -> Expression {
    match e {
        Expression::Index(_, i) => *i,
        _ => e,
    }
}

proof fn lemma_argument_position(t: Seq<Token>, pos: int, args: Seq<Expression>, c: int)
    requires
        arguments_at(t, pos, args),
        1 <= c <= args.len(),
    ensures
        ({
            let q = pos + arguments_tokens(args.subrange(0, c)).len();
            &&& c < args.len() ==> kind_at(t, q, TokenKind::Comma) && expression_at(t, q + 1, args[c], 0)
                && end_of(q + 1, args[c]) == pos + arguments_tokens(args.subrange(0, c + 1)).len()
            &&& c == args.len() ==> kind_at(t, q, TokenKind::RightParen) && q == pos + arguments_tokens(
                args,
            ).len()
        }),
    decreases args.len() - c,
{
    let whole = arguments_tokens(args);
    lemma_arguments_prefix(args, c);
    let p = arguments_tokens(args.subrange(0, c));
    if c < args.len() {
        lemma_arguments_prefix(args, c + 1);
        let upto = p + seq![mark(TokenKind::Comma)] + expression_tokens(args[c]);
        lemma_prefix(t, pos, upto, whole);
        lemma_split(t, pos, p + seq![mark(TokenKind::Comma)], expression_tokens(args[c]));
        lemma_split(t, pos, p, seq![mark(TokenKind::Comma)]);
        lemma_span_at(t, pos + p.len(), pos + p.len() + 1, seq![mark(TokenKind::Comma)], 0);
        lemma_argument_position(t, pos, args, c + 1);
        if c + 1 < args.len() {
        } else {
            assert(args.subrange(0, c + 1) =~= args);
        }
    } else {
        assert(args.subrange(0, c) =~= args);
    }
}

proof fn lemma_argument_start(t: Seq<Token>, pos: int, args: Seq<Expression>)
    requires
        arguments_at(t, pos, args),
    ensures
        args.len() == 0 <==> kind_at(t, pos, TokenKind::RightParen),
        args.len() >= 1 ==> expression_at(t, pos, args[0], 0) && end_of(pos, args[0]) == pos
            + arguments_tokens(args.subrange(0, 1)).len(),
{
    if args.len() >= 1 {
        lemma_arguments_prefix(args, 1);
        lemma_first_argument(args);
        lemma_prefix(t, pos, expression_tokens(args[0]), arguments_tokens(args));
        lemma_expression_start(args[0], 0);
        lemma_span_at(t, pos, end_of(pos, args[0]), expression_tokens(args[0]), 0);
        lemma_argument_position(t, pos, args, 1);
    }
}

pub open spec fn block_candidate(t: Seq<Token>, pos: int, b: Block, valued: bool) -> bool {
    block_at(t, pos, b, valued) || (!valued && block_at(t, pos, b, true))
}

/// Whether the token at `pos` has the given kind.
fn at(tokens: &Vec<Token>, pos: usize, kind: TokenKind) -> (r: bool)
    ensures
        r == (pos < tokens@.len() && tokens@[pos as int].kind == kind),
        tokens@.len() <= usize::MAX,
{
    pos < tokens.len() && tokens[pos].kind == kind
}

/// The operator of the given precedence level at `pos`, if there is one.
fn operator_at(tokens: &Vec<Token>, pos: usize, level: u8) -> (r: Option<BinaryOperator>)
    requires
        1 <= level <= 4,
    ensures
        r is None ==> !(pos < tokens@.len() && operator_level(tokens@[pos as int].kind) == level as nat),
        r matches Some(op) ==> pos < tokens@.len() && tokens@[pos as int]@ == operator_token(op)
            && precedence(op) == level,
        tokens@.len() <= usize::MAX,
{
    if pos >= tokens.len() {
        return None;
    }
    let op = match tokens[pos].kind {
        TokenKind::And => BinaryOperator::And,
        TokenKind::Or => BinaryOperator::Or,
        TokenKind::EqualEqual => BinaryOperator::Equal,
        TokenKind::NotEqual => BinaryOperator::NotEqual,
        TokenKind::Less => BinaryOperator::Less,
        TokenKind::LessEqual => BinaryOperator::LessEqual,
        TokenKind::Greater => BinaryOperator::Greater,
        TokenKind::GreaterEqual => BinaryOperator::GreaterEqual,
        TokenKind::Plus => BinaryOperator::Add,
        TokenKind::Minus => BinaryOperator::Subtract,
        TokenKind::Star => BinaryOperator::Multiply,
        TokenKind::Slash => BinaryOperator::Divide,
        _ => {
            return None;
        },
    };
    let op_level: u8 = match op {
        BinaryOperator::And | BinaryOperator::Or => 1,
        BinaryOperator::Equal | BinaryOperator::NotEqual | BinaryOperator::Less
        | BinaryOperator::LessEqual | BinaryOperator::Greater
        | BinaryOperator::GreaterEqual => 2,
        BinaryOperator::Add | BinaryOperator::Subtract => 3,
        BinaryOperator::Multiply | BinaryOperator::Divide => 4,
    };
    if op_level == level {
        Some(op)
    } else {
        None
    }
}

/// Parses an expression that starts at `pos`.
fn parse_expression(tokens: &Vec<Token>, pos: usize) -> (r: Result<(Expression, usize), ParseError>)
    ensures
        r matches Ok((e, q)) ==> pos < q && spans(tokens@, pos as int, q as int, expression_tokens(e))
            && expression_wf(e, 0),
        forall|e: Expression| #[trigger] expression_at(tokens@, pos as int, e, 0) ==> r is Ok
            && r->Ok_0.1 == end_of(pos as int, e),
    decreases tokens@.len() - pos, 6nat,
{
    let ghost t = tokens@;
    let ghost p = pos as int;
    proof {
        assert forall|e: Expression| #[trigger] expression_at(t, p, e, 0) implies (e is Assign <==> (
        kind_at(t, p, TokenKind::Identifier) && kind_at(t, p + 1, TokenKind::ColonEquals))) by {
            lemma_expression_start(e, 0);
            lemma_span_at(t, p, end_of(p, e), expression_tokens(e), 0);
            if expression_tokens(e).len() >= 2 {
                lemma_span_at(t, p, end_of(p, e), expression_tokens(e), 1);
            }
        }
    }
    if at(tokens, pos, TokenKind::Identifier) && at(tokens, pos + 1, TokenKind::ColonEquals) {
        let name = tokens[pos].text.clone();
        let p2 = pos + 2;
        proof {
            assert forall|e: Expression| #[trigger] expression_at(t, p, e, 0) implies expression_at(
                t,
                p2 as int,
                assign_value(e),
                0,
            ) && end_of(p2 as int, assign_value(e)) == end_of(p, e) by {
                if let Expression::Assign(nm, v) = e {
                    lemma_split(t, p, seq![identifier(nm@), mark(TokenKind::ColonEquals)], expression_tokens(*v));
                }
            }
        }
        let (value, q) = parse_expression(tokens, p2)?;
        proof {
            lemma_one(tokens@, pos as int);
            lemma_one(tokens@, pos + 1);
            lemma_join(tokens@, pos as int, pos + 1, pos + 2, seq![tokens@[pos as int]@], seq![tokens@[pos + 1]@]);
            assert(seq![tokens@[pos as int]@] + seq![tokens@[pos + 1]@] =~= seq![identifier(name@), mark(TokenKind::ColonEquals)]);
            lemma_join(tokens@, pos as int, pos + 2, q as int, seq![identifier(name@), mark(TokenKind::ColonEquals)], expression_tokens(value));
        }
        return Ok((Expression::Assign(name, Box::new(value)), q));
    }
    proof {
        assert forall|e: Expression| #[trigger] expression_at(t, p, e, 0) implies expression_at(
            t,
            p,
            binary_part(e),
            1,
        ) && (e is IndexAssign ==> binary_part(e) is Index && kind_at(
            t,
            end_of(p, binary_part(e)),
            TokenKind::ColonEquals,
        ) && expression_at(t, end_of(p, binary_part(e)) + 1, stored_value(e), 0) && end_of(
            end_of(p, binary_part(e)) + 1,
            stored_value(e),
        ) == end_of(p, e)) && (!(e is IndexAssign) ==> binary_part(e) == e && !kind_at(
            t,
            end_of(p, e),
            TokenKind::ColonEquals,
        )) by {
            match e {
                Expression::IndexAssign(nm, i, v) => {
                    let target = seq![identifier(nm@), mark(TokenKind::LeftBracket)] + expression_tokens(*i) + seq![mark(TokenKind::RightBracket)];
                    let rest = seq![mark(TokenKind::ColonEquals)] + expression_tokens(*v);
                    assert(expression_tokens(e) =~= target + rest);
                    assert(expression_tokens(binary_part(e)) == target);
                    lemma_split(t, p, target, rest);
                    lemma_split(t, p + target.len(), seq![mark(TokenKind::ColonEquals)], expression_tokens(*v));
                    lemma_span_at(t, p + target.len(), p + target.len() + 1, seq![mark(TokenKind::ColonEquals)], 0);
                },
                _ => {
                    lemma_wf_raise(e);
                },
            }
        }
    }
    let (first, q) = parse_binary(tokens, pos, 1)?;
    if at(tokens, q, TokenKind::ColonEquals) {
        if let Expression::Index(name, index) = first {
            let q1 = q + 1;
            let (value, r) = parse_expression(tokens, q1)?;
            proof {
                let target = seq![identifier(name@), mark(TokenKind::LeftBracket)] + expression_tokens(*index) + seq![mark(TokenKind::RightBracket)];
                lemma_one(tokens@, q as int);
                lemma_join(tokens@, pos as int, q as int, q + 1, target, seq![mark(TokenKind::ColonEquals)]);
                lemma_join(tokens@, pos as int, q + 1, r as int, target + seq![mark(TokenKind::ColonEquals)], expression_tokens(value));
                assert(target + seq![mark(TokenKind::ColonEquals)] =~= seq![identifier(name@), mark(TokenKind::LeftBracket)] + expression_tokens(*index) + seq![mark(TokenKind::RightBracket), mark(TokenKind::ColonEquals)]);
            }
            return Ok((Expression::IndexAssign(name, index, Box::new(value)), r));
        }
        proof {
            lemma_expression_wf_weaken(first, 1, 0);
        }
        return Ok((first, q));
    }
    proof {
        lemma_expression_wf_weaken(first, 1, 0);
    }
    Ok((first, q))
}

/// Parses a chain of operators of precedence `level` and above, grouped to the left.
fn parse_binary(tokens: &Vec<Token>, pos: usize, level: u8) -> (r: Result<(Expression, usize), ParseError>)
    requires
        1 <= level <= 4,
    ensures
        r matches Ok((e, q)) ==> pos < q && spans(tokens@, pos as int, q as int, expression_tokens(e))
            && expression_wf(e, level as nat),
        forall|e: Expression| #[trigger] expression_at(tokens@, pos as int, e, level as nat) ==> r is Ok
            && r->Ok_0.1 == end_of(pos as int, e) && (e is Index ==> r->Ok_0.0 is Index),
    decreases tokens@.len() - pos, (6 - level) as nat,
{
    let ghost t = tokens@;
    let ghost p = pos as int;
    let ghost lv = level as nat;
    proof {
        assert forall|e: Expression| #[trigger] expression_at(t, p, e, lv) implies expression_at(
            t,
            p,
            chain_head(e, lv),
            lv + 1,
        ) && chain_position(e, lv, p, 0) == end_of(p, chain_head(e, lv)) && (e is Index ==> chain_head(e, lv) == e) by {
            lemma_chain_position(t, p, e, lv, 0);
            lemma_chain(e, lv);
        }
    }
    let (mut left, mut q) = if level == 4 {
        let (e, q) = parse_primary(tokens, pos)?;
        proof {
            lemma_expression_wf_weaken(e, 5, 4);
        }
        (e, q)
    } else {
        let (e, q) = parse_binary(tokens, pos, level + 1)?;
        proof {
            lemma_expression_wf_weaken(e, (level + 1) as nat, level as nat);
        }
        (e, q)
    };
    let ghost mut count: int = 0;
    loop
        invariant
            1 <= level <= 4,
            lv == level as nat,
            t == tokens@,
            p == pos as int,
            pos < q <= tokens@.len(),
            spans(tokens@, pos as int, q as int, expression_tokens(left)),
            expression_wf(left, level as nat),
            forall|e: Expression| #[trigger] expression_at(t, p, e, lv) ==> 0 <= count <= chain_tail(
                e,
                lv,
            ).len() && q == chain_position(e, lv, p, count) && (e is Index ==> left is Index),
        decreases tokens@.len() - q,
    {
        match operator_at(tokens, q, level) {
            Some(op) => {
                let q1 = q + 1;
                proof {
                    assert forall|e: Expression| #[trigger] expression_at(t, p, e, lv) implies count
                        < chain_tail(e, lv).len() && expression_at(t, q1 as int, chain_tail(e, lv)[count].1, lv + 1)
                        && end_of(q1 as int, chain_tail(e, lv)[count].1) == chain_position(e, lv, p, count + 1)
                        && !(e is Index) by {
                        lemma_chain(e, lv);
                        lemma_operator_level(op);
                        lemma_view_kind(t[q as int]);
                        if count == chain_tail(e, lv).len() {
                            lemma_chain_position(t, p, e, lv, count);
                        } else {
                            lemma_chain_position(t, p, e, lv, count);
                        }
                    }
                }
                let (right, r) = if level == 4 {
                    parse_primary(tokens, q1)?
                } else {
                    parse_binary(tokens, q1, level + 1)?
                };
                proof {
                    if level == 4 {
                        lemma_expression_wf_weaken(right, 5, 5);
                    }
                    lemma_one(tokens@, q as int);
                    lemma_join(tokens@, pos as int, q as int, q + 1, expression_tokens(left), seq![operator_token(op)]);
                    lemma_join(tokens@, pos as int, q + 1, r as int, expression_tokens(left) + seq![operator_token(op)], expression_tokens(right));
                    count = count + 1;
                }
                left = Expression::Binary(op, Box::new(left), Box::new(right));
                q = r;
            },
            None => {
                proof {
                    assert forall|e: Expression| #[trigger] expression_at(t, p, e, lv) implies q == end_of(p, e) by {
                        lemma_chain_position(t, p, e, lv, count);
                    }
                }
                return Ok((left, q));
            },
        }
    }
}

/// Parses a primary expression: a literal, a name, a call, an index, a group or an `if`.
fn parse_primary(tokens: &Vec<Token>, pos: usize) -> (r: Result<(Expression, usize), ParseError>)
    ensures
        r matches Ok((e, q)) ==> pos < q && spans(tokens@, pos as int, q as int, expression_tokens(e))
            && expression_wf(e, 5),
        forall|e: Expression| #[trigger] expression_at(tokens@, pos as int, e, 5) ==> r is Ok
            && r->Ok_0.1 == end_of(pos as int, e) && (e is Index ==> r->Ok_0.0 is Index),
    decreases tokens@.len() - pos, 1nat,
{
    let ghost t = tokens@;
    let ghost p = pos as int;
    if pos >= tokens.len() {
        proof {
            assert forall|e: Expression| #[trigger] expression_at(t, p, e, 5) implies false by {
                lemma_primary_parts(t, p, e);
            }
        }
        return Err(ParseError { position: pos });
    }
    proof {
        lemma_one(tokens@, pos as int);
        assert forall|e: Expression| #[trigger] expression_at(t, p, e, 5) implies t[p].kind
            == expression_tokens(e)[0].0 by {
            lemma_primary_parts(t, p, e);
        }
    }
    match tokens[pos].kind {
        TokenKind::Number => {
            let value = tokens[pos].value;
            if value > 0x7fff_ffff {
                proof {
                    assert forall|e: Expression| #[trigger] expression_at(t, p, e, 5) implies false by {
                        lemma_primary_parts(t, p, e);
                    }
                }
                return Err(ParseError { position: pos });
            }
            proof {
                assert forall|e: Expression| #[trigger] expression_at(t, p, e, 5) implies end_of(p, e) == p + 1
                    && !(e is Index) by {
                    lemma_primary_parts(t, p, e);
                }
            }
            Ok((Expression::Number(value as i32), pos + 1))
        },
        TokenKind::Str => {
            proof {
                assert forall|e: Expression| #[trigger] expression_at(t, p, e, 5) implies end_of(p, e) == p + 1
                    && !(e is Index) by {
                    lemma_primary_parts(t, p, e);
                }
            }
            Ok((Expression::Str(tokens[pos].text.clone()), pos + 1))
        },
        TokenKind::LeftParen => {
            let p1 = pos + 1;
            proof {
                assert forall|e: Expression| #[trigger] expression_at(t, p, e, 5) implies expression_at(
                    t,
                    p1 as int,
                    group_inner(e),
                    0,
                ) && kind_at(t, end_of(p1 as int, group_inner(e)), TokenKind::RightParen) && end_of(p, e)
                    == end_of(p1 as int, group_inner(e)) + 1 && !(e is Index) by {
                    lemma_primary_parts(t, p, e);
                }
            }
            let (inner, q) = parse_expression(tokens, p1)?;
            if !at(tokens, q, TokenKind::RightParen) {
                return Err(ParseError { position: q });
            }
            proof {
                lemma_one(tokens@, q as int);
                lemma_join(tokens@, pos as int, pos + 1, q as int, seq![mark(TokenKind::LeftParen)], expression_tokens(inner));
                lemma_join(tokens@, pos as int, q as int, q + 1, seq![mark(TokenKind::LeftParen)] + expression_tokens(inner), seq![mark(TokenKind::RightParen)]);
            }
            Ok((Expression::Group(Box::new(inner)), q + 1))
        },
        TokenKind::If => {
            let p1 = pos + 1;
            proof {
                assert forall|e: Expression| #[trigger] expression_at(t, p, e, 5) implies expression_at(
                    t,
                    p1 as int,
                    if_condition(e),
                    0,
                ) && block_at(t, end_of(p1 as int, if_condition(e)), if_then(e), true) && kind_at(
                    t,
                    end_of(p1 as int, if_condition(e)) + block_tokens(if_then(e)).len(),
                    TokenKind::Else,
                ) && block_at(
                    t,
                    end_of(p1 as int, if_condition(e)) + block_tokens(if_then(e)).len() + 1,
                    if_else(e),
                    true,
                ) && end_of(p, e) == end_of(p1 as int, if_condition(e)) + block_tokens(if_then(e)).len() + 1
                    + block_tokens(if_else(e)).len() && !(e is Index) by {
                    lemma_primary_parts(t, p, e);
                }
            }
            let (condition, q) = parse_expression(tokens, p1)?;
            let (then_block, q2) = parse_block(tokens, q, true)?;
            if !at(tokens, q2, TokenKind::Else) {
                return Err(ParseError { position: q2 });
            }
            let q3 = q2 + 1;
            let (else_block, q4) = parse_block(tokens, q3, true)?;
            proof {
                let a = seq![mark(TokenKind::If)];
                let b = a + expression_tokens(condition);
                let c = b + block_tokens(then_block);
                let d = c + seq![mark(TokenKind::Else)];
                lemma_join(tokens@, pos as int, pos + 1, q as int, a, expression_tokens(condition));
                lemma_join(tokens@, pos as int, q as int, q2 as int, b, block_tokens(then_block));
                lemma_one(tokens@, q2 as int);
                lemma_join(tokens@, pos as int, q2 as int, q2 + 1, c, seq![mark(TokenKind::Else)]);
                lemma_join(tokens@, pos as int, q2 + 1, q4 as int, d, block_tokens(else_block));
            }
            Ok((Expression::If(Box::new(condition), Box::new(then_block), Box::new(else_block)), q4))
        },
        TokenKind::Identifier => {
            let name = tokens[pos].text.clone();
            if at(tokens, pos + 1, TokenKind::LeftParen) {
                let p2 = pos + 2;
                proof {
                    assert forall|e: Expression| #[trigger] expression_at(t, p, e, 5) implies arguments_at(
                        t,
                        p2 as int,
                        call_arguments(e),
                    ) && end_of(p, e) == p2 + arguments_tokens(call_arguments(e)).len() + 1 && !(e is Index) by {
                        lemma_primary_parts(t, p, e);
                    }
                }
                let (args, q) = parse_arguments(tokens, p2)?;
                if !at(tokens, q, TokenKind::RightParen) {
                    return Err(ParseError { position: q });
                }
                proof {
                    let a = seq![identifier(name@), mark(TokenKind::LeftParen)];
                    lemma_one(tokens@, pos + 1);
                    lemma_join(tokens@, pos as int, pos + 1, pos + 2, seq![identifier(name@)], seq![mark(TokenKind::LeftParen)]);
                    assert(seq![identifier(name@)] + seq![mark(TokenKind::LeftParen)] =~= a);
                    lemma_join(tokens@, pos as int, pos + 2, q as int, a, arguments_tokens(args@));
                    lemma_one(tokens@, q as int);
                    lemma_join(tokens@, pos as int, q as int, q + 1, a + arguments_tokens(args@), seq![mark(TokenKind::RightParen)]);
                }
                Ok((Expression::Call(name, args), q + 1))
            } else if at(tokens, pos + 1, TokenKind::LeftBracket) {
                let p2 = pos + 2;
                proof {
                    assert forall|e: Expression| #[trigger] expression_at(t, p, e, 5) implies expression_at(
                        t,
                        p2 as int,
                        index_expression(e),
                        0,
                    ) && kind_at(t, end_of(p2 as int, index_expression(e)), TokenKind::RightBracket)
                        && end_of(p, e) == end_of(p2 as int, index_expression(e)) + 1 by {
                        lemma_primary_parts(t, p, e);
                    }
                }
                let (index, q) = parse_expression(tokens, p2)?;
                if !at(tokens, q, TokenKind::RightBracket) {
                    return Err(ParseError { position: q });
                }
                proof {
                    let a = seq![identifier(name@), mark(TokenKind::LeftBracket)];
                    lemma_one(tokens@, pos + 1);
                    lemma_join(tokens@, pos as int, pos + 1, pos + 2, seq![identifier(name@)], seq![mark(TokenKind::LeftBracket)]);
                    assert(seq![identifier(name@)] + seq![mark(TokenKind::LeftBracket)] =~= a);
                    lemma_join(tokens@, pos as int, pos + 2, q as int, a, expression_tokens(index));
                    lemma_one(tokens@, q as int);
                    lemma_join(tokens@, pos as int, q as int, q + 1, a + expression_tokens(index), seq![mark(TokenKind::RightBracket)]);
                }
                Ok((Expression::Index(name, Box::new(index)), q + 1))
            } else {
                proof {
                    assert forall|e: Expression| #[trigger] expression_at(t, p, e, 5) implies end_of(p, e) == p + 1
                        && !(e is Index) by {
                        lemma_primary_parts(t, p, e);
                    }
                }
                Ok((Expression::Identifier(name), pos + 1))
            }
        },
        _ => {
            proof {
                assert forall|e: Expression| #[trigger] expression_at(t, p, e, 5) implies false by {
                    lemma_primary_parts(t, p, e);
                }
            }
            Err(ParseError { position: pos })
        },
    }
}

/// Parses call arguments up to, not including, the closing parenthesis.
fn parse_arguments(tokens: &Vec<Token>, pos: usize) -> (r: Result<(Vec<Expression>, usize), ParseError>)
    ensures
        r matches Ok((args, q)) ==> pos <= q && spans(tokens@, pos as int, q as int, arguments_tokens(args@))
            && arguments_wf(args@),
        forall|args: Seq<Expression>| #[trigger] arguments_at(tokens@, pos as int, args) ==> r is Ok
            && r->Ok_0.1 == pos + arguments_tokens(args).len(),
    decreases tokens@.len() - pos, 7nat,
{
    let ghost t = tokens@;
    let ghost p = pos as int;
    proof {
        assert forall|a: Seq<Expression>| #[trigger] arguments_at(t, p, a) implies (a.len() == 0
            <==> kind_at(t, p, TokenKind::RightParen)) && (a.len() >= 1 ==> expression_at(t, p, a[0], 0)
            && end_of(p, a[0]) == p + arguments_tokens(a.subrange(0, 1)).len()) by {
            lemma_argument_start(t, p, a);
        }
    }
    let mut args: Vec<Expression> = Vec::new();
    if at(tokens, pos, TokenKind::RightParen) {
        proof {
            lemma_empty(tokens@, pos as int);
        }
        return Ok((args, pos));
    }
    let (first, mut q) = parse_expression(tokens, pos)?;
    args.push(first);
    proof {
        assert(args@.drop_last() =~= Seq::<Expression>::empty());
        assert(arguments_tokens(args@) == expression_tokens(first));
        assert(arguments_wf(Seq::<Expression>::empty()));
        assert(arguments_wf(args@));
    }
    loop
        invariant
            t == tokens@,
            p == pos as int,
            pos < q <= tokens@.len(),
            args@.len() >= 1,
            spans(tokens@, pos as int, q as int, arguments_tokens(args@)),
            arguments_wf(args@),
            forall|a: Seq<Expression>| #[trigger] arguments_at(t, p, a) ==> args@.len() <= a.len()
                && q == p + arguments_tokens(a.subrange(0, args@.len() as int)).len(),
        decreases tokens@.len() - q,
    {
        let ghost count = args@.len() as int;
        if !at(tokens, q, TokenKind::Comma) {
            proof {
                assert forall|a: Seq<Expression>| #[trigger] arguments_at(t, p, a) implies q == p
                    + arguments_tokens(a).len() by {
                    lemma_argument_position(t, p, a, count);
                }
            }
            return Ok((args, q));
        }
        let q1 = q + 1;
        proof {
            assert forall|a: Seq<Expression>| #[trigger] arguments_at(t, p, a) implies count < a.len()
                && expression_at(t, q1 as int, a[count], 0) && end_of(q1 as int, a[count]) == p
                + arguments_tokens(a.subrange(0, count + 1)).len() by {
                lemma_argument_position(t, p, a, count);
            }
        }
        let (next, r) = parse_expression(tokens, q1)?;
        proof {
            lemma_one(tokens@, q as int);
            lemma_join(tokens@, pos as int, q as int, q + 1, arguments_tokens(args@), seq![mark(TokenKind::Comma)]);
            lemma_join(tokens@, pos as int, q + 1, r as int, arguments_tokens(args@) + seq![mark(TokenKind::Comma)], expression_tokens(next));
        }
        let ghost before = args@;
        args.push(next);
        proof {
            assert(args@.drop_last() == before);
        }
        q = r;
    }
}

/// Parses a block; `valued` says whether it must end in an expression. A block
/// of statements is refused where the tokens are a block that ends in a value.
fn parse_block(tokens: &Vec<Token>, pos: usize, valued: bool) -> (r: Result<(Block, usize), ParseError>)
    ensures
        r matches Ok((b, q)) ==> pos < q && spans(tokens@, pos as int, q as int, block_tokens(b))
            && block_wf(b, valued),
        forall|b: Block| #[trigger] block_at(tokens@, pos as int, b, valued) ==> r is Ok
            && r->Ok_0.1 == pos + block_tokens(b).len(),
        forall|b: Block| #[trigger] block_at(tokens@, pos as int, b, true) ==> (!valued ==> r is Err),
    decreases tokens@.len() - pos, 8nat,
{
    let ghost t = tokens@;
    let ghost p = pos as int;
    if !at(tokens, pos, TokenKind::LeftBrace) {
        proof {
            assert forall|b: Block| #[trigger] block_at(t, p, b, valued) implies false by {
                lemma_block_parts(t, p, b, valued, 0);
            }
        }
        return Err(ParseError { position: pos });
    }
    proof {
        lemma_one(tokens@, pos as int);
    }
    let mut statements: Vec<Statement> = Vec::new();
    let mut q = pos + 1;
    proof {
        assert forall|b: Block| #[trigger] block_candidate(t, p, b, valued) implies q == p + 1
            + statements_tokens(b.statements@.subrange(0, 0)).len() by {
            assert(b.statements@.subrange(0, 0) =~= Seq::<Statement>::empty());
        }
    }
    loop
        invariant
            t == tokens@,
            p == pos as int,
            pos < q <= tokens@.len(),
            spans(tokens@, pos as int, q as int, seq![mark(TokenKind::LeftBrace)] + statements_tokens(statements@)),
            statements_wf(statements@),
            forall|b: Block| #[trigger] block_candidate(t, p, b, valued) ==> statements@.len()
                <= b.statements@.len() && q == p + 1 + statements_tokens(
                b.statements@.subrange(0, statements@.len() as int),
            ).len(),
        ensures
            pos < q <= tokens@.len(),
            spans(tokens@, pos as int, q as int, seq![mark(TokenKind::LeftBrace)] + statements_tokens(statements@)),
            statements_wf(statements@),
            forall|b: Block| #[trigger] block_candidate(t, p, b, valued) ==> statements@.len()
                == b.statements@.len() && q == p + 1 + statements_tokens(b.statements@).len() && (
                kind_at(t, q as int, TokenKind::RightBrace) <==> b.value is None),
        decreases tokens@.len() - q,
    {
        let ghost count = statements@.len() as int;
        proof {
            assert forall|b: Block| #[trigger] block_candidate(t, p, b, valued) implies (count
                < b.statements@.len() ==> statement_at(t, q as int, b.statements@[count]) && !kind_at(
                t,
                q as int,
                TokenKind::RightBrace,
            ) && q + statement_tokens(b.statements@[count]).len() == p + 1 + statements_tokens(
                b.statements@.subrange(0, count + 1),
            ).len()) && (count == b.statements@.len() ==> q == p + 1 + statements_tokens(
                b.statements@,
            ).len() && (kind_at(t, q as int, TokenKind::RightBrace) <==> b.value is None) && (
            b.value matches Some(v) ==> value_at(t, q as int, *v))) by {
                let vv = if block_at(t, p, b, valued) {
                    valued
                } else {
                    true
                };
                lemma_block_parts(t, p, b, vv, count);
                if count == b.statements@.len() {
                    assert(b.statements@.subrange(0, count) =~= b.statements@);
                }
            }
        }
        if at(tokens, q, TokenKind::RightBrace) {
            break;
        }
        match parse_statement(tokens, q) {
            Ok((statement, r)) => {
                proof {
                    lemma_join(tokens@, pos as int, q as int, r as int, seq![mark(TokenKind::LeftBrace)] + statements_tokens(statements@), statement_tokens(statement));
                }
                let ghost before = statements@;
                statements.push(statement);
                proof {
                    assert(statements@.drop_last() == before);
                    assert(seq![mark(TokenKind::LeftBrace)] + statements_tokens(before) + statement_tokens(statement) =~= seq![mark(TokenKind::LeftBrace)] + statements_tokens(statements@));
                }
                q = r;
            },
            Err(_) => {
                break;
            },
        }
    }
    let ghost prefix = seq![mark(TokenKind::LeftBrace)] + statements_tokens(statements@);
    proof {
        assert forall|b: Block| #[trigger] block_candidate(t, p, b, valued) implies (b.value matches Some(v)
            ==> expression_at(t, q as int, *v, 0) && kind_at(t, end_of(q as int, *v), TokenKind::RightBrace)
            && end_of(q as int, *v) + 1 == p + block_tokens(b).len()) && (b.value is None ==> q + 1 == p
            + block_tokens(b).len()) by {
            let vv = if block_at(t, p, b, valued) {
                valued
            } else {
                true
            };
            lemma_block_parts(t, p, b, vv, b.statements@.len() as int);
            assert(b.statements@.subrange(0, b.statements@.len() as int) =~= b.statements@);
        }
        assert forall|b: Block| #[trigger] block_at(t, p, b, valued) implies block_candidate(t, p, b, valued) by {}
        assert forall|b: Block| #[trigger] block_at(t, p, b, true) && !valued implies block_candidate(t, p, b, valued) by {}
    }
    if valued {
        let (value, r) = parse_expression(tokens, q)?;
        if !at(tokens, r, TokenKind::RightBrace) {
            return Err(ParseError { position: r });
        }
        let block = Block { statements, value: Some(Box::new(value)) };
        proof {
            lemma_join(tokens@, pos as int, q as int, r as int, prefix, expression_tokens(value));
            lemma_one(tokens@, r as int);
            lemma_join(tokens@, pos as int, r as int, r + 1, prefix + expression_tokens(value), seq![mark(TokenKind::RightBrace)]);
            assert(block_tokens(block) =~= prefix + expression_tokens(value) + seq![mark(TokenKind::RightBrace)]);
        }
        Ok((block, r + 1))
    } else {
        if !at(tokens, q, TokenKind::RightBrace) {
            return Err(ParseError { position: q });
        }
        let block = Block { statements, value: None };
        proof {
            lemma_one(tokens@, q as int);
            lemma_join(tokens@, pos as int, q as int, q + 1, prefix, seq![mark(TokenKind::RightBrace)]);
            assert(block_tokens(block) =~= prefix + seq![mark(TokenKind::RightBrace)]);
        }
        Ok((block, q + 1))
    }
}

pub open spec fn statement_condition(s: Statement) -> Expression {
    match s {
        Statement::Let(_, e) => e,
        Statement::If(c, _, _) => c,
        Statement::While(c, _) => c,
        Statement::Expression(e) => e,
    }
}

pub open spec fn statement_block(s: Statement) -> Block {
    match s {
        Statement::If(_, tb, _) => tb,
        Statement::While(_, body) => body,
        _ => arbitrary(),
    }
}

pub open spec fn statement_else(s: Statement) -> Block {
    match s {
        Statement::If(_, _, Some(fb)) => fb,
        _ => arbitrary(),
    }
}

/// Parses an `if` statement, with its optional `else` block. It fails on an
/// `if` expression, whose blocks end in values.
fn parse_if_statement(tokens: &Vec<Token>, pos: usize) -> (r: Result<(Statement, usize), ParseError>)
    ensures
        r matches Ok((s, q)) ==> pos < q && spans(tokens@, pos as int, q as int, statement_tokens(s))
            && statement_wf(s),
        forall|s: Statement| #[trigger] statement_at(tokens@, pos as int, s) ==> (s is If ==> r is Ok
            && r->Ok_0.1 == pos + statement_tokens(s).len()),
        forall|x: Expression| #[trigger] if_expression_at(tokens@, pos as int, x) ==> r is Err,
    decreases tokens@.len() - pos, 9nat,
{
    let ghost t = tokens@;
    let ghost p = pos as int;
    if !at(tokens, pos, TokenKind::If) {
        proof {
            assert forall|s: Statement| #[trigger] statement_at(t, p, s) implies !(s is If) by {
                lemma_statement_parts(t, p, s);
            }
        }
        return Err(ParseError { position: pos });
    }
    let p1 = pos + 1;
    proof {
        assert forall|s: Statement| #[trigger] statement_at(t, p, s) && s is If implies expression_at(
            t,
            p1 as int,
            statement_condition(s),
            0,
        ) && block_at(t, end_of(p1 as int, statement_condition(s)), statement_block(s), false) by {
            lemma_statement_parts(t, p, s);
        }
        assert forall|x: Expression| #[trigger] if_expression_at(t, p, x) implies expression_at(
            t,
            p1 as int,
            if_condition(x),
            0,
        ) && block_at(t, end_of(p1 as int, if_condition(x)), if_then(x), true) by {
            lemma_if_expression_parts(t, p, x);
        }
    }
    let (condition, q) = parse_expression(tokens, p1)?;
    let (then_block, q2) = parse_block(tokens, q, false)?;
    proof {
        lemma_one(tokens@, pos as int);
        lemma_join(tokens@, pos as int, pos + 1, q as int, seq![mark(TokenKind::If)], expression_tokens(condition));
        lemma_join(tokens@, pos as int, q as int, q2 as int, seq![mark(TokenKind::If)] + expression_tokens(condition), block_tokens(then_block));
        assert forall|s: Statement| #[trigger] statement_at(t, p, s) && s is If implies q2 == end_of(
            p1 as int,
            statement_condition(s),
        ) + block_tokens(statement_block(s)).len() && (kind_at(t, q2 as int, TokenKind::Else) <==> s->If_2 is Some)
            && (s->If_2 is None ==> q2 == p + statement_tokens(s).len()) && (s->If_2 is Some ==> block_at(
            t,
            q2 + 1,
            statement_else(s),
            false,
        ) && q2 + 1 + block_tokens(statement_else(s)).len() == p + statement_tokens(s).len()) by {
            lemma_statement_parts(t, p, s);
        }
    }
    let ghost head = seq![mark(TokenKind::If)] + expression_tokens(condition) + block_tokens(then_block);
    if at(tokens, q2, TokenKind::Else) {
        let q3 = q2 + 1;
        let (else_block, q4) = parse_block(tokens, q3, false)?;
        proof {
            lemma_one(tokens@, q2 as int);
            lemma_join(tokens@, pos as int, q2 as int, q2 + 1, head, seq![mark(TokenKind::Else)]);
            lemma_join(tokens@, pos as int, q2 + 1, q4 as int, head + seq![mark(TokenKind::Else)], block_tokens(else_block));
            assert(head + seq![mark(TokenKind::Else)] + block_tokens(else_block) =~= head + (seq![mark(TokenKind::Else)] + block_tokens(else_block)));
        }
        Ok((Statement::If(condition, then_block, Some(else_block)), q4))
    } else {
        proof {
            assert(head + Seq::<TokenView>::empty() =~= head);
        }
        Ok((Statement::If(condition, then_block, None), q2))
    }
}

/// Parses one statement. It fails where the tokens are the value that ends a
/// block, followed by the block's `}`.
fn parse_statement(tokens: &Vec<Token>, pos: usize) -> (r: Result<(Statement, usize), ParseError>)
    ensures
        r matches Ok((s, q)) ==> pos < q && spans(tokens@, pos as int, q as int, statement_tokens(s))
            && statement_wf(s),
        forall|s: Statement| #[trigger] statement_at(tokens@, pos as int, s) ==> r is Ok
            && r->Ok_0.1 == pos + statement_tokens(s).len(),
        forall|v: Expression| #[trigger] value_at(tokens@, pos as int, v) ==> r is Err,
    decreases tokens@.len() - pos, 10nat,
{
    let ghost t = tokens@;
    let ghost p = pos as int;
    if at(tokens, pos, TokenKind::Let) {
        let ghost g3 = p + 3;
        proof {
            assert forall|v: Expression| #[trigger] value_at(t, p, v) implies false by {
                lemma_value_parts(t, p, v);
            }
            assert forall|s: Statement| #[trigger] statement_at(t, p, s) implies s is Let && kind_at(
                t,
                p + 1,
                TokenKind::Identifier,
            ) && kind_at(t, p + 2, TokenKind::Equals) && expression_at(t, g3, statement_condition(s), 0)
                && kind_at(t, end_of(g3, statement_condition(s)), TokenKind::Semicolon) && p
                + statement_tokens(s).len() == end_of(g3, statement_condition(s)) + 1 by {
                lemma_statement_parts(t, p, s);
            }
        }
        if !at(tokens, pos + 1, TokenKind::Identifier) || !at(tokens, pos + 2, TokenKind::Equals) {
            return Err(ParseError { position: pos });
        }
        let name = tokens[pos + 1].text.clone();
        let p3 = pos + 3;
        let (value, q) = parse_expression(tokens, p3)?;
        if !at(tokens, q, TokenKind::Semicolon) {
            return Err(ParseError { position: q });
        }
        proof {
            let a = seq![mark(TokenKind::Let), identifier(name@), mark(TokenKind::Equals)];
            lemma_one(tokens@, pos as int);
            lemma_one(tokens@, pos + 1);
            lemma_one(tokens@, pos + 2);
            lemma_join(tokens@, pos as int, pos + 1, pos + 2, seq![mark(TokenKind::Let)], seq![identifier(name@)]);
            lemma_join(tokens@, pos as int, pos + 2, pos + 3, seq![mark(TokenKind::Let)] + seq![identifier(name@)], seq![mark(TokenKind::Equals)]);
            assert(seq![mark(TokenKind::Let)] + seq![identifier(name@)] + seq![mark(TokenKind::Equals)] =~= a);
            lemma_join(tokens@, pos as int, pos + 3, q as int, a, expression_tokens(value));
            lemma_one(tokens@, q as int);
            lemma_join(tokens@, pos as int, q as int, q + 1, a + expression_tokens(value), seq![mark(TokenKind::Semicolon)]);
        }
        return Ok((Statement::Let(name, value), q + 1));
    }
    if at(tokens, pos, TokenKind::While) {
        let p1 = pos + 1;
        proof {
            assert forall|v: Expression| #[trigger] value_at(t, p, v) implies false by {
                lemma_value_parts(t, p, v);
            }
            assert forall|s: Statement| #[trigger] statement_at(t, p, s) implies s is While && expression_at(
                t,
                p1 as int,
                statement_condition(s),
                0,
            ) && block_at(t, end_of(p1 as int, statement_condition(s)), statement_block(s), false) && p
                + statement_tokens(s).len() == end_of(p1 as int, statement_condition(s)) + block_tokens(
                statement_block(s),
            ).len() by {
                lemma_statement_parts(t, p, s);
            }
        }
        let (condition, q) = parse_expression(tokens, p1)?;
        let (body, q2) = parse_block(tokens, q, false)?;
        proof {
            lemma_one(tokens@, pos as int);
            lemma_join(tokens@, pos as int, pos + 1, q as int, seq![mark(TokenKind::While)], expression_tokens(condition));
            lemma_join(tokens@, pos as int, q as int, q2 as int, seq![mark(TokenKind::While)] + expression_tokens(condition), block_tokens(body));
        }
        return Ok((Statement::While(condition, body), q2));
    }
    if at(tokens, pos, TokenKind::If) {
        proof {
            assert forall|s: Statement| #[trigger] statement_at(t, p, s) implies s is If || if_expression_at(
                t,
                p,
                leftmost(statement_condition(s)),
            ) by {
                lemma_statement_parts(t, p, s);
            }
            assert forall|v: Expression| #[trigger] value_at(t, p, v) implies if_expression_at(
                t,
                p,
                leftmost(v),
            ) by {
                lemma_value_parts(t, p, v);
            }
        }
        let attempt = parse_if_statement(tokens, pos);
        if let Ok(result) = attempt {
            return Ok(result);
        }
        proof {
            assert forall|s: Statement| #[trigger] statement_at(t, p, s) implies !(s is If) by {}
        }
    }
    proof {
        assert forall|s: Statement| #[trigger] statement_at(t, p, s) implies s is Expression && expression_at(
            t,
            p,
            statement_condition(s),
            0,
        ) && kind_at(t, end_of(p, statement_condition(s)), TokenKind::Semicolon) && p + statement_tokens(
            s,
        ).len() == end_of(p, statement_condition(s)) + 1 by {
            lemma_statement_parts(t, p, s);
        }
        assert forall|v: Expression| #[trigger] value_at(t, p, v) implies expression_at(t, p, v, 0) && kind_at(
            t,
            end_of(p, v),
            TokenKind::RightBrace,
        ) by {
            lemma_value_parts(t, p, v);
        }
    }
    let (e, q) = parse_expression(tokens, pos)?;
    if !at(tokens, q, TokenKind::Semicolon) {
        return Err(ParseError { position: q });
    }
    proof {
        lemma_one(tokens@, q as int);
        lemma_join(tokens@, pos as int, q as int, q + 1, expression_tokens(e), seq![mark(TokenKind::Semicolon)]);
    }
    Ok((Statement::Expression(e), q + 1))
}

/// The tokens from `pos` are the parameter names `ps`, then `)`.
pub open spec fn parameters_at(tokens: Seq<Token>, pos: int, ps: Seq<Seq<char>>) -> bool {
    &&& spans(tokens, pos, pos + parameters_tokens(ps).len(), parameters_tokens(ps))
    &&& kind_at(tokens, pos + parameters_tokens(ps).len(), TokenKind::RightParen)
}

pub open spec fn signature_tokens(name: Seq<char>, ps: Seq<Seq<char>>) -> Seq<TokenView> {
    seq![identifier(name), mark(TokenKind::LeftParen)] + parameters_tokens(ps) + seq![
        mark(TokenKind::RightParen),
    ]
}

pub open spec fn signature_at(tokens: Seq<Token>, pos: int, name: Seq<char>, ps: Seq<Seq<char>>) -> bool {
    spans(tokens, pos, pos + signature_tokens(name, ps).len(), signature_tokens(name, ps))
}

pub open spec fn declaration_at(tokens: Seq<Token>, pos: int, d: Declaration) -> bool {
    spans(tokens, pos, pos + declaration_tokens(d).len(), declaration_tokens(d)) && declaration_wf(d)
}

/// The tokens are exactly those of the well-formed declarations `ds`.
pub open spec fn program_of(tokens: Seq<Token>, ds: Seq<Declaration>) -> bool {
    &&& token_views(tokens) == program_tokens(ds)
    &&& forall|i: int| 0 <= i < ds.len() ==> declaration_wf(#[trigger] ds[i])
}

proof fn lemma_parameter_position(t: Seq<Token>, pos: int, ps: Seq<Seq<char>>, c: int)
    requires
        parameters_at(t, pos, ps),
        1 <= c <= ps.len(),
    ensures
        ({
            let q = pos + parameters_tokens(ps.subrange(0, c)).len();
            &&& c < ps.len() ==> kind_at(t, q, TokenKind::Comma) && kind_at(t, q + 1, TokenKind::Identifier)
                && q + 2 == pos + parameters_tokens(ps.subrange(0, c + 1)).len()
            &&& c == ps.len() ==> kind_at(t, q, TokenKind::RightParen) && q == pos + parameters_tokens(
                ps,
            ).len()
        }),
{
    lemma_parameters_prefix(ps, c);
    let whole = parameters_tokens(ps);
    let p = parameters_tokens(ps.subrange(0, c));
    if c < ps.len() {
        lemma_parameters_prefix(ps, c + 1);
        let upto = p + seq![mark(TokenKind::Comma), identifier(ps[c])];
        lemma_prefix(t, pos, upto, whole);
        lemma_split(t, pos, p, seq![mark(TokenKind::Comma), identifier(ps[c])]);
        lemma_span_at(t, pos + p.len(), pos + p.len() + 2, seq![mark(TokenKind::Comma), identifier(ps[c])], 0);
        lemma_span_at(t, pos + p.len(), pos + p.len() + 2, seq![mark(TokenKind::Comma), identifier(ps[c])], 1);
    } else {
        assert(ps.subrange(0, c) =~= ps);
    }
}

proof fn lemma_parameter_start(t: Seq<Token>, pos: int, ps: Seq<Seq<char>>)
    requires
        parameters_at(t, pos, ps),
    ensures
        ps.len() == 0 ==> !kind_at(t, pos, TokenKind::Identifier) && pos <= t.len(),
        ps.len() >= 1 ==> kind_at(t, pos, TokenKind::Identifier) && pos + 1 == pos
            + parameters_tokens(ps.subrange(0, 1)).len(),
{
    if ps.len() >= 1 {
        lemma_parameters_prefix(ps, 1);
        lemma_prefix(t, pos, seq![identifier(ps[0])], parameters_tokens(ps));
        lemma_span_at(t, pos, pos + 1, seq![identifier(ps[0])], 0);
    }
}

proof fn lemma_signature_parts(t: Seq<Token>, pos: int, name: Seq<char>, ps: Seq<Seq<char>>)
    requires
        signature_at(t, pos, name, ps),
    ensures
        kind_at(t, pos, TokenKind::Identifier),
        kind_at(t, pos + 1, TokenKind::LeftParen),
        parameters_at(t, pos + 2, ps),
        pos + signature_tokens(name, ps).len() == pos + 2 + parameters_tokens(ps).len() + 1,
{
    let a = seq![identifier(name), mark(TokenKind::LeftParen)];
    let m = parameters_tokens(ps);
    let z = seq![mark(TokenKind::RightParen)];
    lemma_split(t, pos, a + m, z);
    lemma_split(t, pos, a, m);
    lemma_span_at(t, pos, pos + 2, a, 0);
    lemma_span_at(t, pos, pos + 2, a, 1);
    lemma_span_at(t, pos + 2 + m.len(), pos + 3 + m.len(), z, 0);
}

pub open spec fn declaration_start(pos: int, d: Declaration) -> int {
    match d {
        Declaration::Function(f) => if f.public {
            pos + 1
        } else {
            pos
        },
        Declaration::Extern(_) => pos,
    }
}

proof fn lemma_declaration_parts(t: Seq<Token>, pos: int, d: Declaration)
    requires
        declaration_at(t, pos, d),
    ensures
        0 <= pos < t.len(),
        kind_at(t, pos, TokenKind::Extern) <==> d is Extern,
        d matches Declaration::Extern(x) ==> kind_at(t, pos + 1, TokenKind::Func) && signature_at(
            t,
            pos + 2,
            x.name@,
            names(x.parameters@),
        ) && kind_at(t, pos + 2 + signature_tokens(x.name@, names(x.parameters@)).len(), TokenKind::Semicolon)
            && pos + declaration_tokens(d).len() == pos + 3 + signature_tokens(x.name@, names(x.parameters@)).len(),
        d matches Declaration::Function(f) ==> (kind_at(t, pos, TokenKind::Public) <==> f.public) && kind_at(
            t,
            declaration_start(pos, d),
            TokenKind::Func,
        ) && signature_at(t, declaration_start(pos, d) + 1, f.name@, names(f.parameters@)) && block_at(
            t,
            declaration_start(pos, d) + 1 + signature_tokens(f.name@, names(f.parameters@)).len(),
            f.body,
            true,
        ) && pos + declaration_tokens(d).len() == declaration_start(pos, d) + 1 + signature_tokens(
            f.name@,
            names(f.parameters@),
        ).len() + block_tokens(f.body).len(),
{
    let whole = declaration_tokens(d);
    match d {
        Declaration::Extern(x) => {
            let a = seq![mark(TokenKind::Extern), mark(TokenKind::Func)];
            let sig = signature_tokens(x.name@, names(x.parameters@));
            let z = seq![mark(TokenKind::Semicolon)];
            assert(whole =~= a + sig + z);
            lemma_split(t, pos, a + sig, z);
            lemma_split(t, pos, a, sig);
            lemma_span_at(t, pos, pos + 2, a, 0);
            lemma_span_at(t, pos, pos + 2, a, 1);
            lemma_span_at(t, pos + 2 + sig.len(), pos + 3 + sig.len(), z, 0);
        },
        Declaration::Function(f) => {
            let pre = if f.public {
                seq![mark(TokenKind::Public)]
            } else {
                Seq::<TokenView>::empty()
            };
            let a = seq![mark(TokenKind::Func)];
            let sig = signature_tokens(f.name@, names(f.parameters@));
            let bt = block_tokens(f.body);
            assert(whole =~= pre + a + sig + bt);
            lemma_split(t, pos, pre + a + sig, bt);
            lemma_split(t, pos, pre + a, sig);
            lemma_split(t, pos, pre, a);
            let s0 = declaration_start(pos, d);
            lemma_span_at(t, s0, s0 + 1, a, 0);
            if f.public {
                lemma_span_at(t, pos, pos + 1, pre, 0);
            }
        },
    }
}

/// Parses parameter names separated by commas, up to the closing parenthesis.
fn parse_parameters(tokens: &Vec<Token>, pos: usize) -> (r: Result<(Vec<String>, usize), ParseError>)
    ensures
        r matches Ok((ps, q)) ==> spans(tokens@, pos as int, q as int, parameters_tokens(names(ps@))),
        forall|ps: Seq<Seq<char>>| #[trigger] parameters_at(tokens@, pos as int, ps) ==> r is Ok
            && r->Ok_0.1 == pos + parameters_tokens(ps).len(),
{
    let ghost t = tokens@;
    let ghost p = pos as int;
    proof {
        assert forall|ps: Seq<Seq<char>>| #[trigger] parameters_at(t, p, ps) implies (ps.len() == 0
            ==> !kind_at(t, p, TokenKind::Identifier) && p <= t.len() && pos + parameters_tokens(ps).len() == p) && (ps.len() >= 1 ==> kind_at(
            t,
            p,
            TokenKind::Identifier,
        ) && p + 1 == p + parameters_tokens(ps.subrange(0, 1)).len()) by {
            lemma_parameter_start(t, p, ps);
        }
    }
    let mut parameters: Vec<String> = Vec::new();
    if !at(tokens, pos, TokenKind::Identifier) {
        if pos > tokens.len() {
            return Err(ParseError { position: pos });
        }
        proof {
            lemma_empty(tokens@, pos as int);
            assert(names(parameters@) =~= Seq::<Seq<char>>::empty());
        }
        return Ok((parameters, pos));
    }
    parameters.push(tokens[pos].text.clone());
    proof {
        lemma_one(tokens@, pos as int);
        assert(names(parameters@) =~= seq![tokens@[pos as int].text@]);
    }
    let mut q = pos + 1;
    loop
        invariant
            t == tokens@,
            p == pos as int,
            pos < q <= tokens@.len(),
            parameters@.len() >= 1,
            spans(tokens@, pos as int, q as int, parameters_tokens(names(parameters@))),
            forall|ps: Seq<Seq<char>>| #[trigger] parameters_at(t, p, ps) ==> parameters@.len() <= ps.len()
                && q == p + parameters_tokens(ps.subrange(0, parameters@.len() as int)).len(),
        decreases tokens@.len() - q,
    {
        let ghost count = parameters@.len() as int;
        proof {
            assert forall|ps: Seq<Seq<char>>| #[trigger] parameters_at(t, p, ps) implies (count < ps.len()
                ==> kind_at(t, q as int, TokenKind::Comma) && kind_at(t, q + 1, TokenKind::Identifier) && q
                + 2 == p + parameters_tokens(ps.subrange(0, count + 1)).len()) && (count == ps.len() ==> !kind_at(
                t,
                q as int,
                TokenKind::Comma,
            ) && q == p + parameters_tokens(ps).len()) by {
                lemma_parameter_position(t, p, ps, count);
            }
        }
        if !at(tokens, q, TokenKind::Comma) || !at(tokens, q + 1, TokenKind::Identifier) {
            return Ok((parameters, q));
        }
        let ghost before = parameters@;
        parameters.push(tokens[q + 1].text.clone());
        proof {
            lemma_one(tokens@, q as int);
            lemma_one(tokens@, q + 1);
            lemma_join(tokens@, q as int, q + 1, q + 2, seq![mark(TokenKind::Comma)], seq![tokens@[q + 1]@]);
            lemma_join(tokens@, pos as int, q as int, q + 2, parameters_tokens(names(before)), seq![mark(TokenKind::Comma)] + seq![tokens@[q + 1]@]);
            assert(names(parameters@).drop_last() =~= names(before));
            assert(seq![mark(TokenKind::Comma)] + seq![tokens@[q + 1]@] =~= seq![mark(TokenKind::Comma), identifier(names(parameters@).last())]);
        }
        q = q + 2;
    }
}

/// Parses the name and parameters of a declaration: `name ( parameters )`.
fn parse_signature(tokens: &Vec<Token>, pos: usize) -> (r: Result<(String, Vec<String>, usize), ParseError>)
    ensures
        r matches Ok((name, ps, q)) ==> spans(
            tokens@,
            pos as int,
            q as int,
            seq![identifier(name@), mark(TokenKind::LeftParen)] + parameters_tokens(names(ps@))
                + seq![mark(TokenKind::RightParen)],
        ),
        forall|name: Seq<char>, ps: Seq<Seq<char>>| #[trigger] signature_at(tokens@, pos as int, name, ps)
            ==> r is Ok && r->Ok_0.2 == pos + signature_tokens(name, ps).len(),
{
    let ghost t = tokens@;
    let ghost p = pos as int;
    proof {
        assert forall|name: Seq<char>, ps: Seq<Seq<char>>| #[trigger] signature_at(t, p, name, ps) implies kind_at(
            t,
            p,
            TokenKind::Identifier,
        ) && kind_at(t, p + 1, TokenKind::LeftParen) && parameters_at(t, p + 2, ps) && p
            + signature_tokens(name, ps).len() == p + 2 + parameters_tokens(ps).len() + 1 by {
            lemma_signature_parts(t, p, name, ps);
        }
    }
    if !at(tokens, pos, TokenKind::Identifier) || !at(tokens, pos + 1, TokenKind::LeftParen) {
        return Err(ParseError { position: pos });
    }
    let name = tokens[pos].text.clone();
    let p2 = pos + 2;
    let (parameters, q) = parse_parameters(tokens, p2)?;
    if !at(tokens, q, TokenKind::RightParen) {
        return Err(ParseError { position: q });
    }
    proof {
        let a = seq![identifier(name@), mark(TokenKind::LeftParen)];
        lemma_one(tokens@, pos as int);
        lemma_one(tokens@, pos + 1);
        assert(seq![identifier(name@)] + seq![mark(TokenKind::LeftParen)] =~= a);
        lemma_join(tokens@, pos as int, pos + 1, pos + 2, seq![identifier(name@)], seq![mark(TokenKind::LeftParen)]);
        lemma_join(tokens@, pos as int, pos + 2, q as int, a, parameters_tokens(names(parameters@)));
        lemma_one(tokens@, q as int);
        lemma_join(tokens@, pos as int, q as int, q + 1, a + parameters_tokens(names(parameters@)), seq![mark(TokenKind::RightParen)]);
    }
    Ok((name, parameters, q + 1))
}

pub open spec fn declaration_signature(d: Declaration) -> (Seq<char>, Seq<Seq<char>>) {
    match d {
        Declaration::Extern(x) => (x.name@, names(x.parameters@)),
        Declaration::Function(f) => (f.name@, names(f.parameters@)),
    }
}

pub open spec fn declaration_body(d: Declaration) -> Block {
    match d {
        Declaration::Function(f) => f.body,
        _ => arbitrary(),
    }
}

/// Parses one declaration.
fn parse_declaration(tokens: &Vec<Token>, pos: usize) -> (r: Result<(Declaration, usize), ParseError>)
    ensures
        r matches Ok((d, q)) ==> spans(tokens@, pos as int, q as int, declaration_tokens(d))
            && declaration_wf(d),
        forall|d: Declaration| #[trigger] declaration_at(tokens@, pos as int, d) ==> r is Ok
            && r->Ok_0.1 == pos + declaration_tokens(d).len(),
{
    let ghost t = tokens@;
    let ghost p = pos as int;
    proof {
        assert forall|d: Declaration| #[trigger] declaration_at(t, p, d) implies p < t.len() && (kind_at(
            t,
            p,
            TokenKind::Extern,
        ) <==> d is Extern) by {
            lemma_declaration_parts(t, p, d);
        }
    }
    if pos >= tokens.len() {
        return Err(ParseError { position: pos });
    }
    if at(tokens, pos, TokenKind::Extern) {
        proof {
            assert forall|d: Declaration| #[trigger] declaration_at(t, p, d) implies kind_at(
                t,
                p + 1,
                TokenKind::Func,
            ) && signature_at(t, p + 2, declaration_signature(d).0, declaration_signature(d).1) && kind_at(
                t,
                p + 2 + signature_tokens(declaration_signature(d).0, declaration_signature(d).1).len(),
                TokenKind::Semicolon,
            ) && p + declaration_tokens(d).len() == p + 3 + signature_tokens(
                declaration_signature(d).0,
                declaration_signature(d).1,
            ).len() by {
                lemma_declaration_parts(t, p, d);
            }
        }
        if !at(tokens, pos + 1, TokenKind::Func) {
            return Err(ParseError { position: pos + 1 });
        }
        let p2 = pos + 2;
        let (name, parameters, q) = parse_signature(tokens, p2)?;
        if !at(tokens, q, TokenKind::Semicolon) {
            return Err(ParseError { position: q });
        }
        let ghost signature = seq![identifier(name@), mark(TokenKind::LeftParen)] + parameters_tokens(names(parameters@)) + seq![mark(TokenKind::RightParen)];
        let declaration = Declaration::Extern(ExternDeclaration { name, parameters });
        proof {
            lemma_one(tokens@, pos as int);
            lemma_one(tokens@, pos + 1);
            lemma_join(tokens@, pos as int, pos + 1, pos + 2, seq![mark(TokenKind::Extern)], seq![mark(TokenKind::Func)]);
            lemma_join(tokens@, pos as int, pos + 2, q as int, seq![mark(TokenKind::Extern)] + seq![mark(TokenKind::Func)], signature);
            lemma_one(tokens@, q as int);
            lemma_join(tokens@, pos as int, q as int, q + 1, seq![mark(TokenKind::Extern)] + seq![mark(TokenKind::Func)] + signature, seq![mark(TokenKind::Semicolon)]);
            assert(declaration_tokens(declaration) =~= seq![mark(TokenKind::Extern)] + seq![mark(TokenKind::Func)] + signature + seq![mark(TokenKind::Semicolon)]);
        }
        return Ok((declaration, q + 1));
    }
    let public = at(tokens, pos, TokenKind::Public);
    let start = if public { pos + 1 } else { pos };
    let ghost prefix = if public { seq![mark(TokenKind::Public)] } else { Seq::<TokenView>::empty() };
    proof {
        if public {
            lemma_one(tokens@, pos as int);
        } else {
            lemma_empty(tokens@, pos as int);
        }
        assert forall|d: Declaration| #[trigger] declaration_at(t, p, d) implies declaration_start(p, d)
            == start && kind_at(t, start as int, TokenKind::Func) && signature_at(
            t,
            start + 1,
            declaration_signature(d).0,
            declaration_signature(d).1,
        ) && block_at(
            t,
            start + 1 + signature_tokens(declaration_signature(d).0, declaration_signature(d).1).len(),
            declaration_body(d),
            true,
        ) && p + declaration_tokens(d).len() == start + 1 + signature_tokens(
            declaration_signature(d).0,
            declaration_signature(d).1,
        ).len() + block_tokens(declaration_body(d)).len() by {
            lemma_declaration_parts(t, p, d);
        }
    }
    if !at(tokens, start, TokenKind::Func) {
        return Err(ParseError { position: start });
    }
    let s1 = start + 1;
    let (name, parameters, q) = parse_signature(tokens, s1)?;
    let (body, q2) = parse_block(tokens, q, true)?;
    let ghost signature = seq![identifier(name@), mark(TokenKind::LeftParen)] + parameters_tokens(names(parameters@)) + seq![mark(TokenKind::RightParen)];
    let declaration = Declaration::Function(FunctionDeclaration { name, public, parameters, body });
    proof {
        lemma_one(tokens@, start as int);
        lemma_join(tokens@, pos as int, start as int, start + 1, prefix, seq![mark(TokenKind::Func)]);
        lemma_join(tokens@, pos as int, start + 1, q as int, prefix + seq![mark(TokenKind::Func)], signature);
        lemma_join(tokens@, pos as int, q as int, q2 as int, prefix + seq![mark(TokenKind::Func)] + signature, block_tokens(body));
        assert(declaration_tokens(declaration) =~= prefix + seq![mark(TokenKind::Func)] + signature + block_tokens(body));
    }
    Ok((declaration, q2))
}

/// Parses a whole program. On success the tokens are exactly those of the
/// declarations, one after another; it fails only where no program has them.
pub fn parse_program(tokens: &Vec<Token>) -> (r: Result<Vec<Declaration>, ParseError>)
    ensures
        r matches Ok(ds) ==> token_views(tokens@) == program_tokens(ds@) && forall|i: int|
            0 <= i < ds@.len() ==> declaration_wf(#[trigger] ds@[i]),
        r is Err ==> !exists|ds: Seq<Declaration>| program_of(tokens@, ds),
{
    let ghost t = tokens@;
    let mut declarations: Vec<Declaration> = Vec::new();
    let mut q: usize = 0;
    proof {
        lemma_empty(tokens@, 0);
        assert forall|ds: Seq<Declaration>| #[trigger] program_of(t, ds) implies q == program_tokens(
            ds.subrange(0, 0),
        ).len() by {
            assert(ds.subrange(0, 0) =~= Seq::<Declaration>::empty());
        }
    }
    while q < tokens.len()
        invariant
            t == tokens@,
            q <= tokens@.len(),
            spans(tokens@, 0, q as int, program_tokens(declarations@)),
            forall|i: int| 0 <= i < declarations@.len() ==> declaration_wf(#[trigger] declarations@[i]),
            forall|ds: Seq<Declaration>| #[trigger] program_of(t, ds) ==> declarations@.len() <= ds.len()
                && q == program_tokens(ds.subrange(0, declarations@.len() as int)).len(),
        decreases tokens@.len() - q,
    {
        let ghost count = declarations@.len() as int;
        proof {
            assert forall|ds: Seq<Declaration>| #[trigger] program_of(t, ds) implies count < ds.len()
                && declaration_at(t, q as int, ds[count]) && q + declaration_tokens(ds[count]).len()
                == program_tokens(ds.subrange(0, count + 1)).len() && declaration_tokens(ds[count]).len() > 0 by {
                lemma_program_prefix(ds, count);
                assert(token_views(t).subrange(0, t.len() as int) =~= token_views(t));
                if count == ds.len() {
                    assert(ds.subrange(0, count) =~= ds);
                } else {
                    lemma_program_prefix(ds, count + 1);
                    lemma_prefix(t, 0, program_tokens(ds.subrange(0, count + 1)), program_tokens(ds));
                    lemma_split(t, 0, program_tokens(ds.subrange(0, count)), declaration_tokens(ds[count]));
                    match ds[count] {
                        Declaration::Extern(_) => {},
                        Declaration::Function(f) => {
                            lemma_block_start(f.body);
                        },
                    }
                }
            }
        }
        let (declaration, r) = parse_declaration(tokens, q)?;
        if r <= q {
            return Err(ParseError { position: q });
        }
        proof {
            lemma_join(tokens@, 0, q as int, r as int, program_tokens(declarations@), declaration_tokens(declaration));
        }
        let ghost before = declarations@;
        declarations.push(declaration);
        proof {
            assert(declarations@.drop_last() == before);
        }
        q = r;
    }
    assert(token_views(tokens@).subrange(0, tokens@.len() as int) =~= token_views(tokens@));
    Ok(declarations)
}

} // verus!

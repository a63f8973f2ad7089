//! Splitting Wafer source text into tokens.
use vstd::prelude::*;

use super::token::{token_views, Token, TokenKind, TokenView};

verus! {

pub open spec fn is_space(c: char) -> bool {
    c == ' ' || c == '\t' || c == '\n' || c == '\r'
}

pub open spec fn is_digit(c: char) -> bool {
    '0' <= c <= '9'
}

pub open spec fn is_word_start(c: char) -> bool {
    ('a' <= c <= 'z') || ('A' <= c <= 'Z') || c == '_'
}

pub open spec fn is_word(c: char) -> bool {
    is_word_start(c) || is_digit(c)
}

pub open spec fn all_space(s: Seq<char>) -> bool {
    forall|i: int| 0 <= i < s.len() ==> is_space(#[trigger] s[i])
}

/// The value of a sequence of decimal digits.
pub open spec fn decimal(digits: Seq<char>) -> nat
    decreases digits.len(),
{
    if digits.len() == 0 {
        0
    } else {
        10 * decimal(digits.drop_last()) + digit_value(digits.last())
    }
}

pub open spec fn digit_value(c: char) -> nat {
    (c as u32 - '0' as u32) as nat
}

/// The spelling of a keyword or punctuation mark; empty for the kinds that carry text.
pub open spec fn fixed_text(kind: TokenKind) -> Seq<char> {
    match kind {
        TokenKind::Func => "func"@,
        TokenKind::Extern => "extern"@,
        TokenKind::Public => "public"@,
        TokenKind::Let => "let"@,
        TokenKind::If => "if"@,
        TokenKind::Else => "else"@,
        TokenKind::While => "while"@,
        TokenKind::And => "and"@,
        TokenKind::Or => "or"@,
        TokenKind::LeftParen => seq!['('],
        TokenKind::RightParen => seq![')'],
        TokenKind::LeftBrace => seq!['{'],
        TokenKind::RightBrace => seq!['}'],
        TokenKind::LeftBracket => seq!['['],
        TokenKind::RightBracket => seq![']'],
        TokenKind::Comma => seq![','],
        TokenKind::Semicolon => seq![';'],
        TokenKind::Equals => seq!['='],
        TokenKind::ColonEquals => seq![':', '='],
        TokenKind::Plus => seq!['+'],
        TokenKind::Minus => seq!['-'],
        TokenKind::Star => seq!['*'],
        TokenKind::Slash => seq!['/'],
        TokenKind::EqualEqual => seq!['=', '='],
        TokenKind::NotEqual => seq!['!', '='],
        TokenKind::Less => seq!['<'],
        TokenKind::LessEqual => seq!['<', '='],
        TokenKind::Greater => seq!['>'],
        TokenKind::GreaterEqual => seq!['>', '='],
        _ => Seq::empty(),
    }
}

pub open spec fn is_keyword(kind: TokenKind) -> bool {
    matches!(kind, TokenKind::Func | TokenKind::Extern | TokenKind::Public | TokenKind::Let
        | TokenKind::If | TokenKind::Else | TokenKind::While | TokenKind::And | TokenKind::Or)
}

/// The keyword spelled by `word`, if any.
pub open spec fn keyword(word: Seq<char>) -> Option<TokenKind> {
    if word == fixed_text(TokenKind::Func) {
        Some(TokenKind::Func)
    } else if word == fixed_text(TokenKind::Extern) {
        Some(TokenKind::Extern)
    } else if word == fixed_text(TokenKind::Public) {
        Some(TokenKind::Public)
    } else if word == fixed_text(TokenKind::Let) {
        Some(TokenKind::Let)
    } else if word == fixed_text(TokenKind::If) {
        Some(TokenKind::If)
    } else if word == fixed_text(TokenKind::Else) {
        Some(TokenKind::Else)
    } else if word == fixed_text(TokenKind::While) {
        Some(TokenKind::While)
    } else if word == fixed_text(TokenKind::And) {
        Some(TokenKind::And)
    } else if word == fixed_text(TokenKind::Or) {
        Some(TokenKind::Or)
    } else {
        None
    }
}

/// `text` is a spelling of the token `t`.
pub open spec fn spells(t: TokenView, text: Seq<char>) -> bool {
    match t.0 {
        TokenKind::Identifier => text == t.1 && text.len() > 0 && is_word_start(text[0])
            && (forall|i: int| 0 <= i < text.len() ==> is_word(#[trigger] text[i]))
            && keyword(text) is None,
        TokenKind::Number => text.len() > 0 && (forall|i: int|
            0 <= i < text.len() ==> is_digit(#[trigger] text[i])) && decimal(text) == t.2 && t.2
            <= i32::MAX,
        TokenKind::Str => text == seq!['"'] + t.1 + seq!['"'] && !t.1.contains('"'),
        _ => if is_keyword(t.0) {
            &&& keyword(text) == Some(t.0)
            &&& text.len() > 0 && is_word_start(text[0])
            &&& forall|i: int| 0 <= i < text.len() ==> is_word(#[trigger] text[i])
        } else {
            text == fixed_text(t.0)
        },
    }
}

/// A token of kind `kind` would be longer if the character `next` followed it.
pub open spec fn continues(kind: TokenKind, next: char) -> bool {
    match kind {
        TokenKind::Identifier | TokenKind::Func | TokenKind::Extern | TokenKind::Public
        | TokenKind::Let | TokenKind::If | TokenKind::Else | TokenKind::While | TokenKind::And
        | TokenKind::Or => is_word(next),
        TokenKind::Number => is_digit(next),
        TokenKind::Equals | TokenKind::Less | TokenKind::Greater => next == '=',
        _ => false,
    }
}

/// The token spans `start..end` of `chars`, is spelled there, and is as long as it can be.
pub open spec fn token_at(chars: Seq<char>, t: Token) -> bool {
    &&& t.start < t.end <= chars.len()
    &&& spells(t@, chars.subrange(t.start as int, t.end as int))
    &&& t.end < chars.len() ==> !continues(t.kind, chars[t.end as int])
}

/// `tokens` cover `chars` in order, with only white space around and between them.
pub open spec fn tokenizes(chars: Seq<char>, tokens: Seq<Token>) -> bool {
    &&& forall|k: int| 0 <= k < tokens.len() ==> token_at(chars, #[trigger] tokens[k])
    &&& forall|k: int|
        0 <= k < tokens.len() - 1 ==> #[trigger] tokens[k].end <= tokens[k + 1].start && all_space(
            chars.subrange(tokens[k].end as int, tokens[k + 1].start as int),
        )
    &&& if tokens.len() == 0 {
        all_space(chars)
    } else {
        &&& all_space(chars.subrange(0, tokens[0].start as int))
        &&& all_space(chars.subrange(tokens.last().end as int, chars.len() as int))
    }
}

#[derive(Debug, PartialEq, Eq, Clone, Copy, Structural)]
pub enum LexErrorKind {
    /// No token starts with the character here.
    UnexpectedCharacter,
    /// A string literal opens here and never closes.
    UnterminatedString,
    /// The number that starts here is above `i32::MAX`.
    NumberOutOfRange,
}

#[derive(Debug, PartialEq, Eq, Clone, Copy, Structural)]
pub struct LexError {
    pub kind: LexErrorKind,
    pub position: usize,
}

/// No token can start with `c`, which is not white space either; `next` is the
/// character after it, if any.
pub open spec fn cannot_start(c: char, next: Option<char>) -> bool {
    &&& !is_space(c) && !is_word_start(c) && !is_digit(c) && c != '"'
    &&& !(c == '(' || c == ')' || c == '{' || c == '}' || c == '[' || c == ']' || c == ','
        || c == ';' || c == '=' || c == '+' || c == '-' || c == '*' || c == '/' || c == '<'
        || c == '>')
    &&& (c == ':' || c == '!') ==> next != Some('=')
}

/// What a lexing error says of the source.
pub open spec fn lex_error_holds(chars: Seq<char>, e: LexError) -> bool {
    let p = e.position as int;
    &&& p < chars.len()
    &&& match e.kind {
        LexErrorKind::UnexpectedCharacter => cannot_start(
            chars[p],
            if p + 1 < chars.len() {
                Some(chars[p + 1])
            } else {
                None
            },
        ),
        LexErrorKind::UnterminatedString => chars[p] == '"' && !chars.subrange(
            p + 1,
            chars.len() as int,
        ).contains('"'),
        LexErrorKind::NumberOutOfRange => exists|q: int|
            p < q <= chars.len() && (forall|i: int| p <= i < q ==> is_digit(#[trigger] chars[i]))
                && decimal(chars.subrange(p, q)) > i32::MAX,
    }
}

fn source_chars(source: &str) -> (r: Vec<char>)
    ensures
        r@ == source@,
{
    let n = source.unicode_len();
    let mut chars: Vec<char> = Vec::new();
    let mut i: usize = 0;
    while i < n
        invariant
            n == source@.len(),
            i <= n,
            chars@ == source@.subrange(0, i as int),
        decreases n - i,
    {
        chars.push(source.get_char(i));
        assert(chars@ =~= source@.subrange(0, i + 1));
        i = i + 1;
    }
    assert(chars@ =~= source@);
    chars
}

/// Whether `chars[i..j]` spells `word`.
fn spelled(chars: &Vec<char>, i: usize, j: usize, word: &str) -> (r: bool)
    requires
        i <= j <= chars@.len(),
    ensures
        r == (chars@.subrange(i as int, j as int) == word@),
{
    let n = word.unicode_len();
    if j - i != n {
        return false;
    }
    let mut k: usize = 0;
    while k < n
        invariant
            n == word@.len(),
            j - i == n,
            i <= j <= chars@.len(),
            k <= n,
            forall|m: int| 0 <= m < k ==> chars@[i + m] == word@[m],
        decreases n - k,
    {
        if chars[i + k] != word.get_char(k) {
            assert(chars@.subrange(i as int, j as int)[k as int] != word@[k as int]);
            return false;
        }
        k = k + 1;
    }
    assert(chars@.subrange(i as int, j as int) =~= word@);
    true
}

fn keyword_of(chars: &Vec<char>, i: usize, j: usize) -> (r: Option<TokenKind>)
    requires
        i <= j <= chars@.len(),
    ensures
        r == keyword(chars@.subrange(i as int, j as int)),
{
    if spelled(chars, i, j, "func") {
        Some(TokenKind::Func)
    } else if spelled(chars, i, j, "extern") {
        Some(TokenKind::Extern)
    } else if spelled(chars, i, j, "public") {
        Some(TokenKind::Public)
    } else if spelled(chars, i, j, "let") {
        Some(TokenKind::Let)
    } else if spelled(chars, i, j, "if") {
        Some(TokenKind::If)
    } else if spelled(chars, i, j, "else") {
        Some(TokenKind::Else)
    } else if spelled(chars, i, j, "while") {
        Some(TokenKind::While)
    } else if spelled(chars, i, j, "and") {
        Some(TokenKind::And)
    } else if spelled(chars, i, j, "or") {
        Some(TokenKind::Or)
    } else {
        None
    }
}

fn is_word_char(c: char) -> (r: bool)
    ensures
        r == is_word(c),
{
    ('a' <= c && c <= 'z') || ('A' <= c && c <= 'Z') || c == '_' || ('0' <= c && c <= '9')
}

/// The end of the run of word characters that starts at `i`.
fn scan_word(chars: &Vec<char>, i: usize) -> (j: usize)
    requires
        i < chars@.len(),
    ensures
        i <= j <= chars@.len(),
        forall|k: int| i <= k < j ==> is_word(#[trigger] chars@[k]),
        j < chars@.len() ==> !is_word(chars@[j as int]),
{
    let mut j = i;
    while j < chars.len() && is_word_char(chars[j])
        invariant
            i <= j <= chars@.len(),
            forall|k: int| i <= k < j ==> is_word(#[trigger] chars@[k]),
        decreases chars@.len() - j,
    {
        j = j + 1;
    }
    j
}

/// Reads the number whose digits start at `i`.
fn lex_number(chars: &Vec<char>, i: usize) -> (r: Result<(u32, usize), LexError>)
    requires
        i < chars@.len(),
        is_digit(chars@[i as int]),
    ensures
        r matches Ok((value, j)) ==> i < j <= chars@.len() && value <= i32::MAX && (forall|k: int|
            i <= k < j ==> is_digit(#[trigger] chars@[k])) && decimal(
            chars@.subrange(i as int, j as int),
        ) == value && (j < chars@.len() ==> !is_digit(chars@[j as int])),
        r matches Err(e) ==> e.kind == LexErrorKind::NumberOutOfRange && e.position == i
            && lex_error_holds(chars@, e),
{
    let mut value: u32 = 0;
    let mut j = i;
    assert(chars@.subrange(i as int, i as int) =~= Seq::<char>::empty());
    while j < chars.len() && '0' <= chars[j] && chars[j] <= '9'
        invariant
            i <= j <= chars@.len(),
            value <= i32::MAX,
            forall|k: int| i <= k < j ==> is_digit(#[trigger] chars@[k]),
            decimal(chars@.subrange(i as int, j as int)) == value,
        decreases chars@.len() - j,
    {
        let digit = chars[j] as u32 - '0' as u32;
        assert(chars@.subrange(i as int, j + 1).drop_last() =~= chars@.subrange(i as int, j as int));
        if value > (0x7fff_ffffu32 - digit) / 10 {
            let e = LexError { kind: LexErrorKind::NumberOutOfRange, position: i };
            proof {
                assert(decimal(chars@.subrange(i as int, j + 1)) == 10 * value + digit);
                assert(10 * value + digit > i32::MAX) by (nonlinear_arith)
                    requires
                        value > (0x7fff_ffffu32 - digit) / 10,
                        digit <= 9,
                ;
                assert(forall|k: int| i <= k < j + 1 ==> is_digit(#[trigger] chars@[k]));
            }
            return Err(e);
        }
        proof {
            assert(10 * value + digit <= i32::MAX) by (nonlinear_arith)
                requires
                    value <= (0x7fff_ffffu32 - digit) / 10,
                    digit <= 9,
            ;
        }
        value = value * 10 + digit;
        j = j + 1;
    }
    Ok((value, j))
}

/// Reads the punctuation mark at `i`.
fn lex_mark(chars: &Vec<char>, i: usize) -> (r: Option<(TokenKind, usize)>)
    requires
        i < chars@.len(),
    ensures
        r matches Some((kind, j)) ==> i < j <= chars@.len() && !is_keyword(kind) && !(kind
            is Identifier) && !(kind is Number) && !(kind is Str) && chars@.subrange(
            i as int,
            j as int,
        ) == fixed_text(kind) && (j < chars@.len() ==> !continues(kind, chars@[j as int])),
        r is None ==> !(chars@[i as int] == '(' || chars@[i as int] == ')' || chars@[i as int]
            == '{' || chars@[i as int] == '}' || chars@[i as int] == '[' || chars@[i as int] == ']'
            || chars@[i as int] == ',' || chars@[i as int] == ';' || chars@[i as int] == '='
            || chars@[i as int] == '+' || chars@[i as int] == '-' || chars@[i as int] == '*'
            || chars@[i as int] == '/' || chars@[i as int] == '<' || chars@[i as int] == '>')
            && ((chars@[i as int] == ':' || chars@[i as int] == '!') ==> !(i + 1 < chars@.len()
            && chars@[i + 1] == '=')),
{
    let c = chars[i];
    let followed_by_equals = chars.len() - i > 1 && chars[i + 1] == '=';
    let (kind, len): (TokenKind, usize) = if c == '(' {
        (TokenKind::LeftParen, 1)
    } else if c == ')' {
        (TokenKind::RightParen, 1)
    } else if c == '{' {
        (TokenKind::LeftBrace, 1)
    } else if c == '}' {
        (TokenKind::RightBrace, 1)
    } else if c == '[' {
        (TokenKind::LeftBracket, 1)
    } else if c == ']' {
        (TokenKind::RightBracket, 1)
    } else if c == ',' {
        (TokenKind::Comma, 1)
    } else if c == ';' {
        (TokenKind::Semicolon, 1)
    } else if c == '+' {
        (TokenKind::Plus, 1)
    } else if c == '-' {
        (TokenKind::Minus, 1)
    } else if c == '*' {
        (TokenKind::Star, 1)
    } else if c == '/' {
        (TokenKind::Slash, 1)
    } else if c == '=' {
        if followed_by_equals {
            (TokenKind::EqualEqual, 2)
        } else {
            (TokenKind::Equals, 1)
        }
    } else if c == '<' {
        if followed_by_equals {
            (TokenKind::LessEqual, 2)
        } else {
            (TokenKind::Less, 1)
        }
    } else if c == '>' {
        if followed_by_equals {
            (TokenKind::GreaterEqual, 2)
        } else {
            (TokenKind::Greater, 1)
        }
    } else if c == ':' && followed_by_equals {
        (TokenKind::ColonEquals, 2)
    } else if c == '!' && followed_by_equals {
        (TokenKind::NotEqual, 2)
    } else {
        return None;
    };
    proof {
        if len == 1 {
            assert(chars@.subrange(i as int, i + 1) =~= seq![c]);
        } else {
            assert(chars@.subrange(i as int, i + 2) =~= seq![c, '=']);
        }
    }
    Some((kind, i + len))
}

/// The spans of `ours` are those of the first tokens of `ts`.
pub open spec fn agrees(ts: Seq<Token>, ours: Seq<Token>) -> bool {
    &&& ours.len() <= ts.len()
    &&& forall|j: int|
        0 <= j < ours.len() ==> ts[j].start == (#[trigger] ours[j]).start && ts[j].end == ours[j].end
}

/// The first character of a token tells its class.
#[verifier::rlimit(80)]
proof fn lemma_first_character(chars: Seq<char>, t: Token)
    requires
        token_at(chars, t),
    ensures
        ({
            let c = chars[t.start as int];
            &&& !is_space(c)
            &&& is_word_start(c) ==> t.kind is Identifier || is_keyword(t.kind)
            &&& is_digit(c) ==> t.kind is Number
            &&& c == '"' ==> t.kind is Str
            &&& (!is_word_start(c) && !is_digit(c) && c != '"') ==> !(t.kind is Identifier)
                && !(t.kind is Number) && !(t.kind is Str) && !is_keyword(t.kind)
                && chars.subrange(t.start as int, t.end as int) == fixed_text(t.kind)
        }),
{
    let text = chars.subrange(t.start as int, t.end as int);
    assert(text[0] == chars[t.start as int]);
}

/// A word spelled at `i` ends where the run of word characters ends.
proof fn lemma_word_end(chars: Seq<char>, t: Token, j: int)
    requires
        token_at(chars, t),
        t.kind is Identifier || is_keyword(t.kind),
        t.start <= j <= chars.len(),
        forall|k: int| t.start <= k < j ==> is_word(#[trigger] chars[k]),
        j < chars.len() ==> !is_word(chars[j]),
    ensures
        t.end == j,
{
    let text = chars.subrange(t.start as int, t.end as int);
    if t.end < j {
        assert(is_word(chars[t.end as int]));
    } else if t.end > j {
        assert(text[j - t.start] == chars[j]);
    }
}

/// Decimal values only grow as digits are added.
proof fn lemma_decimal_prefix(s: Seq<char>, q: int)
    requires
        0 <= q <= s.len(),
    ensures
        decimal(s.subrange(0, q)) <= decimal(s),
    decreases s.len() - q,
{
    if q < s.len() {
        assert(s.subrange(0, q + 1).drop_last() =~= s.subrange(0, q));
        lemma_decimal_prefix(s, q + 1);
    } else {
        assert(s.subrange(0, q) =~= s);
    }
}

/// In any tokenization that agrees with `ours` so far, the next token starts at
/// the first character that is not white space.
proof fn lemma_next_start(chars: Seq<char>, ts: Seq<Token>, ours: Seq<Token>, gap: int, i: int)
    requires
        tokenizes(chars, ts),
        agrees(ts, ours),
        0 <= gap <= i < chars.len(),
        all_space(chars.subrange(gap, i)),
        !is_space(chars[i]),
        ours.len() == 0 ==> gap == 0,
        ours.len() > 0 ==> gap == ours.last().end,
    ensures
        ours.len() < ts.len(),
        ts[ours.len() as int].start == i,
        token_at(chars, ts[ours.len() as int]),
{
    let k = ours.len() as int;
    if k == ts.len() {
        if k == 0 {
            assert(is_space(chars[i]));
        } else {
            assert(ts[k - 1].end == ours[k - 1].end);
            assert(chars.subrange(ts.last().end as int, chars.len() as int)[i - gap] == chars[i]);
        }
    } else {
        let s = ts[k].start as int;
        assert(token_at(chars, ts[k]));
        lemma_first_character(chars, ts[k]);
        let before = if k == 0 { 0 } else { ts[k - 1].end as int };
        if k > 0 {
            assert(ts[k - 1].end == ours[k - 1].end);
            assert(ts[k - 1].end <= ts[k].start);
            assert(all_space(chars.subrange(ts[k - 1].end as int, ts[k].start as int)));
        } else {
            assert(all_space(chars.subrange(0, ts[0].start as int)));
        }
        assert(before == gap);
        if s < i {
            assert(chars.subrange(gap, i)[s - gap] == chars[s]);
        } else if s > i {
            assert(chars.subrange(before, s)[i - before] == chars[i]);
        }
    }
}

/// A number spelled at `t.start` ends where the run of digits ends.
proof fn lemma_digits_end(chars: Seq<char>, t: Token, j: int)
    requires
        token_at(chars, t),
        t.kind is Number,
        t.start <= j <= chars.len(),
        forall|k: int| t.start <= k < j ==> is_digit(#[trigger] chars[k]),
        j < chars.len() ==> !is_digit(chars[j]),
    ensures
        t.end == j,
{
    let text = chars.subrange(t.start as int, t.end as int);
    if t.end < j {
        assert(is_digit(chars[t.end as int]));
    } else if t.end > j {
        assert(text[j - t.start] == chars[j]);
    }
}

/// Punctuation marks are one or two characters long; a two-character one ends
/// in `=`, and a one-character one that starts such a mark would go on with `=`.
#[verifier::rlimit(80)]
proof fn lemma_mark_text(k: TokenKind)
    requires
        !(k is Identifier) && !(k is Number) && !(k is Str) && !is_keyword(k),
    ensures
        fixed_text(k).len() == 1 || fixed_text(k).len() == 2,
        fixed_text(k).len() == 2 ==> fixed_text(k)[1] == '=' && (fixed_text(k)[0] == '='
            || fixed_text(k)[0] == ':' || fixed_text(k)[0] == '!' || fixed_text(k)[0] == '<'
            || fixed_text(k)[0] == '>'),
        fixed_text(k).len() == 1 && (fixed_text(k)[0] == '=' || fixed_text(k)[0] == '<'
            || fixed_text(k)[0] == '>') ==> continues(k, '='),
        fixed_text(k).len() == 1 ==> fixed_text(k)[0] != ':' && fixed_text(k)[0] != '!',
{
    match k {
        TokenKind::LeftParen => {},
        TokenKind::RightParen => {},
        TokenKind::LeftBrace => {},
        TokenKind::RightBrace => {},
        TokenKind::LeftBracket => {},
        TokenKind::RightBracket => {},
        TokenKind::Comma => {},
        TokenKind::Semicolon => {},
        TokenKind::Equals => {},
        TokenKind::ColonEquals => {},
        TokenKind::Plus => {},
        TokenKind::Minus => {},
        TokenKind::Star => {},
        TokenKind::Slash => {},
        TokenKind::EqualEqual => {},
        TokenKind::NotEqual => {},
        TokenKind::Less => {},
        TokenKind::LessEqual => {},
        TokenKind::Greater => {},
        TokenKind::GreaterEqual => {},
        _ => {},
    }
}

/// Two punctuation marks spelled at the same place, each as long as it can
/// be, are the same length.
#[verifier::rlimit(80)]
proof fn lemma_mark_end(chars: Seq<char>, i: int, a: TokenKind, ea: int, b: TokenKind, eb: int)
    requires
        0 <= i < ea <= chars.len(),
        i < eb <= chars.len(),
        !(a is Identifier) && !(a is Number) && !(a is Str) && !is_keyword(a),
        !(b is Identifier) && !(b is Number) && !(b is Str) && !is_keyword(b),
        chars.subrange(i, ea) == fixed_text(a),
        chars.subrange(i, eb) == fixed_text(b),
        ea < chars.len() ==> !continues(a, chars[ea]),
        eb < chars.len() ==> !continues(b, chars[eb]),
    ensures
        ea == eb,
{
    lemma_mark_text(a);
    lemma_mark_text(b);
    assert(chars.subrange(i, ea)[0] == chars[i]);
    assert(chars.subrange(i, eb)[0] == chars[i]);
    if eb == i + 2 {
        assert(chars.subrange(i, eb)[1] == chars[i + 1]);
    }
    if ea == i + 2 {
        assert(chars.subrange(i, ea)[1] == chars[i + 1]);
    }
}

/// Where the scan stands: `ours` agree with every tokenization so far, only
/// white space follows them up to `i`, and a token must start at `i`.
pub open spec fn scanning(chars: Seq<char>, ours: Seq<Token>, gap: int, i: int) -> bool {
    &&& 0 <= gap <= i < chars.len()
    &&& all_space(chars.subrange(gap, i))
    &&& !is_space(chars[i])
    &&& ours.len() == 0 ==> gap == 0
    &&& ours.len() > 0 ==> gap == ours.last().end
    &&& forall|ts: Seq<Token>| #[trigger] tokenizes(chars, ts) ==> agrees(ts, ours)
}

/// Every tokenization has its next token at `i..end`.
pub open spec fn next_token_is(chars: Seq<char>, ours: Seq<Token>, i: int, end: int) -> bool {
    forall|ts: Seq<Token>|
        #[trigger] tokenizes(chars, ts) ==> ours.len() < ts.len() && ts[ours.len() as int].start == i
            && ts[ours.len() as int].end == end
}

pub open spec fn untokenizable(chars: Seq<char>) -> bool {
    forall|ts: Seq<Token>| !tokenizes(chars, ts)
}

proof fn lemma_word_step(chars: Seq<char>, ours: Seq<Token>, gap: int, i: int, j: int)
    requires
        scanning(chars, ours, gap, i),
        is_word_start(chars[i]),
        i <= j <= chars.len(),
        forall|k: int| i <= k < j ==> is_word(#[trigger] chars[k]),
        j < chars.len() ==> !is_word(chars[j]),
    ensures
        next_token_is(chars, ours, i, j),
{
    assert forall|ts: Seq<Token>| #[trigger] tokenizes(chars, ts) implies ours.len() < ts.len()
        && ts[ours.len() as int].start == i && ts[ours.len() as int].end == j by {
        lemma_next_start(chars, ts, ours, gap, i);
        lemma_first_character(chars, ts[ours.len() as int]);
        lemma_word_end(chars, ts[ours.len() as int], j);
    }
}

proof fn lemma_number_step(chars: Seq<char>, ours: Seq<Token>, gap: int, i: int, j: int)
    requires
        scanning(chars, ours, gap, i),
        is_digit(chars[i]),
        i <= j <= chars.len(),
        forall|k: int| i <= k < j ==> is_digit(#[trigger] chars[k]),
        j < chars.len() ==> !is_digit(chars[j]),
    ensures
        next_token_is(chars, ours, i, j),
{
    assert forall|ts: Seq<Token>| #[trigger] tokenizes(chars, ts) implies ours.len() < ts.len()
        && ts[ours.len() as int].start == i && ts[ours.len() as int].end == j by {
        lemma_next_start(chars, ts, ours, gap, i);
        lemma_first_character(chars, ts[ours.len() as int]);
        lemma_digits_end(chars, ts[ours.len() as int], j);
    }
}

proof fn lemma_number_too_large(chars: Seq<char>, ours: Seq<Token>, gap: int, i: int, e: LexError)
    requires
        scanning(chars, ours, gap, i),
        is_digit(chars[i]),
        e.kind == LexErrorKind::NumberOutOfRange,
        e.position == i,
        lex_error_holds(chars, e),
    ensures
        untokenizable(chars),
{
    assert forall|ts: Seq<Token>| !tokenizes(chars, ts) by {
        if tokenizes(chars, ts) {
            lemma_next_start(chars, ts, ours, gap, i);
            let t = ts[ours.len() as int];
            lemma_first_character(chars, t);
            let q = choose|q: int|
                i < q <= chars.len() && (forall|m: int| i <= m < q ==> is_digit(#[trigger] chars[m]))
                    && decimal(chars.subrange(i, q)) > i32::MAX;
            let text = chars.subrange(i, t.end as int);
            if q > t.end {
                assert(is_digit(chars[t.end as int]));
            } else {
                assert(chars.subrange(i, q) =~= text.subrange(0, q - i));
                lemma_decimal_prefix(text, q - i);
            }
        }
    }
}

proof fn lemma_string_step(chars: Seq<char>, ours: Seq<Token>, gap: int, i: int, j: int)
    requires
        scanning(chars, ours, gap, i),
        chars[i] == '"',
        i < j < chars.len(),
        chars[j] == '"',
        forall|k: int| i < k < j ==> chars[k] != '"',
    ensures
        next_token_is(chars, ours, i, j + 1),
{
    assert forall|ts: Seq<Token>| #[trigger] tokenizes(chars, ts) implies ours.len() < ts.len()
        && ts[ours.len() as int].start == i && ts[ours.len() as int].end == j + 1 by {
        lemma_next_start(chars, ts, ours, gap, i);
        let t = ts[ours.len() as int];
        lemma_first_character(chars, t);
        let spelled = chars.subrange(i, t.end as int);
        let contents = t@.1;
        assert(spelled[spelled.len() - 1] == chars[t.end - 1]);
        if t.end - 1 < j {
            assert(chars[t.end - 1] != '"');
        } else if t.end - 1 > j {
            assert(spelled[j - i] == chars[j]);
            assert(contents[j - i - 1] == '"');
        }
    }
}

proof fn lemma_unterminated(chars: Seq<char>, ours: Seq<Token>, gap: int, i: int)
    requires
        scanning(chars, ours, gap, i),
        chars[i] == '"',
        forall|k: int| i < k < chars.len() ==> chars[k] != '"',
    ensures
        untokenizable(chars),
{
    assert forall|ts: Seq<Token>| !tokenizes(chars, ts) by {
        if tokenizes(chars, ts) {
            lemma_next_start(chars, ts, ours, gap, i);
            let t = ts[ours.len() as int];
            lemma_first_character(chars, t);
            let spelled = chars.subrange(i, t.end as int);
            assert(spelled[spelled.len() - 1] == chars[t.end - 1]);
        }
    }
}

#[verifier::rlimit(80)]
proof fn lemma_mark_step(chars: Seq<char>, ours: Seq<Token>, gap: int, i: int, kind: TokenKind, j: int)
    requires
        scanning(chars, ours, gap, i),
        !is_word_start(chars[i]) && !is_digit(chars[i]) && chars[i] != '"',
        i < j <= chars.len(),
        !is_keyword(kind) && !(kind is Identifier) && !(kind is Number) && !(kind is Str),
        chars.subrange(i, j) == fixed_text(kind),
        j < chars.len() ==> !continues(kind, chars[j]),
    ensures
        next_token_is(chars, ours, i, j),
{
    assert forall|ts: Seq<Token>| #[trigger] tokenizes(chars, ts) implies ours.len() < ts.len()
        && ts[ours.len() as int].start == i && ts[ours.len() as int].end == j by {
        lemma_next_start(chars, ts, ours, gap, i);
        let t = ts[ours.len() as int];
        lemma_first_character(chars, t);
        lemma_mark_end(chars, i, kind, j, t.kind, t.end as int);
    }
}

#[verifier::rlimit(80)]
proof fn lemma_no_mark(chars: Seq<char>, ours: Seq<Token>, gap: int, i: int)
    requires
        scanning(chars, ours, gap, i),
        !is_word_start(chars[i]) && !is_digit(chars[i]) && chars[i] != '"',
        !(chars[i] == '(' || chars[i] == ')' || chars[i] == '{' || chars[i] == '}' || chars[i] == '['
            || chars[i] == ']' || chars[i] == ',' || chars[i] == ';' || chars[i] == '=' || chars[i]
            == '+' || chars[i] == '-' || chars[i] == '*' || chars[i] == '/' || chars[i] == '<'
            || chars[i] == '>'),
        (chars[i] == ':' || chars[i] == '!') ==> !(i + 1 < chars.len() && chars[i + 1] == '='),
    ensures
        untokenizable(chars),
{
    assert forall|ts: Seq<Token>| !tokenizes(chars, ts) by {
        if tokenizes(chars, ts) {
            lemma_next_start(chars, ts, ours, gap, i);
            let t = ts[ours.len() as int];
            lemma_first_character(chars, t);
            lemma_mark_text(t.kind);
            let spelled = chars.subrange(i, t.end as int);
            assert(spelled[0] == chars[i]);
            if t.end > i + 1 {
                assert(spelled[1] == chars[i + 1]);
            }
        }
    }
}

/// Two tokens spelled over the same characters are the same token.
#[verifier::rlimit(80)]
proof fn lemma_same_view(chars: Seq<char>, a: Token, b: Token)
    requires
        token_at(chars, a),
        token_at(chars, b),
        a.start == b.start,
        a.end == b.end,
    ensures
        a@ == b@,
{
    lemma_first_character(chars, a);
    lemma_first_character(chars, b);
    let text = chars.subrange(a.start as int, a.end as int);
    if a.kind is Str && b.kind is Str {
        let ca = a.text@;
        let cb = b.text@;
        assert(ca =~= text.subrange(1, text.len() - 1));
        assert(cb =~= text.subrange(1, text.len() - 1));
    }
    if !(a.kind is Identifier) && !(a.kind is Number) && !(a.kind is Str) && !is_keyword(a.kind)
        && !(b.kind is Identifier) && !(b.kind is Number) && !(b.kind is Str) && !is_keyword(b.kind) {
        lemma_mark_text(a.kind);
        lemma_mark_text(b.kind);
        assert(text[0] == fixed_text(a.kind)[0]);
        assert(text[0] == fixed_text(b.kind)[0]);
        if text.len() == 2 {
            assert(text[1] == fixed_text(a.kind)[1]);
        }
        lemma_fixed_text_injective(a.kind, b.kind);
    }
}

#[verifier::rlimit(80)]
proof fn lemma_fixed_text_injective(a: TokenKind, b: TokenKind)
    requires
        !(a is Identifier) && !(a is Number) && !(a is Str) && !is_keyword(a),
        !(b is Identifier) && !(b is Number) && !(b is Str) && !is_keyword(b),
        fixed_text(a) == fixed_text(b),
    ensures
        a == b,
{
    lemma_mark_text(a);
    lemma_mark_text(b);
    assert(fixed_text(a)[0] == fixed_text(b)[0]);
    if fixed_text(a).len() == 2 {
        assert(fixed_text(a)[1] == fixed_text(b)[1]);
    }
    match a {
        TokenKind::LeftParen => {},
        TokenKind::RightParen => {},
        TokenKind::LeftBrace => {},
        TokenKind::RightBrace => {},
        TokenKind::LeftBracket => {},
        TokenKind::RightBracket => {},
        TokenKind::Comma => {},
        TokenKind::Semicolon => {},
        TokenKind::Equals => {},
        TokenKind::ColonEquals => {},
        TokenKind::Plus => {},
        TokenKind::Minus => {},
        TokenKind::Star => {},
        TokenKind::Slash => {},
        TokenKind::EqualEqual => {},
        TokenKind::NotEqual => {},
        TokenKind::Less => {},
        TokenKind::LessEqual => {},
        TokenKind::Greater => {},
        TokenKind::GreaterEqual => {},
        _ => {},
    }
}

/// A tokenization that agrees with a complete one, after which only white
/// space remains, has the same tokens.
proof fn lemma_unique(chars: Seq<char>, ts: Seq<Token>, ours: Seq<Token>, gap: int)
    requires
        tokenizes(chars, ts),
        agrees(ts, ours),
        forall|k: int| 0 <= k < ours.len() ==> token_at(chars, #[trigger] ours[k]),
        0 <= gap <= chars.len(),
        all_space(chars.subrange(gap, chars.len() as int)),
        ours.len() == 0 ==> gap == 0,
        ours.len() > 0 ==> gap == ours.last().end,
    ensures
        token_views(ts) == token_views(ours),
{
    let k = ours.len() as int;
    if ts.len() > k {
        let s = ts[k].start as int;
        assert(token_at(chars, ts[k]));
        lemma_first_character(chars, ts[k]);
        if k > 0 {
            assert(ts[k - 1].end == ours[k - 1].end);
            assert(ts[k - 1].end <= ts[k].start);
        }
        assert(chars.subrange(gap, chars.len() as int)[s - gap] == chars[s]);
    }
    assert forall|j: int| 0 <= j < ts.len() implies #[trigger] token_views(ts)[j] == token_views(ours)[j] by {
        assert(token_at(chars, ts[j]));
        assert(token_at(chars, ours[j]));
        lemma_same_view(chars, ts[j], ours[j]);
    }
    assert(token_views(ts) =~= token_views(ours));
}

/// Splits `source` into tokens. It fails only where no tokenization exists.
#[verifier::rlimit(60)]
pub fn tokenize(source: &str) -> (r: Result<Vec<Token>, LexError>)
    ensures
        r matches Ok(tokens) ==> tokenizes(source@, tokens@),
        r matches Ok(tokens) ==> forall|ts: Seq<Token>| #[trigger] tokenizes(source@, ts)
            ==> token_views(ts) == token_views(tokens@),
        r matches Err(e) ==> lex_error_holds(source@, e),
        r is Err ==> !exists|ts: Seq<Token>| tokenizes(source@, ts),
{
    let chars = source_chars(source);
    let n = chars.len();
    let mut tokens: Vec<Token> = Vec::new();
    let mut i: usize = 0;
    let ghost mut gap_start: int = 0;
    while i < n
        invariant
            n == chars@.len(),
            chars@ == source@,
            0 <= gap_start <= i <= n,
            all_space(chars@.subrange(gap_start, i as int)),
            forall|k: int| 0 <= k < tokens@.len() ==> token_at(chars@, #[trigger] tokens@[k]),
            forall|k: int|
                0 <= k < tokens@.len() - 1 ==> #[trigger] tokens@[k].end <= tokens@[k + 1].start
                    && all_space(
                    chars@.subrange(tokens@[k].end as int, tokens@[k + 1].start as int),
                ),
            tokens@.len() == 0 ==> gap_start == 0,
            tokens@.len() > 0 ==> gap_start == tokens@.last().end && all_space(
                chars@.subrange(0, tokens@[0].start as int),
            ),
            forall|ts: Seq<Token>| #[trigger] tokenizes(chars@, ts) ==> agrees(ts, tokens@),
        decreases n - i,
    {
        let c = chars[i];
        if c == ' ' || c == '\t' || c == '\n' || c == '\r' {
            assert(chars@.subrange(gap_start, i + 1) =~= chars@.subrange(gap_start, i as int).push(c));
            i = i + 1;
            continue;
        }
        assert(scanning(chars@, tokens@, gap_start, i as int));
        let token = if ('a' <= c && c <= 'z') || ('A' <= c && c <= 'Z') || c == '_' {
            let j = scan_word(&chars, i);
            proof {
                lemma_word_step(chars@, tokens@, gap_start, i as int, j as int);
            }
            match keyword_of(&chars, i, j) {
                Some(kind) => Token { kind, text: String::new(), value: 0, start: i, end: j },
                None => {
                    let text = source.substring_char(i, j).to_owned();
                    Token { kind: TokenKind::Identifier, text, value: 0, start: i, end: j }
                },
            }
        } else if '0' <= c && c <= '9' {
            let (value, j) = match lex_number(&chars, i) {
                Ok(result) => result,
                Err(e) => {
                    proof {
                        lemma_number_too_large(chars@, tokens@, gap_start, i as int, e);
                    }
                    return Err(e);
                },
            };
            proof {
                lemma_number_step(chars@, tokens@, gap_start, i as int, j as int);
            }
            Token { kind: TokenKind::Number, text: String::new(), value, start: i, end: j }
        } else if c == '"' {
            let mut j = i + 1;
            while j < n && chars[j] != '"'
                invariant
                    n == chars@.len(),
                    i < j <= n,
                    forall|k: int| i < k < j ==> chars@[k] != '"',
                decreases n - j,
            {
                j = j + 1;
            }
            if j >= n {
                proof {
                    let rest = chars@.subrange(i + 1, n as int);
                    assert forall|m: int| 0 <= m < rest.len() implies rest[m] != '"' by {
                        assert(rest[m] == chars@[i + 1 + m]);
                    }
                    lemma_unterminated(chars@, tokens@, gap_start, i as int);
                }
                return Err(LexError { kind: LexErrorKind::UnterminatedString, position: i });
            }
            let text = source.substring_char(i + 1, j).to_owned();
            proof {
                lemma_string_step(chars@, tokens@, gap_start, i as int, j as int);
                assert(chars@.subrange(i as int, j + 1) =~= seq!['"'] + text@ + seq!['"']);
                assert forall|m: int| 0 <= m < text@.len() implies text@[m] != '"' by {
                    assert(text@[m] == chars@[i + 1 + m]);
                }
            }
            Token { kind: TokenKind::Str, text, value: 0, start: i, end: j + 1 }
        } else {
            match lex_mark(&chars, i) {
                Some((kind, j)) => {
                    proof {
                        lemma_mark_step(chars@, tokens@, gap_start, i as int, kind, j as int);
                    }
                    Token { kind, text: String::new(), value: 0, start: i, end: j }
                },
                None => {
                    proof {
                        lemma_no_mark(chars@, tokens@, gap_start, i as int);
                    }
                    return Err(LexError { kind: LexErrorKind::UnexpectedCharacter, position: i });
                },
            }
        };
        assert(token_at(chars@, token));
        assert(next_token_is(chars@, tokens@, i as int, token.end as int));
        let ghost before = tokens@;
        let end = token.end;
        tokens.push(token);
        proof {
            assert(forall|k: int| 0 <= k < before.len() ==> tokens@[k] == before[k]);
            if before.len() > 0 {
                assert(tokens@[before.len() - 1] == before.last());
            }
            assert forall|ts: Seq<Token>| #[trigger] tokenizes(chars@, ts) implies agrees(ts, tokens@) by {
                assert(agrees(ts, before));
                assert forall|m: int| 0 <= m < tokens@.len() implies ts[m].start == (#[trigger] tokens@[m]).start
                    && ts[m].end == tokens@[m].end by {
                    if m < before.len() {
                        assert(tokens@[m] == before[m]);
                    }
                }
            }
            gap_start = end as int;
            assert(chars@.subrange(gap_start, end as int) =~= Seq::<char>::empty());
        }
        i = end;
    }
    assert(chars@.subrange(0, n as int) =~= chars@);
    proof {
        assert forall|ts: Seq<Token>| #[trigger] tokenizes(source@, ts) implies token_views(ts) == token_views(tokens@) by {
            lemma_unique(chars@, ts, tokens@, gap_start);
        }
    }
    Ok(tokens)
}

} // verus!

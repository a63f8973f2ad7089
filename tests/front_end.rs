use wasm_ground_up::wafer::lexer::{tokenize, LexErrorKind};
use wasm_ground_up::wafer::parser::parse_program;
use wasm_ground_up::wafer::strings::Strings;
use wasm_ground_up::wafer::symbols::Symbols;
use wasm_ground_up::wafer::syntax::{Declaration, Expression};
use wasm_ground_up::wafer::token::TokenKind;
use wasm_ground_up::wafer::{CompileError, Wafer};
use wasm_ground_up::wasm::{Instruction, ValueType};

fn declarations(source: &str) -> Vec<Declaration> {
    let tokens = tokenize(source).unwrap();
    parse_program(&tokens).unwrap()
}

#[test]
fn parser_should_parse_numbers() {
    let declarations = declarations("func number() { 123 }");
    match &declarations[0] {
        Declaration::Function(f) => {
            assert!(f.body.statements.is_empty());
            assert!(matches!(f.body.value.as_deref(), Some(Expression::Number(123))));
        }
        Declaration::Extern(_) => panic!("expected a function"),
    }
}

#[test]
fn parser_accepts_exactly_the_grammar() {
    assert!(parse_program(&tokenize("func f() { if 1 { 2 } else { 3 } + 4; 5 }").unwrap()).is_ok());
    assert!(parse_program(&tokenize("func f() { x[1] := 2; (x) }").unwrap()).is_ok());
    assert!(parse_program(&tokenize("func f() { 1 2 }").unwrap()).is_err());
    assert!(parse_program(&tokenize("func f() { if 1 { 2; } else { 3 } }").unwrap()).is_err());
}

#[test]
fn wafer_should_parse_numbers() {
    let wafer = Wafer::parse("func number() { 123 }").unwrap();
    assert_eq!(wafer.functions.len(), 1);

    let function = &wafer.functions[0];
    assert_eq!(function.name, "number");
    assert_eq!(
        function.instructions,
        vec![Instruction::ConstI32(123), Instruction::End]
    );
}

#[test]
#[should_panic]
fn should_fail_to_parse_non_numeric() {
    Wafer::parse("abc").unwrap();
}

#[test]
fn should_handle_let_statement() {
    let wafer = Wafer::parse("func letstmt() { let x = 42; x * 2 }").unwrap();
    let function = &wafer.functions[0];

    assert_eq!(function.locals, vec![(1, ValueType::I32)]);
    assert_eq!(
        function.instructions,
        vec![
            Instruction::ConstI32(42),
            Instruction::LocalSetI32(0),
            Instruction::LocalGetI32(0),
            Instruction::ConstI32(2),
            Instruction::MultiplyI32,
            Instruction::End
        ]
    );
}

#[test]
fn should_handle_expression_statement() {
    let wafer = Wafer::parse("func exprstmt() { let x = 1; x := 2; 3 }").unwrap();
    let function = &wafer.functions[0];

    assert_eq!(
        function.instructions,
        vec![
            Instruction::ConstI32(1),
            Instruction::LocalSetI32(0),
            Instruction::ConstI32(2),
            Instruction::LocalTeeI32(0),
            Instruction::Drop,
            Instruction::ConstI32(3),
            Instruction::End
        ]
    );
}

#[test]
fn should_handle_multiple_functions() {
    let wafer = Wafer::parse("func one() { 1 } func two() { 2 }").unwrap();

    assert_eq!(wafer.functions.len(), 2);
    assert_eq!(wafer.functions[0].name, "one");
    assert_eq!(wafer.functions[1].name, "two");
}

#[test]
fn should_handle_function_with_parameters() {
    let wafer = Wafer::parse("func withparams(x, y) { x + y }").unwrap();
    let function = &wafer.functions[0];

    assert_eq!(function.parameters, vec![ValueType::I32, ValueType::I32]);
}

#[test]
fn should_handle_function_call() {
    let wafer = Wafer::parse("func one() { 1 } func caller() { one() + 2 }").unwrap();
    let function = &wafer.functions[1];

    assert_eq!(
        function.instructions,
        vec![
            Instruction::Call(0),
            Instruction::ConstI32(2),
            Instruction::AddI32,
            Instruction::End
        ]
    );
}

#[test]
fn should_handle_function_call_with_parameters() {
    let wafer =
        Wafer::parse("func add(x, y) { x + y } func caller() { add(3, 4 + 5) }").unwrap();
    let function = &wafer.functions[1];

    assert_eq!(
        function.instructions,
        vec![
            Instruction::ConstI32(3),
            Instruction::ConstI32(4),
            Instruction::ConstI32(5),
            Instruction::AddI32,
            Instruction::Call(0),
            Instruction::End
        ]
    );
}

#[test]
fn should_handle_if_expression() {
    let wafer = Wafer::parse("func iffy() { if 0 { 1 } else { 2 } }").unwrap();
    let function = &wafer.functions[0];

    assert_eq!(
        function.instructions,
        vec![
            Instruction::ConstI32(0),
            Instruction::If(Some(ValueType::I32)),
            Instruction::ConstI32(1),
            Instruction::Else,
            Instruction::ConstI32(2),
            Instruction::End,
            Instruction::End
        ]
    );
}

#[test]
fn should_handle_if_statement() {
    let wafer =
        Wafer::parse("func iffy() { if 0 { 1; } if 2 { 3; } else { 4; } 5 }").unwrap();
    let function = &wafer.functions[0];

    assert_eq!(
        function.instructions,
        vec![
            Instruction::ConstI32(0),
            Instruction::If(None),
            Instruction::ConstI32(1),
            Instruction::Drop,
            Instruction::End,
            Instruction::ConstI32(2),
            Instruction::If(None),
            Instruction::ConstI32(3),
            Instruction::Drop,
            Instruction::Else,
            Instruction::ConstI32(4),
            Instruction::Drop,
            Instruction::End,
            Instruction::ConstI32(5),
            Instruction::End
        ]
    );
}

#[test]
fn should_handle_while() {
    let wafer = Wafer::parse("func until() { while 0 { 1; } 2 }").unwrap();
    let function = &wafer.functions[0];

    assert_eq!(
        function.instructions,
        vec![
            Instruction::Loop(None),
            Instruction::ConstI32(0),
            Instruction::If(None),
            Instruction::ConstI32(1),
            Instruction::Drop,
            Instruction::Break(1),
            Instruction::End,
            Instruction::End,
            Instruction::ConstI32(2),
            Instruction::End,
        ]
    );
}

#[test]
fn should_handle_imports() {
    let wafer = Wafer::parse("extern func add(a, b);").unwrap();
    let import = &wafer.imports[0];

    assert_eq!(import.name, "add");
    assert_eq!(import.parameters, vec![ValueType::I32, ValueType::I32]);
}

#[test]
fn should_handle_memory_operations() {
    let wafer = Wafer::parse("func memory() { __mem[1] := 2; __mem[3] }").unwrap();
    let function = &wafer.functions[0];

    assert_eq!(
        function.instructions,
        vec![
            Instruction::ConstI32(1),
            Instruction::ConstI32(2),
            Instruction::LocalTeeI32(0),
            Instruction::StoreI32(2, 0),
            Instruction::LocalGetI32(0),
            Instruction::Drop,
            Instruction::ConstI32(3),
            Instruction::LoadI32(2, 0),
            Instruction::End
        ]
    );
}

#[test]
fn should_handle_array_operations() {
    let wafer = Wafer::parse(
        r"
            func __writeInt32Array() {
                0
            }

            func __readInt32Array() {
                0
            }

            func array() {
                let x = 0;
                x[1] := 2;
                x[3]
            }",
    )
    .unwrap();
    let function = &wafer.functions[2];

    assert_eq!(
        function.instructions,
        vec![
            Instruction::ConstI32(0),
            Instruction::LocalSetI32(0),
            Instruction::LocalGetI32(0),
            Instruction::ConstI32(1),
            Instruction::ConstI32(2),
            Instruction::Call(0),
            Instruction::Drop,
            Instruction::LocalGetI32(0),
            Instruction::ConstI32(3),
            Instruction::Call(1),
            Instruction::End
        ]
    );
}

#[test]
fn should_handle_strings() {
    let wafer = Wafer::parse(
        r#"
        func newInt32Array() {
            0
        }

        func string() {
            let a = "hello";
            let b = "world";
            0
        }
    "#,
    )
    .unwrap();
    let function = &wafer.functions[1];

    assert_eq!(
        function.instructions,
        vec![
            Instruction::ConstI32(0),
            Instruction::LocalSetI32(0),
            Instruction::ConstI32(24),
            Instruction::LocalSetI32(1),
            Instruction::ConstI32(0),
            Instruction::End
        ]
    );
}

#[test]
fn should_handle_public_functions() {
    let wafer = Wafer::parse(
        r"
            func a() { 0 }
            public func b() { 0 }
        ",
    )
    .unwrap();

    assert_eq!(wafer.functions[0].public, false);
    assert_eq!(wafer.functions[1].public, true);
}

#[test]
fn should_collect_strings() {
    let declarations =
        declarations(r#"func main() { let a = "foo"; let b = "bar"; 0 }"#);

    let strings = Strings::new(&declarations);

    assert_eq!(strings.offset("foo"), Some(0));
    assert_eq!(strings.offset("bar"), Some(16));
    assert_eq!(strings.len(), 32);

    let bytes = strings.into_bytes();

    assert_eq!(bytes[0], 3);
    assert_eq!(bytes[4], 0x66);
    assert_eq!(bytes[8], 0x6f);
    assert_eq!(bytes[12], 0x6f);

    assert_eq!(bytes[16], 3);
    assert_eq!(bytes[20], 0x62);
    assert_eq!(bytes[24], 0x61);
    assert_eq!(bytes[28], 0x72);
}

const WAFER: &str = r"
    extern func import(a, b);

    func first(a) {
        if 0 {
            let x = 1;
        }
        while 0 {
            let y = 2;
        }
        a + 42
    }

    func second() {
        let y = 3;
        0
    }

    func third() {
        123
    }

    func fourth() {
        __mem[1] := 2;
        __mem[3] := 4;
        0
    }
";

#[test]
fn should_parse_symbols() {
    let symbols = Symbols::new(&declarations(WAFER));

    assert_eq!(symbols.local("first", "a"), Some((ValueType::I32, 0)));
    assert_eq!(symbols.local("first", "x"), Some((ValueType::I32, 1)));
    assert_eq!(symbols.local("first", "y"), Some((ValueType::I32, 2)));
    assert_eq!(symbols.local("second", "y"), Some((ValueType::I32, 0)));
    assert_eq!(symbols.local("fourth", "$temp"), Some((ValueType::I32, 0)));
}

#[test]
fn should_get_locals() {
    let symbols = Symbols::new(&declarations(WAFER));

    assert_eq!(symbols.locals("first"), vec![(2, ValueType::I32)]);
    assert_eq!(symbols.locals("second"), vec![(1, ValueType::I32)]);
    assert_eq!(symbols.locals("third"), vec![]);
    assert_eq!(symbols.locals("fourth"), vec![(1, ValueType::I32)]);
}

#[test]
fn should_get_parameters() {
    let symbols = Symbols::new(&declarations(WAFER));

    assert_eq!(
        symbols.parameters("import"),
        vec![ValueType::I32, ValueType::I32]
    );
    assert_eq!(symbols.parameters("first"), vec![ValueType::I32]);
    assert_eq!(symbols.parameters("second"), vec![]);
}

#[test]
fn should_get_functions() {
    let symbols = Symbols::new(&declarations(WAFER));

    assert_eq!(symbols.function("import"), Some(0));
    assert_eq!(symbols.function("first"), Some(1));
    assert_eq!(symbols.function("second"), Some(2));
    assert_eq!(symbols.function("third"), Some(3));
    assert_eq!(symbols.function("fourth"), Some(4));
}

#[test]
fn parameters_come_before_locals() {
    let symbols = Symbols::new(&declarations("func f(x, y) { let z = 0; z }"));

    assert_eq!(symbols.local("f", "x"), Some((ValueType::I32, 0)));
    assert_eq!(symbols.local("f", "y"), Some((ValueType::I32, 1)));
    assert_eq!(symbols.local("f", "z"), Some((ValueType::I32, 2)));
    assert_eq!(symbols.local("f", "w"), None);
    assert_eq!(symbols.local("g", "x"), None);
}

#[test]
fn repeated_lets_share_one_slot() {
    let symbols = Symbols::new(&declarations("func f() { let a = 1; let a = 2; let b = 3; a }"));

    assert_eq!(symbols.local("f", "a"), Some((ValueType::I32, 0)));
    assert_eq!(symbols.local("f", "b"), Some((ValueType::I32, 1)));
    assert_eq!(symbols.locals("f"), vec![(2, ValueType::I32)]);
}

#[test]
fn imports_take_the_leading_function_indices() {
    let symbols = Symbols::new(&declarations(
        "func one() { 1 } extern func host(a); func two() { 2 }",
    ));

    assert_eq!(symbols.function("host"), Some(0));
    assert_eq!(symbols.function("one"), Some(1));
    assert_eq!(symbols.function("two"), Some(2));
    assert_eq!(symbols.function("three"), None);
}

#[test]
fn repeated_literals_are_stored_once() {
    let declarations = declarations(r#"func main() { let a = "ab"; let b = "ab"; let c = "c"; 0 }"#);
    let strings = Strings::new(&declarations);

    assert_eq!(strings.offset("ab"), Some(0));
    assert_eq!(strings.offset("c"), Some(12));
    assert_eq!(strings.offset("zz"), None);
    assert_eq!(strings.len(), 20);
}

#[test]
fn heap_base_is_the_size_of_the_string_data() {
    let wafer = Wafer::parse(r#"func main() { let s = "abc"; __heap_base }"#).unwrap();

    assert_eq!(wafer.data.len(), 16);
    assert_eq!(
        wafer.functions[0].instructions,
        vec![
            Instruction::ConstI32(0),
            Instruction::LocalSetI32(0),
            Instruction::ConstI32(16),
            Instruction::End
        ]
    );
}

#[test]
fn operators_follow_precedence() {
    let wafer = Wafer::parse("func f() { 1 + 2 * 3 == 7 and 8 / 4 - 1 < 2 }").unwrap();

    assert_eq!(
        wafer.functions[0].instructions,
        vec![
            Instruction::ConstI32(1),
            Instruction::ConstI32(2),
            Instruction::ConstI32(3),
            Instruction::MultiplyI32,
            Instruction::AddI32,
            Instruction::ConstI32(7),
            Instruction::EqualI32,
            Instruction::ConstI32(8),
            Instruction::ConstI32(4),
            Instruction::DivideSignedI32,
            Instruction::ConstI32(1),
            Instruction::SubtractI32,
            Instruction::ConstI32(2),
            Instruction::LessThanSignedI32,
            Instruction::AndI32,
            Instruction::End
        ]
    );
}

#[test]
fn trap_lowers_to_unreachable() {
    let wafer = Wafer::parse("func f() { __trap() }").unwrap();

    assert_eq!(
        wafer.functions[0].instructions,
        vec![Instruction::Unreachable, Instruction::End]
    );
}

#[test]
fn lexer_splits_tokens_and_records_spans() {
    let tokens = tokenize("let x:=y<=3; \"hi\"").unwrap();
    let kinds: Vec<TokenKind> = tokens.iter().map(|t| t.kind).collect();

    assert_eq!(
        kinds,
        vec![
            TokenKind::Let,
            TokenKind::Identifier,
            TokenKind::ColonEquals,
            TokenKind::Identifier,
            TokenKind::LessEqual,
            TokenKind::Number,
            TokenKind::Semicolon,
            TokenKind::Str
        ]
    );
    assert_eq!(tokens[5].value, 3);
    assert_eq!(tokens[7].text, "hi");
    assert_eq!((tokens[7].start, tokens[7].end), (13, 17));
}

#[test]
fn lexer_reports_each_error() {
    let e = tokenize("let a = 1 # 2").unwrap_err();
    assert_eq!((e.kind, e.position), (LexErrorKind::UnexpectedCharacter, 10));

    let e = tokenize("  \"open").unwrap_err();
    assert_eq!((e.kind, e.position), (LexErrorKind::UnterminatedString, 2));

    let e = tokenize("x 2147483648").unwrap_err();
    assert_eq!((e.kind, e.position), (LexErrorKind::NumberOutOfRange, 2));

    assert_eq!(tokenize("2147483647").unwrap()[0].value, 2147483647);
}

#[test]
fn unknown_names_are_errors() {
    assert!(matches!(Wafer::parse("func f() { y }"), Err(CompileError::Lower(_))));
    assert!(matches!(Wafer::parse("func f() { g() }"), Err(CompileError::Lower(_))));
    assert!(matches!(Wafer::parse("func f() { 1 +"), Err(CompileError::Parse(_))));
    assert!(matches!(Wafer::parse("func f() { ! }"), Err(CompileError::Lex(_))));
}

use wasm_ground_up::compile;
use wasm_ground_up::wafer::CompileError;

fn run(source: &str) -> Result<i32, wasmi::Error> {
    let wasm = compile(source).expect("couldn't compile");
    let engine = wasmi::Engine::default();
    let module = wasmi::Module::new(&engine, &wasm).expect("couldn't parse module");
    let mut store = wasmi::Store::new(&engine, 0u32);
    let mut linker = wasmi::Linker::new(&engine);
    linker
        .func_wrap("waferImports", "add", |a: i32, b: i32| a + b)
        .expect("couldn't wrap add function");
    let instance = linker
        .instantiate_and_start(&mut store, &module)
        .expect("couldn't instantiate");
    let func = instance
        .get_typed_func::<(), i32>(&store, "main")
        .expect("couldn't find function");
    func.call(&mut store, ())
}

fn run_main(body: &str) -> i32 {
    run(&format!("func main() {{ {body} }}")).expect("couldn't call function")
}

#[test]
fn output_starts_with_the_header() {
    for source in ["func main() { 1 }", "", "extern func add(a, b);"] {
        let wasm = compile(source).unwrap();
        assert_eq!(wasm[..8], [0x00, 0x61, 0x73, 0x6d, 0x01, 0x00, 0x00, 0x00]);
    }
}

#[test]
fn compiling_twice_gives_the_same_bytes() {
    let source = r#"func main() { let s = "hi"; s[1] }"#;
    assert_eq!(compile(source).unwrap(), compile(source).unwrap());
}

#[test]
fn constant() {
    assert_eq!(run_main("123"), 123);
}

#[test]
fn addition() {
    assert_eq!(run_main("123 + 456"), 579);
}

#[test]
fn subtraction() {
    assert_eq!(run_main("456 - 123"), 333);
}

#[test]
fn left_associative_chain() {
    assert_eq!(run_main("7 - 3 + 11"), 15);
}

#[test]
fn multiplication_and_division() {
    assert_eq!(run_main("12 * 3"), 36);
    assert_eq!(run_main("37 / 4"), 9);
    assert_eq!(run_main("6 / (2 * 1)"), 3);
}

#[test]
fn grouping_and_precedence() {
    assert_eq!(run_main("1 + (2 * 4) / 3"), 3);
    assert_eq!(run_main("1 + 2 * 3"), 7);
    assert_eq!(run_main("(1 + 2) * 3"), 9);
}

#[test]
fn let_bindings() {
    assert_eq!(run_main("let x = 123; let y = 456; 702"), 702);
}

#[test]
fn assignment() {
    assert_eq!(run_main("let a = 13; let b = 15; a := 10; a + b"), 25);
}

#[test]
fn comparisons_and_logic() {
    assert_eq!(run_main("(3 < 4) + (4 <= 4) + (5 > 6) + (6 >= 7) + (1 == 1) + (1 != 1)"), 3);
    assert_eq!(run_main("(1 and 0) + (1 or 0)"), 1);
}

#[test]
fn if_expression() {
    assert_eq!(run_main("if 1 < 2 { 36 } else { 12 }"), 36);
    assert_eq!(run_main("let x = 0; if x { 1; } else { x := 5; } x"), 5);
}

#[test]
fn recursive_fibonacci() {
    let source = "
        func fib(n) { if n < 2 { 1 } else { fib(n - 1) + fib(n - 2) } }
        func main() { fib(10) }
    ";
    assert_eq!(run(source).unwrap(), 89);
}

#[test]
fn loop_fibonacci() {
    assert_eq!(
        run_main(
            "let a = 1; let b = 1; let i = 1;
             while i < 10 { let t = a + b; a := b; b := t; i := i + 1; }
             b"
        ),
        89
    );
}

#[test]
fn while_loop_doubles() {
    assert_eq!(run_main("let x = 1; while x < 100 { x := x * 2; } x"), 128);
}

#[test]
fn host_import() {
    let source = "extern func add(a, b); func main() { add(123, 456) }";
    assert_eq!(run(source).unwrap(), 579);
}

#[test]
fn raw_memory() {
    assert_eq!(run_main("__mem[0] := 64; __mem[0]"), 64);
    assert_eq!(run_main("__mem[8] := 7"), 7);
}

#[test]
fn arrays_through_the_prelude() {
    assert_eq!(
        run_main("let a = __heap_base + 4; __mem[a] := 3; a[1] := 64; a[1]"),
        64
    );
}

#[test]
fn array_index_out_of_range_traps() {
    assert!(run("func main() { let a = __heap_base + 4; __mem[a] := 3; a[3] }").is_err());
}

#[test]
fn string_literals_live_in_memory() {
    assert_eq!(run_main(r#"let s = "hi"; s[1]"#), 105);
    assert_eq!(run_main(r#"let s = "hi"; __mem[s]"#), 2);
}

#[test]
fn heap_pointer_follows_the_strings() {
    assert_eq!(run_main("__mem[__heap_base]"), 4);
    assert_eq!(run_main(r#"let s = "abc"; __mem[__heap_base] - __heap_base"#), 4);
}

#[test]
fn should_panic_on_out_of_bounds() {
    let result = run("func main() { __mem[65536] }");
    assert!(result.is_err());
}

#[test]
fn trap_traps() {
    assert!(run("func main() { __trap() }").is_err());
}

#[test]
fn compile_reports_errors() {
    assert!(matches!(compile("func main() { nope }"), Err(CompileError::Lower(_))));
    assert!(matches!(compile("func main() {"), Err(CompileError::Parse(_))));
}

use audion::error::AudionError;
use audion::ast::{BinOp, UnaryOp};
use audion::interpreter::ControlFlow;
use audion::lexer::Lexer;
use audion::parser::Parser;

#[test]
fn parser_starts_on_the_lexed_tokens() {
    let toks = Lexer::new("let x = 1;").tokenize().unwrap();
    let _p = Parser::new(toks);
}

#[test]
fn operators_and_control_flow_values() {
    let ops = vec![BinOp::Add, BinOp::LeftShift, BinOp::Or];
    assert_eq!(format!("{:?}", ops), "[Add, LeftShift, Or]");
    assert_eq!(format!("{:?}", UnaryOp::BitNot.clone()), "BitNot");
    let flow: ControlFlow<i32> = ControlFlow::Return(3);
    assert!(matches!(flow, ControlFlow::Return(3)));
    let tail: ControlFlow<i32> = ControlFlow::TailCall { callee: 1, positional: vec![2], named: vec![] };
    assert!(matches!(tail, ControlFlow::TailCall { callee: 1, .. }));
}

fn parse_src(src: &str) -> Result<Vec<audion::ast::Stmt>, AudionError> {
    let toks = Lexer::new(src).tokenize().unwrap();
    Parser::new(toks).parse()
}

fn parsed(src: &str) -> String {
    format!("{:?}", parse_src(src).unwrap())
}

fn parse_error(src: &str) -> (String, usize) {
    match parse_src(src) {
        Err(AudionError::ParseError { msg, line }) => (msg, line),
        other => panic!("expected a parse error, got {:?}", other),
    }
}

#[test]
fn parse_let_with_precedence() {
    assert_eq!(
        parsed("let x = 1 + 2 * 3;"),
        "[Let { name: \"x\", init: Some(BinOp { left: Number(\"1\"), op: Add, right: BinOp { left: Number(\"2\"), op: Mul, right: Number(\"3\") } }), line: 1 }]"
    );
}

#[test]
fn parse_compound_assignment() {
    assert_eq!(parsed("x += 2;"), "[ExprStmt(CompoundAssign { name: \"x\", op: Add, value: Number(\"2\") }, 1)]");
    assert_eq!(
        parsed("x -= y * 2;"),
        "[ExprStmt(CompoundAssign { name: \"x\", op: Sub, value: BinOp { left: Ident(\"y\"), op: Mul, right: Number(\"2\") } }, 1)]"
    );
}

#[test]
fn parse_calls_with_named_arguments() {
    assert_eq!(
        parsed("f(1, k: 2);"),
        "[ExprStmt(Call { callee: Ident(\"f\"), args: [Positional(Number(\"1\")), Named { name: \"k\", value: Number(\"2\") }] }, 1)]"
    );
}

#[test]
fn parse_index_and_member_assignment() {
    assert_eq!(
        parsed("a[1] = b.c;"),
        "[ExprStmt(IndexAssign { object: Ident(\"a\"), index: Number(\"1\"), value: MemberAccess { object: Ident(\"b\"), field: \"c\" } }, 1)]"
    );
}

#[test]
fn parse_if_else_chain() {
    assert_eq!(
        parsed("if (x) { y; } else if (z) w; else { }"),
        "[If { cond: Ident(\"x\"), then: Block([ExprStmt(Ident(\"y\"), 1)]), else_: Some(If { cond: Ident(\"z\"), then: ExprStmt(Ident(\"w\"), 1), else_: Some(Block([])) }) }]"
    );
}

#[test]
fn parse_for_loop_with_increment() {
    assert_eq!(
        parsed("for (let i = 0; i < 3; i += 1) { break; }"),
        "[For { init: Some(Let { name: \"i\", init: Some(Number(\"0\")), line: 1 }), cond: Some(BinOp { left: Ident(\"i\"), op: Lt, right: Number(\"3\") }), incr: Some(CompoundAssign { name: \"i\", op: Add, value: Number(\"1\") }), body: Block([Break]) }]"
    );
}

#[test]
fn parse_function_declaration_with_default() {
    assert_eq!(
        parsed("fn add(a, b = 2) { return a + b; }"),
        "[FnDecl { name: \"add\", params: [Param { name: \"a\", default: None }, Param { name: \"b\", default: Some(Number(\"2\")) }], body: Block([Return(Some(BinOp { left: Ident(\"a\"), op: Add, right: Ident(\"b\") }))]) }]"
    );
}

#[test]
fn parse_array_literal_with_keys_and_trailing_comma() {
    assert_eq!(
        parsed("[1, k => 2,];"),
        "[ExprStmt(ArrayLit { elements: [(None, Number(\"1\")), (Some(Ident(\"k\")), Number(\"2\"))] }, 1)]"
    );
}

#[test]
fn parse_define_body() {
    assert_eq!(
        parsed("define pad(freq, amp) { let s = osc(freq: freq, loop: 1) * amp; out(0, s); out(1, s[0]); }"),
        "[SynthDef { name: \"pad\", params: [\"freq\", \"amp\"], body: Block { lets: [(\"s\", BinOp { left: UGenCall { name: \"osc\", args: [], named_args: [(\"freq\", Param(\"freq\")), (\"loop\", Number(\"1\"))] }, op: Mul, right: Param(\"amp\") })], results: [UGenCall { name: \"out\", args: [Number(\"0\"), Param(\"s\")], named_args: [] }, UGenCall { name: \"out\", args: [Number(\"1\"), Index { object: Param(\"s\"), index: Number(\"0\") }], named_args: [] }] } }]"
    );
    assert_eq!(
        parsed("define one() { out(0); }"),
        "[SynthDef { name: \"one\", params: [], body: UGenCall { name: \"out\", args: [Number(\"0\")], named_args: [] } }]"
    );
}

#[test]
fn parse_include_and_using() {
    assert_eq!(
        parsed("include \"lib.au\" as m::n; using a::b;"),
        "[Include { path: \"lib.au\", alias: Some([\"m\", \"n\"]) }, Using { path: [\"a\", \"b\"] }]"
    );
}

#[test]
fn parse_statement_lines() {
    assert_eq!(
        parsed("let a = 1;\nlet b = 2;"),
        "[Let { name: \"a\", init: Some(Number(\"1\")), line: 1 }, Let { name: \"b\", init: Some(Number(\"2\")), line: 2 }]"
    );
}

#[test]
fn parse_errors_name_the_token_and_line() {
    assert_eq!(parse_error("let = 3;"), ("expected identifier, got Eq".to_string(), 1));
    assert_eq!(parse_error("let x y;"), ("expected Semicolon, got Ident(\"y\")".to_string(), 1));
    assert_eq!(parse_error("1 = 2;"), ("invalid assignment target".to_string(), 1));
    assert_eq!(parse_error("5++;"), ("unexpected token Plus".to_string(), 1));
    assert_eq!(parse_error("2 ** 3;"), ("unexpected token Star".to_string(), 1));
    assert_eq!(parse_error("x;\n)"), ("unexpected token RParen".to_string(), 2));
    assert_eq!(parse_error("foo(1;"), ("expected RParen, got Semicolon".to_string(), 1));
    assert_eq!(parse_error("include x;"), ("expected string path after 'include'".to_string(), 1));
    assert_eq!(parse_error("define d() { 1 + ; }"), ("unexpected token Semicolon in define body".to_string(), 1));
}

#[test]
fn parse_empty_program() {
    assert_eq!(parsed(""), "[]");
}

use ir::codegen::{generate_code, generate_code_ast, generate_end, generate_header, Asm};
use ir::compiler::{compile, tokenize};
use ir::lexer::Opcode;
use ir::lowering::IRExpr;
use ir::parser::ParseError;

fn chars(source: &str) -> Vec<char> {
    source.chars().collect()
}

#[test]
fn tokenize_keeps_operators_only() {
    let tokens = tokenize(&chars("a+ b-\n[x]"));
    assert_eq!(
        tokens,
        vec![
            Opcode::Plus,
            Opcode::Minus,
            Opcode::OpenBracket,
            Opcode::CloseBracket
        ]
    );
    assert!(tokenize(&chars("")).is_empty());
}

#[test]
fn header_and_end() {
    let mut out = vec![Asm::Load];
    generate_header(&mut out, false);
    assert_eq!(out, vec![Asm::Load, Asm::Header, Asm::Entry]);
    let mut out = Vec::new();
    generate_header(&mut out, true);
    assert_eq!(out, vec![Asm::Header, Asm::DumpRoutine, Asm::Entry]);
    let mut out = Vec::new();
    generate_end(&mut out, false);
    assert_eq!(out, vec![Asm::Store, Asm::Exit]);
    let mut out = Vec::new();
    generate_end(&mut out, true);
    assert_eq!(out, vec![Asm::Store, Asm::CallDump, Asm::Exit]);
}

#[test]
fn code_for_each_instruction() {
    let ir = vec![
        IRExpr::Assign(7),
        IRExpr::Update(3),
        IRExpr::Update(-4),
        IRExpr::Step(2),
        IRExpr::Step(-5),
        IRExpr::Input,
        IRExpr::Output,
        IRExpr::ConditionalStart(9),
        IRExpr::ConditionalEnd(9),
    ];
    let mut out = Vec::new();
    generate_code_ast(&ir, &mut out);
    assert_eq!(
        out,
        vec![
            Asm::SetCell(7),
            Asm::AddCell(3),
            Asm::SubCell(4),
            Asm::Store,
            Asm::AddPtr(2),
            Asm::Load,
            Asm::Store,
            Asm::SubPtr(5),
            Asm::Load,
            Asm::ReadByte,
            Asm::WriteByte,
            Asm::LoopHead(9),
            Asm::LoopTail(9),
        ]
    );
}

#[test]
fn code_for_extreme_amounts() {
    let mut out = Vec::new();
    generate_code_ast(
        &vec![
            IRExpr::Update(i32::MIN),
            IRExpr::Step(i32::MIN),
            IRExpr::Update(0),
        ],
        &mut out,
    );
    assert_eq!(
        out,
        vec![
            Asm::SubCell(2147483648),
            Asm::Store,
            Asm::SubPtr(2147483648),
            Asm::Load,
            Asm::AddCell(0),
        ]
    );
}

#[test]
fn whole_output_stores_before_exit() {
    let code = generate_code(vec![IRExpr::Update(1), IRExpr::Step(1)], false);
    assert_eq!(
        code,
        vec![
            Asm::Header,
            Asm::Entry,
            Asm::AddCell(1),
            Asm::Store,
            Asm::AddPtr(1),
            Asm::Load,
            Asm::Store,
            Asm::Exit,
        ]
    );
}

#[test]
fn compile_optimizes() {
    let code = compile(&chars("+[-]++"), false);
    assert_eq!(
        code,
        Ok(vec![
            Asm::Header,
            Asm::Entry,
            Asm::SetCell(2),
            Asm::Store,
            Asm::Exit
        ])
    );
}

#[test]
fn compile_keeps_io_in_order() {
    let code = compile(&chars(",>,<.>."), true);
    assert_eq!(
        code,
        Ok(vec![
            Asm::Header,
            Asm::DumpRoutine,
            Asm::Entry,
            Asm::ReadByte,
            Asm::Store,
            Asm::AddPtr(1),
            Asm::Load,
            Asm::ReadByte,
            Asm::Store,
            Asm::SubPtr(1),
            Asm::Load,
            Asm::WriteByte,
            Asm::Store,
            Asm::AddPtr(1),
            Asm::Load,
            Asm::WriteByte,
            Asm::Store,
            Asm::CallDump,
            Asm::Exit,
        ])
    );
}

#[test]
fn compile_refuses_bad_brackets() {
    assert_eq!(
        compile(&chars("[+"), false),
        Err(ParseError::UnmatchedOpenBracket)
    );
    assert_eq!(
        compile(&chars("+]"), false),
        Err(ParseError::TrailingCloseBracket)
    );
}

use ir::codegen::Asm;
use ir::lexer::parse;
use ir::llvm::{codegen, codegen_ast, codegen_end, codegen_header, LlvmOp};
use ir::naive::{generate_code, generate_code_ast};
use ir::parser::{generate_ast, Ast, ParseError};
use std::collections::VecDeque;

fn tree(source: &str) -> Ast {
    let mut queue: VecDeque<_> = source.chars().filter_map(parse).collect();
    generate_ast(&mut queue).unwrap()
}

fn chars(source: &str) -> Vec<char> {
    source.chars().collect()
}

#[test]
fn naive_code_for_each_node() {
    let mut out = Vec::new();
    let mut counter = 3;
    generate_code_ast(&tree("+-><,.[+[-]][]"), &mut out, &mut counter);
    assert_eq!(
        out,
        vec![
            Asm::IncCell,
            Asm::DecCell,
            Asm::Store,
            Asm::IncPtr,
            Asm::Load,
            Asm::Store,
            Asm::DecPtr,
            Asm::Load,
            Asm::ReadByte,
            Asm::WriteByte,
            Asm::LoopHead(3),
            Asm::IncCell,
            Asm::LoopHead(4),
            Asm::DecCell,
            Asm::LoopTail(4),
            Asm::LoopTail(3),
            Asm::LoopHead(5),
            Asm::LoopTail(5),
        ]
    );
    assert_eq!(counter, 6);
}

#[test]
fn naive_whole_output() {
    assert_eq!(
        generate_code(&tree("+"), false),
        vec![
            Asm::Header,
            Asm::Entry,
            Asm::IncCell,
            Asm::Store,
            Asm::Exit
        ]
    );
    assert_eq!(
        generate_code(&tree(""), true),
        vec![
            Asm::Header,
            Asm::DumpRoutine,
            Asm::Entry,
            Asm::Store,
            Asm::CallDump,
            Asm::Exit
        ]
    );
}

#[test]
fn naive_compile() {
    assert_eq!(
        ir::naive::compile(&chars("+ +"), false),
        Ok(vec![
            Asm::Header,
            Asm::Entry,
            Asm::IncCell,
            Asm::IncCell,
            Asm::Store,
            Asm::Exit
        ])
    );
    assert_eq!(
        ir::naive::compile(&chars("]"), false),
        Err(ParseError::TrailingCloseBracket)
    );
    assert_eq!(
        ir::naive::compile(&chars("["), false),
        Err(ParseError::UnmatchedOpenBracket)
    );
}

#[test]
fn llvm_numbers_registers_and_labels() {
    assert_eq!(
        codegen(&tree("+>[-,[.]]<")),
        vec![
            LlvmOp::Header,
            LlvmOp::Increment(2),
            LlvmOp::Right(5),
            LlvmOp::LoopHead(0, 7),
            LlvmOp::Decrement(10),
            LlvmOp::Read(13),
            LlvmOp::LoopHead(1, 16),
            LlvmOp::Write(19),
            LlvmOp::LoopTail(1),
            LlvmOp::LoopTail(0),
            LlvmOp::Left(23),
            LlvmOp::End(25),
        ]
    );
}

#[test]
fn llvm_header_and_end_take_two_registers() {
    let mut counter = 0;
    let mut out = Vec::new();
    codegen_header(&mut counter, &mut out);
    assert_eq!(counter, 2);
    codegen_end(&mut counter, &mut out);
    assert_eq!(counter, 4);
    assert_eq!(out, vec![LlvmOp::Header, LlvmOp::End(2)]);
}

#[test]
fn llvm_block_continues_from_the_counters() {
    let mut counter = 10;
    let mut label = 5;
    let mut out = Vec::new();
    codegen_ast(&tree("[.]"), &mut counter, &mut label, &mut out);
    assert_eq!(
        out,
        vec![
            LlvmOp::LoopHead(5, 10),
            LlvmOp::Write(13),
            LlvmOp::LoopTail(5)
        ]
    );
    assert_eq!(counter, 17);
    assert_eq!(label, 6);
}

#[test]
fn llvm_compile() {
    assert_eq!(
        ir::llvm::compile(&chars("x,y")),
        Ok(vec![LlvmOp::Header, LlvmOp::Read(2), LlvmOp::End(5)])
    );
    assert_eq!(
        ir::llvm::compile(&chars("[[]")),
        Err(ParseError::UnmatchedOpenBracket)
    );
    assert_eq!(
        ir::llvm::compile(&chars("[]]")),
        Err(ParseError::TrailingCloseBracket)
    );
}

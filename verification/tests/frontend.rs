use ir::lexer::{parse, Opcode};
use ir::lowering::{convert, IRExpr};
use ir::parser::{generate_ast, generate_ast_vec, Ast, Expression, ParseError};
use std::collections::VecDeque;

fn tokens(source: &str) -> VecDeque<Opcode> {
    source.chars().filter_map(parse).collect()
}

#[test]
fn lexer_maps_the_eight_operators() {
    assert_eq!(parse('+'), Some(Opcode::Plus));
    assert_eq!(parse('-'), Some(Opcode::Minus));
    assert_eq!(parse('>'), Some(Opcode::Rigth));
    assert_eq!(parse('<'), Some(Opcode::Left));
    assert_eq!(parse(','), Some(Opcode::Comma));
    assert_eq!(parse('.'), Some(Opcode::Dot));
    assert_eq!(parse('['), Some(Opcode::OpenBracket));
    assert_eq!(parse(']'), Some(Opcode::CloseBracket));
}

#[test]
fn lexer_drops_everything_else() {
    assert_eq!(parse(' '), None);
    assert_eq!(parse('\n'), None);
    assert_eq!(parse('a'), None);
    assert_eq!(parse('0'), None);
    assert_eq!(parse('('), None);
}

#[test]
fn parser_builds_nested_loops() {
    let mut queue = tokens("+[->[.],]<");
    let ast = generate_ast(&mut queue);
    assert_eq!(
        ast,
        Ok(Ast(vec![
            Expression::Plus,
            Expression::Conditional(Ast(vec![
                Expression::Minus,
                Expression::Rigth,
                Expression::Conditional(Ast(vec![Expression::Dot])),
                Expression::Comma,
            ])),
            Expression::Left,
        ]))
    );
    assert!(queue.is_empty());
}

#[test]
fn parser_accepts_empty_input() {
    let mut queue = tokens("no operators here");
    assert_eq!(generate_ast(&mut queue), Ok(Ast(vec![])));
}

#[test]
fn parser_unmatched_open_bracket() {
    let mut queue = tokens("[+");
    assert_eq!(
        generate_ast(&mut queue),
        Err(ParseError::UnmatchedOpenBracket)
    );
    let mut queue = tokens("[[+]");
    assert_eq!(
        generate_ast(&mut queue),
        Err(ParseError::UnmatchedOpenBracket)
    );
}

#[test]
fn parser_trailing_close_bracket() {
    let mut queue = tokens("+]");
    assert_eq!(
        generate_ast(&mut queue),
        Err(ParseError::TrailingCloseBracket)
    );
    assert_eq!(queue, tokens("]"));
    let mut queue = tokens("[+]]-[");
    assert_eq!(
        generate_ast(&mut queue),
        Err(ParseError::TrailingCloseBracket)
    );
    assert_eq!(queue, tokens("]-["));
}

#[test]
fn block_parser_leaves_the_closing_bracket() {
    let mut queue = tokens("+-]>");
    let block = generate_ast_vec(&mut queue);
    assert_eq!(block, Ok(Ast(vec![Expression::Plus, Expression::Minus])));
    assert_eq!(queue, tokens("]>"));
}

#[test]
fn parse_error_messages() {
    assert_eq!(
        ParseError::UnmatchedOpenBracket.message(),
        "missing closing bracket"
    );
    assert_eq!(
        ParseError::TrailingCloseBracket.message(),
        "Extra character in input"
    );
}

#[test]
fn lowering_maps_leaves() {
    let mut counter = 0;
    let ast = generate_ast(&mut tokens("+-><,.")).unwrap();
    assert_eq!(
        convert(ast, &mut counter),
        vec![
            IRExpr::Update(1),
            IRExpr::Update(-1),
            IRExpr::Step(1),
            IRExpr::Step(-1),
            IRExpr::Input,
            IRExpr::Output,
        ]
    );
    assert_eq!(counter, 0);
}

#[test]
fn lowering_numbers_loops_in_entry_order() {
    let mut counter = 0;
    let ast = generate_ast(&mut tokens("[[+]-[.]]>[,]")).unwrap();
    assert_eq!(
        convert(ast, &mut counter),
        vec![
            IRExpr::ConditionalStart(0),
            IRExpr::ConditionalStart(1),
            IRExpr::Update(1),
            IRExpr::ConditionalEnd(1),
            IRExpr::Update(-1),
            IRExpr::ConditionalStart(2),
            IRExpr::Output,
            IRExpr::ConditionalEnd(2),
            IRExpr::ConditionalEnd(0),
            IRExpr::Step(1),
            IRExpr::ConditionalStart(3),
            IRExpr::Input,
            IRExpr::ConditionalEnd(3),
        ]
    );
    assert_eq!(counter, 4);
}

#[test]
fn lowering_continues_from_the_counter() {
    let mut counter = 7;
    let ast = generate_ast(&mut tokens("[]")).unwrap();
    assert_eq!(
        convert(ast, &mut counter),
        vec![IRExpr::ConditionalStart(7), IRExpr::ConditionalEnd(7)]
    );
    assert_eq!(counter, 8);
}

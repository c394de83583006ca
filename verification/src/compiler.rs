//! The whole way from source text to target operations.

use crate::codegen::{code_asm, generate_code, Asm};
use crate::lexer::{opcode_of, parse, Opcode};
use crate::lowering::{convert, loops_in_block, loops_in_expr, lower_block};
use crate::optimizer::{optimize, optimized};
use crate::parser::{
    block_tokens, closes_early, depth, expr_tokens, generate_ast, well_nested, Ast, Expression,
    ParseError,
};
use std::collections::VecDeque;
use vstd::prelude::*;

verus! {

/// The opcodes of a source text: those of its characters that stand for
/// one, in order.
pub open spec fn source_tokens(source: Seq<char>) -> Seq<Opcode>
    decreases source.len(),
{
    if source.len() == 0 {
        Seq::empty()
    } else {
        match opcode_of(source.last()) {
            Some(o) => source_tokens(source.drop_last()).push(o),
            None => source_tokens(source.drop_last()),
        }
    }
}

/// A text has no more opcodes than characters.
pub proof fn lemma_source_tokens_len(source: Seq<char>)
    ensures
        source_tokens(source).len() <= source.len(),
    decreases source.len(),
{
    if source.len() > 0 {
        lemma_source_tokens_len(source.drop_last());
    }
}

/// A block holds no more loops than tokens.
pub proof fn lemma_loops_in_block_bounded(b: Seq<Expression>)
    ensures
        loops_in_block(b) <= block_tokens(b).len(),
    decreases b,
{
    if b.len() > 0 {
        lemma_loops_in_block_bounded(b.drop_last());
        lemma_loops_in_expr_bounded(b.last());
    }
}

/// A node holds no more loops than tokens.
pub proof fn lemma_loops_in_expr_bounded(e: Expression)
    ensures
        loops_in_expr(e) <= expr_tokens(e).len(),
    decreases e,
{
    match e {
        Expression::Conditional(inner) => {
            lemma_loops_in_block_bounded(inner.0@);
        },
        _ => {},
    }
}

/// Reads the opcodes off a source text, dropping every other character.
pub fn tokenize(source: &Vec<char>) -> (tokens: VecDeque<Opcode>)
    ensures
        tokens@ == source_tokens(source@),
{
    let mut tokens: VecDeque<Opcode> = VecDeque::new();
    let mut i: usize = 0;
    assert(source@.take(0) =~= Seq::<char>::empty());
    while i < source.len()
        invariant
            i <= source.len(),
            tokens@ == source_tokens(source@.take(i as int)),
        decreases source.len() - i,
    {
        proof {
            assert(source@.take(i + 1).drop_last() =~= source@.take(i as int));
            assert(source@.take(i + 1).last() == source@[i as int]);
        }
        match parse(source[i]) {
            Some(opcode) => {
                tokens.push_back(opcode);
            },
            None => {},
        }
        i += 1;
    }
    assert(source@.take(i as int) =~= source@);
    tokens
}

/// Compiles a source text: its opcodes are parsed, the tree is lowered
/// with loop ids from zero, the program is optimized and the target's
/// operations are generated for it. A text whose brackets do not match is
/// refused with the parser's error.
pub fn compile(input: &Vec<char>, debug: bool) -> (r: Result<Vec<Asm>, ParseError>)
    requires
        input@.len() <= u32::MAX,
    ensures
        match r {
            Ok(code) => {
                &&& well_nested(source_tokens(input@))
                &&& exists|ast: Ast|
                    #[trigger] block_tokens(ast.0@) == source_tokens(input@) && code@ == code_asm(
                        optimized(lower_block(ast.0@, 0)),
                        debug,
                    )
            },
            Err(ParseError::TrailingCloseBracket) => closes_early(source_tokens(input@)),
            Err(ParseError::UnmatchedOpenBracket) => !closes_early(source_tokens(input@)) && depth(
                source_tokens(input@),
            ) > 0,
        },
{
    let mut opcodes = tokenize(input);
    match generate_ast(&mut opcodes) {
        Err(e) => Err(e),
        Ok(ast) => {
            proof {
                lemma_source_tokens_len(input@);
                lemma_loops_in_block_bounded(ast.0@);
            }
            let ghost tree = ast;
            let mut call_stack: u32 = 0;
            let ir = convert(ast, &mut call_stack);
            let ir = optimize(ir);
            let code = generate_code(ir, debug);
            assert(block_tokens(tree.0@) == source_tokens(input@));
            Ok(code)
        },
    }
}

} // verus!

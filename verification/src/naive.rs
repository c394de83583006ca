//! The unoptimized backend: target operations straight from the syntax
//! tree, one fixed sequence per node, loops numbered as they open.

use crate::codegen::{
    end_asm, generate_end, generate_header, header_asm, lemma_flushed_concat, moves_flushed, Asm,
};
use crate::compiler::{
    lemma_loops_in_block_bounded, lemma_source_tokens_len, source_tokens, tokenize,
};
use crate::lowering::{lemma_loops_prefix, loops_in_block, loops_in_expr};
use crate::parser::{
    block_tokens, closes_early, depth, generate_ast, well_nested, Ast, Expression, ParseError,
};
use vstd::prelude::*;

verus! {

/// The operations for one node, where `next` is the first free loop id.
pub open spec fn node_asm(e: Expression, next: nat) -> Seq<Asm>
    decreases e,
{
    match e {
        Expression::Plus => seq![Asm::IncCell],
        Expression::Minus => seq![Asm::DecCell],
        Expression::Rigth => seq![Asm::Store, Asm::IncPtr, Asm::Load],
        Expression::Left => seq![Asm::Store, Asm::DecPtr, Asm::Load],
        Expression::Comma => seq![Asm::ReadByte],
        Expression::Dot => seq![Asm::WriteByte],
        Expression::Conditional(inner) => seq![Asm::LoopHead(next as u32)] + block_asm(
            inner.0@,
            next + 1,
        ) + seq![Asm::LoopTail(next as u32)],
    }
}

/// The operations for a block: those of its nodes in order, each node
/// numbering its loops after the loops of the nodes before it.
pub open spec fn block_asm(b: Seq<Expression>, next: nat) -> Seq<Asm>
    decreases b,
{
    if b.len() == 0 {
        Seq::empty()
    } else {
        block_asm(b.drop_last(), next) + node_asm(b.last(), next + loops_in_block(b.drop_last()))
    }
}

/// The whole output for a tree.
pub open spec fn tree_asm(b: Seq<Expression>, debug: bool) -> Seq<Asm> {
    header_asm(debug) + block_asm(b, 0) + end_asm(debug)
}

/// In the operations for a node the cell register is stored before every
/// move of the pointer and loaded after it.
pub proof fn lemma_node_flushes(e: Expression, next: nat)
    ensures
        moves_flushed(node_asm(e, next)),
    decreases e,
{
    match e {
        Expression::Conditional(inner) => {
            lemma_block_flushes(inner.0@, next + 1);
            lemma_flushed_concat(seq![Asm::LoopHead(next as u32)], block_asm(inner.0@, next + 1));
            lemma_flushed_concat(
                seq![Asm::LoopHead(next as u32)] + block_asm(inner.0@, next + 1),
                seq![Asm::LoopTail(next as u32)],
            );
        },
        _ => {},
    }
}

/// In the operations for a block the cell register is stored before every
/// move of the pointer and loaded after it.
pub proof fn lemma_block_flushes(b: Seq<Expression>, next: nat)
    ensures
        moves_flushed(block_asm(b, next)),
    decreases b,
{
    if b.len() > 0 {
        lemma_block_flushes(b.drop_last(), next);
        lemma_node_flushes(b.last(), next + loops_in_block(b.drop_last()));
        lemma_flushed_concat(
            block_asm(b.drop_last(), next),
            node_asm(b.last(), next + loops_in_block(b.drop_last())),
        );
    }
}

/// In the whole output the cell register is stored before every move of
/// the pointer and loaded after it, and stored before the exit.
pub proof fn lemma_tree_flushes(b: Seq<Expression>, debug: bool)
    ensures
        moves_flushed(tree_asm(b, debug)),
        end_asm(debug)[0] == Asm::Store,
{
    lemma_block_flushes(b, 0);
    lemma_flushed_concat(header_asm(debug), block_asm(b, 0));
    lemma_flushed_concat(header_asm(debug) + block_asm(b, 0), end_asm(debug));
}

/// Appends the operations for a block, numbering loops from `*call_stack`
/// on, and leaves the counter at the first id that was not used.
pub fn generate_code_ast(ast: &Ast, f: &mut Vec<Asm>, call_stack: &mut u32)
    requires
        *old(call_stack) + loops_in_block(ast.0@) <= u32::MAX,
    ensures
        final(f)@ == old(f)@ + block_asm(ast.0@, *old(call_stack) as nat),
        *final(call_stack) == *old(call_stack) + loops_in_block(ast.0@),
    decreases ast,
{
    let ghost first = *call_stack as nat;
    let ghost block = ast.0@;
    let mut i: usize = 0;
    assert(f@ =~= old(f)@ + block_asm(block.take(0), first));
    while i < ast.0.len()
        invariant
            i <= ast.0.len(),
            block == ast.0@,
            first + loops_in_block(block) <= u32::MAX,
            f@ == old(f)@ + block_asm(block.take(i as int), first),
            *call_stack == first + loops_in_block(block.take(i as int)),
        decreases ast.0.len() - i,
    {
        proof {
            assert(block.take(i + 1).drop_last() =~= block.take(i as int));
            assert(block.take(i + 1).last() == block[i as int]);
            lemma_loops_prefix(block, i + 1);
            assert(loops_in_block(block.take(i + 1)) == loops_in_block(block.take(i as int))
                + loops_in_expr(block[i as int]));
            assert(block_asm(block.take(i + 1), first) == block_asm(block.take(i as int), first)
                + node_asm(block[i as int], first + loops_in_block(block.take(i as int))));
        }
        let ghost before = f@;
        match &ast.0[i] {
            Expression::Plus => {
                f.push(Asm::IncCell);
            },
            Expression::Minus => {
                f.push(Asm::DecCell);
            },
            Expression::Rigth => {
                f.push(Asm::Store);
                f.push(Asm::IncPtr);
                f.push(Asm::Load);
            },
            Expression::Left => {
                f.push(Asm::Store);
                f.push(Asm::DecPtr);
                f.push(Asm::Load);
            },
            Expression::Comma => {
                f.push(Asm::ReadByte);
            },
            Expression::Dot => {
                f.push(Asm::WriteByte);
            },
            Expression::Conditional(inner) => {
                let current = *call_stack;
                *call_stack = current + 1;
                f.push(Asm::LoopHead(current));
                generate_code_ast(inner, f, call_stack);
                f.push(Asm::LoopTail(current));
            },
        }
        assert(f@ =~= before + node_asm(
            block[i as int],
            first + loops_in_block(block.take(i as int)),
        ));
        i += 1;
    }
    assert(block.take(i as int) =~= block);
}

/// Generates the target's operations for a tree: the header, the nodes,
/// and the end, with loops numbered from zero.
pub fn generate_code(ast: &Ast, debug: bool) -> (f: Vec<Asm>)
    requires
        loops_in_block(ast.0@) <= u32::MAX,
    ensures
        f@ == tree_asm(ast.0@, debug),
{
    let mut call_stack: u32 = 0;
    let mut f: Vec<Asm> = Vec::new();
    generate_header(&mut f, debug);
    generate_code_ast(ast, &mut f, &mut call_stack);
    generate_end(&mut f, debug);
    f
}

/// Compiles a source text without optimizing: its opcodes are parsed and
/// the target's operations are generated straight from the tree. A text
/// whose brackets do not match is refused with the parser's error.
pub fn compile(input: &Vec<char>, debug: bool) -> (r: Result<Vec<Asm>, ParseError>)
    requires
        input@.len() <= u32::MAX,
    ensures
        match r {
            Ok(code) => {
                &&& well_nested(source_tokens(input@))
                &&& exists|ast: Ast|
                    #[trigger] block_tokens(ast.0@) == source_tokens(input@) && code@ == tree_asm(
                        ast.0@,
                        debug,
                    )
            },
            Err(ParseError::TrailingCloseBracket) => closes_early(source_tokens(input@)),
            Err(ParseError::UnmatchedOpenBracket) => !closes_early(source_tokens(input@)) && depth(
                source_tokens(input@),
            ) > 0,
        },
{
    let mut opcodes = tokenize(input);
    match generate_ast(&mut opcodes) {
        Err(e) => Err(e),
        Ok(ast) => {
            proof {
                lemma_source_tokens_len(input@);
                lemma_loops_in_block_bounded(ast.0@);
            }
            let code = generate_code(&ast, debug);
            assert(block_tokens(ast.0@) == source_tokens(input@));
            Ok(code)
        },
    }
}

} // verus!

//! The backend for LLVM: the operations of a textual LLVM module straight
//! from the syntax tree, with virtual registers and loop labels numbered
//! as they are used.

use crate::compiler::{
    lemma_loops_in_block_bounded, lemma_source_tokens_len, source_tokens, tokenize,
};
use crate::lowering::{lemma_loops_prefix, loops_in_block, loops_in_expr};
use crate::parser::{
    block_tokens, closes_early, depth, expr_tokens, generate_ast, well_nested, Ast, Expression,
    ParseError,
};
use vstd::prelude::*;

verus! {

/// One operation of the module. Where an operation uses virtual registers
/// it carries the number of the first; the others follow it.
#[derive(Debug, Clone, Copy, PartialEq, Eq, Structural)]
pub enum LlvmOp {
    /// Declarations and the start of `main`, which allocates the tape.
    /// Takes the registers below 2.
    Header,
    /// Add one to the current cell. Three registers.
    Increment(usize),
    /// Subtract one from the current cell. Three registers.
    Decrement(usize),
    /// Move the pointer up by one. Two registers.
    Right(usize),
    /// Move the pointer down by one. Two registers.
    Left(usize),
    /// Read one byte into the current cell. Three registers.
    Read(usize),
    /// Write the current cell out. Four registers.
    Write(usize),
    /// The head of the loop with the given label: the test of the current
    /// cell and the branch into the body or behind the tail. Three
    /// registers.
    LoopHead(usize, usize),
    /// The tail of the loop with the given label: the branch back to the
    /// head, and the label behind.
    LoopTail(usize),
    /// A last load, the return, and the declarations that follow `main`.
    /// Two registers.
    End(usize),
}

/// The number of registers that the operations for a node use.
pub open spec fn registers_in_expr(e: Expression) -> nat
    decreases e,
{
    match e {
        Expression::Plus => 3,
        Expression::Minus => 3,
        Expression::Rigth => 2,
        Expression::Left => 2,
        Expression::Comma => 3,
        Expression::Dot => 4,
        Expression::Conditional(inner) => 3 + registers_in_block(inner.0@),
    }
}

/// The number of registers that the operations for a block use.
pub open spec fn registers_in_block(b: Seq<Expression>) -> nat
    decreases b,
{
    if b.len() == 0 {
        0
    } else {
        registers_in_block(b.drop_last()) + registers_in_expr(b.last())
    }
}

/// The operations for a node, where `register` is the first free register
/// and `label` the first free loop label.
pub open spec fn node_ops(e: Expression, register: nat, label: nat) -> Seq<LlvmOp>
    decreases e,
{
    match e {
        Expression::Plus => seq![LlvmOp::Increment(register as usize)],
        Expression::Minus => seq![LlvmOp::Decrement(register as usize)],
        Expression::Rigth => seq![LlvmOp::Right(register as usize)],
        Expression::Left => seq![LlvmOp::Left(register as usize)],
        Expression::Comma => seq![LlvmOp::Read(register as usize)],
        Expression::Dot => seq![LlvmOp::Write(register as usize)],
        Expression::Conditional(inner) => seq![
            LlvmOp::LoopHead(label as usize, register as usize),
        ] + block_ops(inner.0@, register + 3, label + 1) + seq![LlvmOp::LoopTail(label as usize)],
    }
}

/// The operations for a block: those of its nodes in order, each node
/// taking the registers and labels that the nodes before it left free.
pub open spec fn block_ops(b: Seq<Expression>, register: nat, label: nat) -> Seq<LlvmOp>
    decreases b,
{
    if b.len() == 0 {
        Seq::empty()
    } else {
        block_ops(b.drop_last(), register, label) + node_ops(
            b.last(),
            register + registers_in_block(b.drop_last()),
            label + loops_in_block(b.drop_last()),
        )
    }
}

/// The whole module for a tree.
pub open spec fn module_ops(b: Seq<Expression>) -> Seq<LlvmOp> {
    seq![LlvmOp::Header] + block_ops(b, 2, 0) + seq![
        LlvmOp::End((2 + registers_in_block(b)) as usize),
    ]
}

/// A prefix of a block uses no more registers than the block.
pub proof fn lemma_registers_prefix(b: Seq<Expression>, n: int)
    requires
        0 <= n <= b.len(),
    ensures
        registers_in_block(b.take(n)) <= registers_in_block(b),
    decreases b.len(),
{
    if n == b.len() {
        assert(b.take(n) =~= b);
    } else {
        assert(b.drop_last().take(n) =~= b.take(n));
        lemma_registers_prefix(b.drop_last(), n);
    }
}

/// Appends the header and takes its registers.
pub fn codegen_header(counter: &mut usize, f: &mut Vec<LlvmOp>)
    requires
        *old(counter) + 2 <= usize::MAX,
    ensures
        final(f)@ == old(f)@.push(LlvmOp::Header),
        *final(counter) == *old(counter) + 2,
{
    f.push(LlvmOp::Header);
    *counter += 2;
}

/// Appends the end of the module and takes its registers.
pub fn codegen_end(counter: &mut usize, f: &mut Vec<LlvmOp>)
    requires
        *old(counter) + 2 <= usize::MAX,
    ensures
        final(f)@ == old(f)@.push(LlvmOp::End(*old(counter))),
        *final(counter) == *old(counter) + 2,
{
    f.push(LlvmOp::End(*counter));
    *counter += 2;
}

/// Appends the operations for a block, taking registers from `*counter` on
/// and loop labels from `*call_stack` on, and leaves both counters at the
/// first number that was not used.
pub fn codegen_ast(ast: &Ast, counter: &mut usize, call_stack: &mut usize, f: &mut Vec<LlvmOp>)
    requires
        *old(counter) + registers_in_block(ast.0@) <= usize::MAX,
        *old(call_stack) + loops_in_block(ast.0@) <= usize::MAX,
    ensures
        final(f)@ == old(f)@ + block_ops(
            ast.0@,
            *old(counter) as nat,
            *old(call_stack) as nat,
        ),
        *final(counter) == *old(counter) + registers_in_block(ast.0@),
        *final(call_stack) == *old(call_stack) + loops_in_block(ast.0@),
    decreases ast,
{
    let ghost register = *counter as nat;
    let ghost label = *call_stack as nat;
    let ghost block = ast.0@;
    let mut i: usize = 0;
    assert(f@ =~= old(f)@ + block_ops(block.take(0), register, label));
    while i < ast.0.len()
        invariant
            i <= ast.0.len(),
            block == ast.0@,
            register + registers_in_block(block) <= usize::MAX,
            label + loops_in_block(block) <= usize::MAX,
            f@ == old(f)@ + block_ops(block.take(i as int), register, label),
            *counter == register + registers_in_block(block.take(i as int)),
            *call_stack == label + loops_in_block(block.take(i as int)),
        decreases ast.0.len() - i,
    {
        let ghost done = block.take(i as int);
        proof {
            assert(block.take(i + 1).drop_last() =~= done);
            assert(block.take(i + 1).last() == block[i as int]);
            lemma_loops_prefix(block, i + 1);
            lemma_registers_prefix(block, i + 1);
            assert(loops_in_block(block.take(i + 1)) == loops_in_block(done) + loops_in_expr(
                block[i as int],
            ));
            assert(registers_in_block(block.take(i + 1)) == registers_in_block(done)
                + registers_in_expr(block[i as int]));
            assert(block_ops(block.take(i + 1), register, label) == block_ops(
                done,
                register,
                label,
            ) + node_ops(
                block[i as int],
                register + registers_in_block(done),
                label + loops_in_block(done),
            ));
        }
        let ghost before = f@;
        match &ast.0[i] {
            Expression::Plus => {
                f.push(LlvmOp::Increment(*counter));
                *counter += 3;
            },
            Expression::Minus => {
                f.push(LlvmOp::Decrement(*counter));
                *counter += 3;
            },
            Expression::Rigth => {
                f.push(LlvmOp::Right(*counter));
                *counter += 2;
            },
            Expression::Left => {
                f.push(LlvmOp::Left(*counter));
                *counter += 2;
            },
            Expression::Comma => {
                f.push(LlvmOp::Read(*counter));
                *counter += 3;
            },
            Expression::Dot => {
                f.push(LlvmOp::Write(*counter));
                *counter += 4;
            },
            Expression::Conditional(inner) => {
                let current = *call_stack;
                *call_stack += 1;
                f.push(LlvmOp::LoopHead(current, *counter));
                *counter += 3;
                codegen_ast(inner, counter, call_stack, f);
                f.push(LlvmOp::LoopTail(current));
            },
        }
        assert(f@ =~= before + node_ops(
            block[i as int],
            register + registers_in_block(done),
            label + loops_in_block(done),
        ));
        i += 1;
    }
    assert(block.take(i as int) =~= block);
}

/// Generates the module for a tree: the header, the nodes, and the end,
/// with registers numbered from zero and loop labels from zero.
pub fn codegen(ast: &Ast) -> (f: Vec<LlvmOp>)
    requires
        registers_in_block(ast.0@) + 4 <= usize::MAX,
        loops_in_block(ast.0@) <= usize::MAX,
    ensures
        f@ == module_ops(ast.0@),
{
    let mut counter: usize = 0;
    let mut call_stack: usize = 0;
    let mut f: Vec<LlvmOp> = Vec::new();
    codegen_header(&mut counter, &mut f);
    codegen_ast(ast, &mut counter, &mut call_stack, &mut f);
    codegen_end(&mut counter, &mut f);
    assert(f@ =~= module_ops(ast.0@));
    f
}

/// A block uses at most four registers for each of its tokens.
pub proof fn lemma_registers_in_block_bounded(b: Seq<Expression>)
    ensures
        registers_in_block(b) <= 4 * block_tokens(b).len(),
    decreases b,
{
    if b.len() > 0 {
        lemma_registers_in_block_bounded(b.drop_last());
        lemma_registers_in_expr_bounded(b.last());
    }
}

/// A node uses at most four registers for each of its tokens.
pub proof fn lemma_registers_in_expr_bounded(e: Expression)
    ensures
        registers_in_expr(e) <= 4 * expr_tokens(e).len(),
    decreases e,
{
    match e {
        Expression::Conditional(inner) => {
            lemma_registers_in_block_bounded(inner.0@);
        },
        _ => {},
    }
}

/// Compiles a source text to the operations of an LLVM module: its opcodes
/// are parsed and the module is generated straight from the tree. A text
/// whose brackets do not match is refused with the parser's error.
pub fn compile(input: &Vec<char>) -> (r: Result<Vec<LlvmOp>, ParseError>)
    requires
        4 * input@.len() + 4 <= usize::MAX,
    ensures
        match r {
            Ok(code) => {
                &&& well_nested(source_tokens(input@))
                &&& exists|ast: Ast|
                    #[trigger] block_tokens(ast.0@) == source_tokens(input@) && code@ == module_ops(
                        ast.0@,
                    )
            },
            Err(ParseError::TrailingCloseBracket) => closes_early(source_tokens(input@)),
            Err(ParseError::UnmatchedOpenBracket) => !closes_early(source_tokens(input@)) && depth(
                source_tokens(input@),
            ) > 0,
        },
{
    let mut opcodes = tokenize(input);
    match generate_ast(&mut opcodes) {
        Err(e) => Err(e),
        Ok(ast) => {
            proof {
                lemma_source_tokens_len(input@);
                lemma_loops_in_block_bounded(ast.0@);
                lemma_registers_in_block_bounded(ast.0@);
            }
            let code = codegen(&ast);
            assert(block_tokens(ast.0@) == source_tokens(input@));
            Ok(code)
        },
    }
}

} // verus!

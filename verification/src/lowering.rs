//! The intermediate representation and the lowering of a syntax tree to it.

use crate::nesting::{
    lemma_ids_concat, lemma_scan_concat, lemma_scan_single, scan_on, start_ids, well_formed,
};
use crate::parser::{Ast, Expression};
use vstd::prelude::*;

verus! {

/// One instruction of the intermediate representation.
///
/// `Assign` and `Update` write the cell under the pointer, `Step` moves the
/// pointer, `Input` and `Output` transfer one byte, and the two loop markers
/// with one id enclose the body of one loop.
#[derive(Debug, Clone, Copy, PartialEq, Eq, Structural)]
pub enum IRExpr {
    Assign(i32),
    Update(i32),
    Step(i32),
    Input,
    Output,
    ConditionalStart(u32),
    ConditionalEnd(u32),
}

/// A program: instructions in execution order.
pub type IR = Vec<IRExpr>;

/// The number of loops in a node, nested ones included.
pub open spec fn loops_in_expr(e: Expression) -> nat
    decreases e,
{
    match e {
        Expression::Conditional(inner) => 1 + loops_in_block(inner.0@),
        _ => 0,
    }
}

/// The number of loops in a block, nested ones included.
pub open spec fn loops_in_block(b: Seq<Expression>) -> nat
    decreases b,
{
    if b.len() == 0 {
        0
    } else {
        loops_in_block(b.drop_last()) + loops_in_expr(b.last())
    }
}

/// The instructions for one node, where `next` is the first free loop id.
/// A loop takes `next` for itself and hands the following ids to its body.
pub open spec fn lower_expr(e: Expression, next: nat) -> Seq<IRExpr>
    decreases e,
{
    match e {
        Expression::Plus => seq![IRExpr::Update(1)],
        Expression::Minus => seq![IRExpr::Update(-1i32)],
        Expression::Rigth => seq![IRExpr::Step(1)],
        Expression::Left => seq![IRExpr::Step(-1i32)],
        Expression::Comma => seq![IRExpr::Input],
        Expression::Dot => seq![IRExpr::Output],
        Expression::Conditional(inner) => seq![IRExpr::ConditionalStart(next as u32)] + lower_block(
            inner.0@,
            next + 1,
        ) + seq![IRExpr::ConditionalEnd(next as u32)],
    }
}

/// The instructions for a block: those of its nodes in order, each node
/// numbering its loops after the loops of the nodes before it.
pub open spec fn lower_block(b: Seq<Expression>, next: nat) -> Seq<IRExpr>
    decreases b,
{
    if b.len() == 0 {
        Seq::empty()
    } else {
        lower_block(b.drop_last(), next) + lower_expr(
            b.last(),
            next + loops_in_block(b.drop_last()),
        )
    }
}

/// A prefix of a block holds no more loops than the block.
pub proof fn lemma_loops_prefix(b: Seq<Expression>, n: int)
    requires
        0 <= n <= b.len(),
    ensures
        loops_in_block(b.take(n)) <= loops_in_block(b),
    decreases b.len(),
{
    if n == b.len() {
        assert(b.take(n) =~= b);
    } else {
        assert(b.drop_last().take(n) =~= b.take(n));
        lemma_loops_prefix(b.drop_last(), n);
    }
}

/// The ids from `next` on, `count` of them.
pub open spec fn ids_from(next: nat, count: nat) -> Seq<u32> {
    Seq::new(count, |i: int| (next + i) as u32)
}

/// The instructions for a node leave open what was open before them, and
/// their start markers carry the ids from `next` on, in order.
pub proof fn lemma_lowered_expr(e: Expression, next: nat, stack: Seq<u32>)
    requires
        next + loops_in_expr(e) <= u32::MAX,
    ensures
        scan_on(Some(stack), lower_expr(e, next)) == Some(stack),
        start_ids(lower_expr(e, next)) == ids_from(next, loops_in_expr(e)),
    decreases e,
{
    match e {
        Expression::Conditional(inner) => {
            let id = next as u32;
            let open = seq![IRExpr::ConditionalStart(id)];
            let body = lower_block(inner.0@, next + 1);
            let close = seq![IRExpr::ConditionalEnd(id)];
            lemma_lowered_block(inner.0@, next + 1, stack.push(id));
            lemma_scan_single(Some(stack), IRExpr::ConditionalStart(id));
            lemma_scan_single(Some(stack.push(id)), IRExpr::ConditionalEnd(id));
            lemma_scan_concat(Some(stack), open, body);
            lemma_scan_concat(Some(stack), open + body, close);
            assert(stack.push(id).drop_last() =~= stack);
            lemma_ids_concat(open, body);
            lemma_ids_concat(open + body, close);
            assert(start_ids(lower_expr(e, next)) =~= ids_from(next, loops_in_expr(e)));
        },
        _ => {
            let one = lower_expr(e, next);
            lemma_scan_single(Some(stack), one[0]);
            assert(one =~= seq![one[0]]);
            assert(start_ids(one) =~= ids_from(next, 0));
        },
    }
}

/// The instructions for a block leave open what was open before them, and
/// their start markers carry the ids from `next` on, in order.
pub proof fn lemma_lowered_block(b: Seq<Expression>, next: nat, stack: Seq<u32>)
    requires
        next + loops_in_block(b) <= u32::MAX,
    ensures
        scan_on(Some(stack), lower_block(b, next)) == Some(stack),
        start_ids(lower_block(b, next)) == ids_from(next, loops_in_block(b)),
    decreases b,
{
    if b.len() == 0 {
        assert(start_ids(lower_block(b, next)) =~= ids_from(next, 0));
    } else {
        let d = b.drop_last();
        let mid = next + loops_in_block(d);
        lemma_lowered_block(d, next, stack);
        lemma_lowered_expr(b.last(), mid, stack);
        lemma_scan_concat(Some(stack), lower_block(d, next), lower_expr(b.last(), mid));
        lemma_ids_concat(lower_block(d, next), lower_expr(b.last(), mid));
        assert(start_ids(lower_block(b, next)) =~= ids_from(next, loops_in_block(b)));
    }
}

/// A lowered tree is well formed: its markers are nested as its loops are,
/// and its ids are all different.
pub proof fn lemma_lowered_well_formed(b: Seq<Expression>, next: nat)
    requires
        next + loops_in_block(b) <= u32::MAX,
    ensures
        well_formed(lower_block(b, next)),
{
    lemma_lowered_block(b, next, Seq::empty());
}

/// Lowers the nodes of one block, numbering loops from `*call_stack` on.
fn convert_block(block: &Vec<Expression>, call_stack: &mut u32) -> (arr: IR)
    requires
        *old(call_stack) + loops_in_block(block@) <= u32::MAX,
    ensures
        arr@ == lower_block(block@, *old(call_stack) as nat),
        *final(call_stack) == *old(call_stack) + loops_in_block(block@),
    decreases block,
{
    let ghost first = *call_stack as nat;
    let mut arr: Vec<IRExpr> = Vec::new();
    let mut i: usize = 0;
    while i < block.len()
        invariant
            i <= block.len(),
            first + loops_in_block(block@) <= u32::MAX,
            arr@ == lower_block(block@.take(i as int), first),
            *call_stack == first + loops_in_block(block@.take(i as int)),
        decreases block.len() - i,
    {
        proof {
            assert(block@.take(i + 1).drop_last() =~= block@.take(i as int));
            assert(block@.take(i + 1).last() == block@[i as int]);
            lemma_loops_prefix(block@, i + 1);
            assert(loops_in_block(block@.take(i + 1)) == loops_in_block(block@.take(i as int))
                + loops_in_expr(block@[i as int]));
        }
        let ire = match &block[i] {
            Expression::Plus => IRExpr::Update(1),
            Expression::Minus => IRExpr::Update(-1),
            Expression::Rigth => IRExpr::Step(1),
            Expression::Left => IRExpr::Step(-1),
            Expression::Comma => IRExpr::Input,
            Expression::Dot => IRExpr::Output,
            Expression::Conditional(inner) => {
                let current = *call_stack;
                *call_stack = current + 1;
                arr.push(IRExpr::ConditionalStart(current));
                let mut body = convert_block(&inner.0, call_stack);
                arr.append(&mut body);
                IRExpr::ConditionalEnd(current)
            },
        };
        arr.push(ire);
        assert(lower_block(block@.take(i + 1), first) == lower_block(block@.take(i as int), first)
            + lower_expr(block@[i as int], first + loops_in_block(block@.take(i as int))));
        assert(arr@ =~= lower_block(block@.take(i + 1), first));
        i += 1;
    }
    assert(block@.take(i as int) =~= block@);
    arr
}

/// Flattens a syntax tree into a program. Each leaf becomes one instruction;
/// each loop becomes a start marker, its body and an end marker, the two
/// markers carrying the loop's id. Ids are handed out from `*call_stack`
/// upwards in the order in which the loops open, and the counter is left at
/// the first id that was not used. The program is well formed.
pub fn convert(ast: Ast, call_stack: &mut u32) -> (arr: IR)
    requires
        *old(call_stack) + loops_in_block(ast.0@) <= u32::MAX,
    ensures
        arr@ == lower_block(ast.0@, *old(call_stack) as nat),
        *final(call_stack) == *old(call_stack) + loops_in_block(ast.0@),
        well_formed(arr@),
{
    proof {
        lemma_lowered_well_formed(ast.0@, *call_stack as nat);
    }
    convert_block(&ast.0, call_stack)
}

} // verus!

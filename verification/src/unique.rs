//! A token stream is written by one tree only: two blocks with the same
//! tokens have the same shape throughout.

use crate::lexer::Opcode;
use crate::parser::{
    block_tokens, depth, expr_tokens, lemma_depth_concat, lemma_dips_concat, lemma_dips_empty,
    lemma_dips_single, well_nested, Expression,
};
use vstd::prelude::*;

verus! {

/// Two nodes have the same shape: the same leaf, or loops whose bodies
/// have the same shape.
pub open spec fn same_expr(x: Expression, y: Expression) -> bool
    decreases x,
{
    match (x, y) {
        (Expression::Plus, Expression::Plus) => true,
        (Expression::Minus, Expression::Minus) => true,
        (Expression::Rigth, Expression::Rigth) => true,
        (Expression::Left, Expression::Left) => true,
        (Expression::Comma, Expression::Comma) => true,
        (Expression::Dot, Expression::Dot) => true,
        (Expression::Conditional(p), Expression::Conditional(q)) => same_block(p.0@, q.0@),
        _ => false,
    }
}

/// Two blocks have the same shape: as many nodes, and node for node the
/// same shape.
pub open spec fn same_block(a: Seq<Expression>, b: Seq<Expression>) -> bool
    decreases a,
{
    if a.len() == 0 || b.len() == 0 {
        a.len() == b.len()
    } else {
        same_block(a.drop_last(), b.drop_last()) && same_expr(a.last(), b.last())
    }
}

/// The tokens of a node are well nested, and there is at least one.
pub proof fn lemma_expr_well_nested(e: Expression)
    ensures
        well_nested(expr_tokens(e)),
        expr_tokens(e).len() > 0,
    decreases e,
{
    match e {
        Expression::Conditional(inner) => {
            let open = seq![Opcode::OpenBracket];
            let close = seq![Opcode::CloseBracket];
            let body = block_tokens(inner.0@);
            lemma_block_well_nested(inner.0@);
            lemma_dips_single(Opcode::OpenBracket, 0);
            lemma_dips_single(Opcode::CloseBracket, -1);
            lemma_dips_concat(open, body, 0);
            lemma_depth_concat(open, body);
            lemma_dips_concat(open + body, close, 0);
            lemma_depth_concat(open + body, close);
        },
        _ => {
            let o = expr_tokens(e)[0];
            assert(expr_tokens(e) =~= seq![o]);
            lemma_dips_single(o, 0);
        },
    }
}

/// The tokens of a block are well nested.
pub proof fn lemma_block_well_nested(b: Seq<Expression>)
    ensures
        well_nested(block_tokens(b)),
    decreases b,
{
    if b.len() == 0 {
        lemma_dips_empty(0);
    } else {
        lemma_block_well_nested(b.drop_last());
        lemma_expr_well_nested(b.last());
        lemma_dips_concat(block_tokens(b.drop_last()), expr_tokens(b.last()), 0);
        lemma_depth_concat(block_tokens(b.drop_last()), expr_tokens(b.last()));
    }
}

/// Every proper, non-empty end of a node's tokens closes more loops than
/// it opens.
pub proof fn lemma_expr_ends(e: Expression, k: int)
    requires
        0 < k < expr_tokens(e).len(),
    ensures
        depth(expr_tokens(e).skip(k)) < 0,
    decreases e,
{
    let t = expr_tokens(e);
    match e {
        Expression::Conditional(inner) => {
            let open = seq![Opcode::OpenBracket];
            let body = block_tokens(inner.0@);
            lemma_expr_well_nested(e);
            lemma_block_well_nested(inner.0@);
            assert(t =~= t.take(k) + t.skip(k));
            lemma_depth_concat(t.take(k), t.skip(k));
            assert(t.take(k) =~= open + body.take(k - 1));
            lemma_depth_concat(open, body.take(k - 1));
            lemma_dips_single(Opcode::OpenBracket, 0);
            assert(depth(body.take(k - 1)) >= 0);
        },
        _ => {},
    }
}

/// Where two streams are equal and each ends in the tokens of a node, the
/// two nodes have equally many tokens.
pub proof fn lemma_last_node_len(
    pa: Seq<Opcode>,
    x: Expression,
    pb: Seq<Opcode>,
    y: Expression,
)
    requires
        pa + expr_tokens(x) == pb + expr_tokens(y),
    ensures
        expr_tokens(x).len() == expr_tokens(y).len(),
{
    let tx = expr_tokens(x);
    let ty = expr_tokens(y);
    let all = pa + tx;
    lemma_expr_well_nested(x);
    lemma_expr_well_nested(y);
    if tx.len() < ty.len() {
        let k = ty.len() - tx.len();
        lemma_expr_ends(y, k);
        assert(ty.skip(k) =~= all.skip(pa.len() as int));
        assert(tx =~= all.skip(pa.len() as int));
    } else if ty.len() < tx.len() {
        let k = tx.len() - ty.len();
        lemma_expr_ends(x, k);
        assert(tx.skip(k) =~= all.skip(pb.len() as int));
        assert(ty =~= all.skip(pb.len() as int));
    }
}

/// Two nodes with the same tokens have the same shape.
pub proof fn lemma_tokens_determine_expr(x: Expression, y: Expression)
    requires
        expr_tokens(x) == expr_tokens(y),
    ensures
        same_expr(x, y),
    decreases x,
{
    let tx = expr_tokens(x);
    let ty = expr_tokens(y);
    assert(tx[0] == ty[0]);
    match (x, y) {
        (Expression::Conditional(p), Expression::Conditional(q)) => {
            let bp = block_tokens(p.0@);
            let bq = block_tokens(q.0@);
            assert(tx.len() == bp.len() + 2);
            assert(ty.len() == bq.len() + 2);
            assert(bp =~= tx.subrange(1, tx.len() - 1));
            assert(bq =~= ty.subrange(1, ty.len() - 1));
            lemma_tokens_determine_block(p.0@, q.0@);
        },
        _ => {},
    }
}

/// Two blocks with the same tokens have the same shape: a token stream is
/// written by one tree only.
pub proof fn lemma_tokens_determine_block(a: Seq<Expression>, b: Seq<Expression>)
    requires
        block_tokens(a) == block_tokens(b),
    ensures
        same_block(a, b),
    decreases a,
{
    if a.len() == 0 {
        if b.len() > 0 {
            lemma_expr_well_nested(b.last());
        }
    } else if b.len() == 0 {
        lemma_expr_well_nested(a.last());
    } else {
        let pa = block_tokens(a.drop_last());
        let pb = block_tokens(b.drop_last());
        let tx = expr_tokens(a.last());
        let ty = expr_tokens(b.last());
        lemma_last_node_len(pa, a.last(), pb, b.last());
        let all = pa + tx;
        assert(pa =~= all.take(pa.len() as int));
        assert(pb =~= all.take(pb.len() as int));
        assert(tx =~= all.skip(pa.len() as int));
        assert(ty =~= all.skip(pb.len() as int));
        lemma_tokens_determine_block(a.drop_last(), b.drop_last());
        lemma_tokens_determine_expr(a.last(), b.last());
    }
}

} // verus!

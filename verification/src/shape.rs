//! Two measures of a program's shape that the passes are judged by: how
//! many of its instructions are not moves, and whether its moves are tidy.

use crate::lowering::IRExpr;
use vstd::prelude::*;

verus! {

/// A move of the pointer.
pub open spec fn is_step(e: IRExpr) -> bool {
    e is Step
}

/// The number of instructions of `p` that are not moves.
pub open spec fn solid_count(p: Seq<IRExpr>) -> nat
    decreases p.len(),
{
    if p.len() == 0 {
        0
    } else {
        solid_count(p.drop_last()) + if is_step(p.last()) {
            0nat
        } else {
            1nat
        }
    }
}

/// The moves of `p` are tidy: none is by zero cells and no two stand side
/// by side.
pub open spec fn tidy_steps(p: Seq<IRExpr>) -> bool {
    &&& forall|i: int| 0 <= i < p.len() ==> #[trigger] p[i] != IRExpr::Step(0)
    &&& forall|i: int| 0 <= i < p.len() - 1 ==> !(is_step(#[trigger] p[i]) && is_step(p[i + 1]))
}

/// The count of a concatenation is the sum of the counts.
pub proof fn lemma_solid_concat(a: Seq<IRExpr>, b: Seq<IRExpr>)
    ensures
        solid_count(a + b) == solid_count(a) + solid_count(b),
    decreases b.len(),
{
    if b.len() == 0 {
        assert(a + b =~= a);
    } else {
        assert((a + b).drop_last() =~= a + b.drop_last());
        lemma_solid_concat(a, b.drop_last());
    }
}

/// The count of a single instruction.
pub proof fn lemma_solid_single(e: IRExpr)
    ensures
        solid_count(seq![e]) == if is_step(e) {
            0nat
        } else {
            1nat
        },
{
    assert(seq![e].drop_last() =~= Seq::<IRExpr>::empty());
    assert(solid_count(Seq::<IRExpr>::empty()) == 0);
    assert(seq![e].last() == e);
}

/// Two tidy programs joined by an instruction that is not a move are tidy.
pub proof fn lemma_tidy_join(a: Seq<IRExpr>, x: IRExpr, c: Seq<IRExpr>)
    requires
        tidy_steps(a),
        tidy_steps(c),
        !is_step(x),
    ensures
        tidy_steps(a + seq![x] + c),
{
    let p = a + seq![x] + c;
    assert forall|i: int| 0 <= i < p.len() implies #[trigger] p[i] != IRExpr::Step(0) by {
        if i < a.len() {
            assert(p[i] == a[i]);
        } else if i > a.len() {
            assert(p[i] == c[i - a.len() - 1]);
        }
    }
    assert forall|i: int| 0 <= i < p.len() - 1 implies !(is_step(#[trigger] p[i]) && is_step(
        p[i + 1],
    )) by {
        if i + 1 < a.len() {
            assert(p[i] == a[i] && p[i + 1] == a[i + 1]);
        } else if i > a.len() {
            assert(p[i] == c[i - a.len() - 1] && p[i + 1] == c[i - a.len()]);
        } else {
            assert(p[a.len() as int] == x);
        }
    }
}

} // verus!

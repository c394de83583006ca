//! Why the optimizer comes to rest: every pass that changes a program
//! lowers its rank, and ranks cannot fall for ever.
//!
//! A program ranks by the number of its instructions that are not moves,
//! then by whether it is settled (its moves tidy and its runs in canonical
//! order), then by its length.

use crate::deadloop::{lemma_prune_shrinks, prune};
use crate::locality::reordered;
use crate::lowering::IRExpr;
use crate::peephole::{rewrite, rules_round, spliced, sweep, window_len, Rule};
use crate::shape::{is_step, lemma_solid_concat, solid_count, tidy_steps};
use vstd::prelude::*;

verus! {

/// The moves of `p` are tidy and its runs are in canonical order.
pub open spec fn settled(p: Seq<IRExpr>) -> bool {
    tidy_steps(p) && reordered(p) == p
}

/// Zero for a settled program, one for any other.
pub open spec fn unrest(p: Seq<IRExpr>) -> nat {
    if settled(p) {
        0
    } else {
        1
    }
}

/// `a` ranks strictly below `b`.
pub open spec fn ranks_below(a: Seq<IRExpr>, b: Seq<IRExpr>) -> bool {
    ||| solid_count(a) < solid_count(b)
    ||| (solid_count(a) == solid_count(b) && unrest(a) < unrest(b))
    ||| (solid_count(a) == solid_count(b) && unrest(a) == unrest(b) && a.len() < b.len())
}

/// A replacement holds no more instructions that are not moves than the
/// window it replaces, and as many only where the window is a move by zero
/// or two moves side by side.
pub proof fn lemma_rewrite_solid(rule: Rule, w: Seq<IRExpr>)
    requires
        rewrite(rule, w).is_some(),
    ensures
        solid_count(rewrite(rule, w).unwrap()) <= solid_count(w),
        solid_count(rewrite(rule, w).unwrap()) == solid_count(w) ==> w[0] == IRExpr::Step(0) || (
        w.len() >= 2 && is_step(w[0]) && is_step(w[1])),
{
    reveal_with_fuel(solid_count, 9);
    let new = rewrite(rule, w).unwrap();
    let a = w.drop_last();
    let b = a.drop_last();
    let c = b.drop_last();
    let d = c.drop_last();
    let e = d.drop_last();
    let f = e.drop_last();
    let na = new.drop_last();
    let nb = na.drop_last();
    let nc = nb.drop_last();
    match rule {
        Rule::Identity => {},
        Rule::FuseUpdates => {},
        Rule::FuseSteps => {},
        Rule::FuseAssign => {},
        Rule::ClearCell => {},
        Rule::Multiply => {
            assert(f.last() == w[0] && e.last() == w[1] && d.last() == w[2]);
            assert(c.last() == w[3] && b.last() == w[4] && a.last() == w[5]);
            assert(solid_count(w) == 5);
            assert(nc.last() == new[0] && nb.last() == new[1] && na.last() == new[2]);
            assert(solid_count(new) == 2);
        },
    }
}

/// Splicing changes the count by the difference between the replacement
/// and the window.
pub proof fn lemma_spliced_solid(ir: Seq<IRExpr>, at: int, count: int, new: Seq<IRExpr>)
    requires
        0 <= at,
        0 <= count,
        at + count <= ir.len(),
    ensures
        solid_count(spliced(ir, at, count, new)) + solid_count(ir.subrange(at, at + count))
            == solid_count(ir) + solid_count(new),
{
    let pre = ir.subrange(0, at);
    let w = ir.subrange(at, at + count);
    let post = ir.subrange(at + count, ir.len() as int);
    assert(ir =~= pre + w + post);
    lemma_solid_concat(pre, w);
    lemma_solid_concat(pre + w, post);
    lemma_solid_concat(pre, new);
    lemma_solid_concat(pre + new, post);
}

/// A sweep adds no instruction that is not a move, and where it changes a
/// program with tidy moves it removes one.
pub proof fn lemma_sweep_solid(rule: Rule, ir: Seq<IRExpr>, i: int)
    ensures
        solid_count(sweep(rule, ir, i)) <= solid_count(ir),
        tidy_steps(ir) && sweep(rule, ir, i) != ir ==> solid_count(sweep(rule, ir, i))
            < solid_count(ir),
    decreases ir.len(), ir.len() - i,
{
    let n = window_len(rule) as int;
    if i < 0 || i + n > ir.len() {
    } else {
        let w = ir.subrange(i, i + n);
        match rewrite(rule, w) {
            Some(new) => {
                lemma_rewrite_solid(rule, w);
                lemma_spliced_solid(ir, i, n, new);
                lemma_sweep_solid(rule, spliced(ir, i, n, new), i);
                if tidy_steps(ir) {
                    assert(w[0] == ir[i]);
                    if n >= 2 {
                        assert(w[1] == ir[i + 1]);
                    }
                }
            },
            None => {
                lemma_sweep_solid(rule, ir, i + 1);
            },
        }
    }
}

/// A round of the rules adds no instruction that is not a move, and where
/// it changes a program with tidy moves it removes one.
pub proof fn lemma_round_solid(ir: Seq<IRExpr>)
    ensures
        solid_count(rules_round(ir)) <= solid_count(ir),
        tidy_steps(ir) && rules_round(ir) != ir ==> solid_count(rules_round(ir)) < solid_count(ir),
{
    let a = sweep(Rule::Identity, ir, 0);
    let b = sweep(Rule::FuseUpdates, a, 0);
    let c = sweep(Rule::FuseSteps, b, 0);
    let d = sweep(Rule::FuseAssign, c, 0);
    let e = sweep(Rule::ClearCell, d, 0);
    lemma_sweep_solid(Rule::Identity, ir, 0);
    lemma_sweep_solid(Rule::FuseUpdates, a, 0);
    lemma_sweep_solid(Rule::FuseSteps, b, 0);
    lemma_sweep_solid(Rule::FuseAssign, c, 0);
    lemma_sweep_solid(Rule::ClearCell, d, 0);
    lemma_sweep_solid(Rule::Multiply, e, 0);
}

/// Dead-loop elimination adds no instruction that is not a move, and where
/// it drops anything it drops one.
pub proof fn lemma_prune_solid(ir: Seq<IRExpr>)
    ensures
        solid_count(prune(ir).kept) <= solid_count(ir),
        prune(ir).kept.len() < ir.len() ==> solid_count(prune(ir).kept) < solid_count(ir),
    decreases ir.len(),
{
    if ir.len() > 0 {
        let d = ir.drop_last();
        let st = prune(d);
        lemma_prune_solid(d);
        lemma_prune_shrinks(d);
        if prune(ir).kept != st.kept {
            assert(prune(ir).kept == st.kept.push(ir.last()));
            assert(st.kept.push(ir.last()).drop_last() =~= st.kept);
        }
    }
}

} // verus!

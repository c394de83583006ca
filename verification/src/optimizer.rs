//! The optimizer: the passes, run round after round until a whole round
//! leaves the program as it was.

use crate::canonical::lemma_reordered;
use crate::deadloop::{lemma_prune_shrinks, unreachable_branch, without_dead_loops};
use crate::locality::{access_analysis, by_offset, offset_after, reordered, run_len, touches};
use crate::lowering::{IRExpr, IR};
use crate::clearing::same_result;
use crate::nesting::well_formed;
use crate::preserved::{
    lemma_pruned_well_formed, lemma_reordered_well_formed, lemma_rules_well_formed,
};
use crate::peephole::{lemma_round_shrinks, rules_round, simple_rules, spliced, sweep, Rule};
use crate::progress::{lemma_prune_solid, lemma_round_solid, ranks_below, unrest};
use crate::shape::solid_count;
use crate::sound::{always_idle, lemma_settle_same_result};
use vstd::prelude::*;

verus! {

/// A pass of the optimizer.
#[derive(Debug, Clone, Copy, PartialEq, Eq, Structural)]
pub enum Optimization {
    /// One round of the peephole rules.
    SimpleRules,
    /// Access-locality reordering.
    AccessAnalysis,
    /// Dead-loop elimination.
    UnreachableBranch,
}

/// What a pass makes of a program.
pub open spec fn pass_result(pass: Optimization, ir: Seq<IRExpr>) -> Seq<IRExpr> {
    match pass {
        Optimization::SimpleRules => rules_round(ir),
        Optimization::AccessAnalysis => reordered(ir),
        Optimization::UnreachableBranch => without_dead_loops(ir),
    }
}

/// What one round makes of a program: each pass in turn, each on the result
/// of the one before.
pub open spec fn round_result(passes: Seq<Optimization>, ir: Seq<IRExpr>) -> Seq<IRExpr>
    decreases passes.len(),
{
    if passes.len() == 0 {
        ir
    } else {
        pass_result(passes.last(), round_result(passes.drop_last(), ir))
    }
}

/// A pass leaves a program as it was or lowers its rank.
pub proof fn lemma_pass_progress(pass: Optimization, ir: Seq<IRExpr>)
    ensures
        pass_result(pass, ir) == ir || ranks_below(pass_result(pass, ir), ir),
{
    match pass {
        Optimization::SimpleRules => {
            lemma_round_shrinks(ir);
            lemma_round_solid(ir);
        },
        Optimization::AccessAnalysis => {
            lemma_reordered(ir);
        },
        Optimization::UnreachableBranch => {
            lemma_prune_shrinks(ir);
            lemma_prune_solid(ir);
        },
    }
}

/// A round leaves a program as it was or lowers its rank; and where it
/// leaves the program as it was, so did each pass of the round.
pub proof fn lemma_round_progress(passes: Seq<Optimization>, ir: Seq<IRExpr>)
    ensures
        round_result(passes, ir) == ir || ranks_below(round_result(passes, ir), ir),
        round_result(passes, ir) == ir ==> forall|k: int|
            0 <= k < passes.len() ==> pass_result(#[trigger] passes[k], ir) == ir,
    decreases passes.len(),
{
    if passes.len() > 0 {
        let before = passes.drop_last();
        let mid = round_result(before, ir);
        lemma_round_progress(before, ir);
        lemma_pass_progress(passes.last(), mid);
        if round_result(passes, ir) == ir {
            assert forall|k: int| 0 <= k < passes.len() implies pass_result(
                #[trigger] passes[k],
                ir,
            ) == ir by {
                if k < before.len() {
                    assert(before[k] == passes[k]);
                }
            }
        }
    }
}

/// The program after rounds are run until one leaves it as it was.
pub open spec fn settle(passes: Seq<Optimization>, ir: Seq<IRExpr>) -> Seq<IRExpr>
    decreases solid_count(ir), unrest(ir), ir.len(),
    via settle_comes_to_rest
{
    if round_result(passes, ir) == ir {
        ir
    } else {
        settle(passes, round_result(passes, ir))
    }
}

#[via_fn]
proof fn settle_comes_to_rest(passes: Seq<Optimization>, ir: Seq<IRExpr>) {
    lemma_round_progress(passes, ir);
}

/// The three passes in the order in which a round of `optimize` runs them.
pub open spec fn all_passes() -> Seq<Optimization> {
    seq![
        Optimization::SimpleRules,
        Optimization::AccessAnalysis,
        Optimization::UnreachableBranch,
    ]
}

/// Runs one pass and tells whether it changed the program.
pub fn run_pass(ir: IR, pass: Optimization) -> (out: (IR, bool))
    ensures
        out.0@ == pass_result(pass, ir@),
        out.1 == (out.0@ != ir@),
        well_formed(ir@) ==> well_formed(out.0@),
{
    match pass {
        Optimization::SimpleRules => simple_rules(ir),
        Optimization::AccessAnalysis => access_analysis(ir),
        Optimization::UnreachableBranch => unreachable_branch(ir),
    }
}

/// Runs the given passes once each, in order, and tells whether any of them
/// changed the program; if none did, the program is as it was.
pub fn run_round(ir: IR, functions: &[Optimization]) -> (out: (IR, bool))
    ensures
        out.0@ == round_result(functions@, ir@),
        out.1 == (out.0@ != ir@),
        well_formed(ir@) ==> well_formed(out.0@),
{
    let ghost start = ir@;
    let mut ir = ir;
    let mut updated = false;
    let mut k: usize = 0;
    while k < functions.len()
        invariant
            k <= functions@.len(),
            ir@ == round_result(functions@.take(k as int), start),
            updated == (ir@ != start),
            ir@ == start || ranks_below(ir@, start),
            well_formed(start) ==> well_formed(ir@),
        decreases functions.len() - k,
    {
        proof {
            assert(functions@.take(k + 1).drop_last() =~= functions@.take(k as int));
            lemma_pass_progress(functions@[k as int], ir@);
        }
        let (next, changed) = run_pass(ir, functions[k]);
        ir = next;
        updated = updated || changed;
        k += 1;
    }
    proof {
        assert(functions@.take(k as int) =~= functions@);
    }
    (ir, updated)
}

/// Runs rounds of the given passes until a round leaves the program as it
/// was, and returns that program. With the peephole rules alone this is the
/// peephole fixed point; with all three passes it is `optimize`. It comes
/// to rest on every program and every list of passes.
pub fn optimize_(ir: IR, functions: &[Optimization]) -> (out: IR)
    ensures
        out@ == settle(functions@, ir@),
        round_result(functions@, out@) == out@,
        solid_count(out@) <= solid_count(ir@),
        well_formed(ir@) ==> well_formed(out@),
        well_formed(ir@) && always_idle(functions@, ir@) ==> same_result(out@, ir@),
{
    proof {
        lemma_settle_at_rest(functions@, ir@);
        lemma_settle_adds_nothing(functions@, ir@);
        if well_formed(ir@) && always_idle(functions@, ir@) {
            lemma_settle_same_result(functions@, ir@);
        }
    }
    let ghost start = ir@;
    let mut ir = ir;
    loop
        invariant
            settle(functions@, start) == settle(functions@, ir@),
            well_formed(start) ==> well_formed(ir@),
        ensures
            settle(functions@, start) == ir@,
            well_formed(start) ==> well_formed(ir@),
        decreases solid_count(ir@), unrest(ir@), ir@.len(),
    {
        proof {
            lemma_round_progress(functions@, ir@);
        }
        let (next, changed) = run_round(ir, functions);
        ir = next;
        if !changed {
            break ;
        }
    }
    ir
}

/// What `optimize` makes of a program.
pub open spec fn optimized(ir: Seq<IRExpr>) -> Seq<IRExpr> {
    settle(all_passes(), ir)
}

/// Optimizes a program: rounds of peephole rewriting, access-locality
/// reordering and dead-loop elimination, in this order, until a round
/// changes nothing. Every program is taken; a well-formed one stays well
/// formed. The result is left as it is by a second call, and holds no more
/// writes, transfers and markers than the program did; its moves may be
/// more, where the canonical order needs them.
///
/// A well-formed program keeps what it computes, as long as the
/// multiplication rule finds no window on the way. Where it does, the
/// result is right only if the counter cell held zero before the window;
/// nothing checks that.
pub fn optimize(ir: IR) -> (out: IR)
    ensures
        out@ == optimized(ir@),
        optimized(out@) == out@,
        solid_count(out@) <= solid_count(ir@),
        well_formed(ir@) ==> well_formed(out@),
        well_formed(ir@) && always_idle(all_passes(), ir@) ==> same_result(out@, ir@),
{
    proof {
        lemma_optimize_idempotent(ir@);
    }
    let passes = [
        Optimization::SimpleRules,
        Optimization::AccessAnalysis,
        Optimization::UnreachableBranch,
    ];
    assert(passes@ =~= all_passes());
    optimize_(ir, passes.as_slice())
}

/// The program that the rounds come to rest at is left as it is by one
/// more round.
pub proof fn lemma_settle_at_rest(passes: Seq<Optimization>, ir: Seq<IRExpr>)
    ensures
        round_result(passes, settle(passes, ir)) == settle(passes, ir),
    decreases solid_count(ir), unrest(ir), ir.len(),
{
    lemma_round_progress(passes, ir);
    if round_result(passes, ir) != ir {
        lemma_settle_at_rest(passes, round_result(passes, ir));
    }
}

/// The program that the rounds come to rest at holds no more instructions
/// that are not moves than the program they started from.
pub proof fn lemma_settle_adds_nothing(passes: Seq<Optimization>, ir: Seq<IRExpr>)
    ensures
        solid_count(settle(passes, ir)) <= solid_count(ir),
    decreases solid_count(ir), unrest(ir), ir.len(),
{
    lemma_round_progress(passes, ir);
    if round_result(passes, ir) != ir {
        lemma_settle_adds_nothing(passes, round_result(passes, ir));
    }
}

/// Running the rounds to rest a second time changes nothing.
pub proof fn lemma_settle_idempotent(passes: Seq<Optimization>, ir: Seq<IRExpr>)
    ensures
        settle(passes, settle(passes, ir)) == settle(passes, ir),
{
    lemma_settle_at_rest(passes, ir);
}

/// Optimizing an optimized program changes nothing.
pub proof fn lemma_optimize_idempotent(ir: Seq<IRExpr>)
    ensures
        optimized(optimized(ir)) == optimized(ir),
{
    lemma_settle_idempotent(all_passes(), ir);
}

/// An optimized program is left as it is by each of the three passes.
pub proof fn lemma_optimized_at_rest(ir: Seq<IRExpr>)
    ensures
        rules_round(optimized(ir)) == optimized(ir),
        reordered(optimized(ir)) == optimized(ir),
        without_dead_loops(optimized(ir)) == optimized(ir),
{
    let passes = all_passes();
    let out = optimized(ir);
    lemma_settle_at_rest(passes, ir);
    lemma_round_progress(passes, out);
    assert(passes[0] == Optimization::SimpleRules);
    assert(passes[1] == Optimization::AccessAnalysis);
    assert(passes[2] == Optimization::UnreachableBranch);
}

/// A round keeps a well-formed program well formed.
pub proof fn lemma_round_well_formed(passes: Seq<Optimization>, ir: Seq<IRExpr>)
    requires
        well_formed(ir),
    ensures
        well_formed(round_result(passes, ir)),
    decreases passes.len(),
{
    if passes.len() > 0 {
        let mid = round_result(passes.drop_last(), ir);
        lemma_round_well_formed(passes.drop_last(), ir);
        match passes.last() {
            Optimization::SimpleRules => lemma_rules_well_formed(mid),
            Optimization::AccessAnalysis => lemma_reordered_well_formed(mid),
            Optimization::UnreachableBranch => lemma_pruned_well_formed(mid),
        }
    }
}

/// The program that the rounds come to rest at is well formed where the
/// program they started from was.
pub proof fn lemma_settle_well_formed(passes: Seq<Optimization>, ir: Seq<IRExpr>)
    requires
        well_formed(ir),
    ensures
        well_formed(settle(passes, ir)),
    decreases solid_count(ir), unrest(ir), ir.len(),
{
    lemma_round_progress(passes, ir);
    if round_result(passes, ir) != ir {
        lemma_round_well_formed(passes, ir);
        lemma_settle_well_formed(passes, round_result(passes, ir));
    }
}

/// A full round is the peephole rules, then the reordering, then the
/// dead-loop elimination.
pub proof fn lemma_full_round(ir: Seq<IRExpr>)
    ensures
        round_result(all_passes(), ir) == without_dead_loops(reordered(rules_round(ir))),
{
    let three = all_passes();
    let two = three.drop_last();
    let one = two.drop_last();
    assert(one.drop_last() =~= Seq::<Optimization>::empty());
    assert(round_result(one.drop_last(), ir) == ir);
    assert(one.last() == Optimization::SimpleRules);
    assert(round_result(one, ir) == rules_round(ir));
    assert(two.last() == Optimization::AccessAnalysis);
    assert(round_result(two, ir) == reordered(rules_round(ir)));
    assert(three.last() == Optimization::UnreachableBranch);
}

/// A sweep of the identity rule over updates by zero and moves by zero
/// leaves nothing.
proof fn lemma_sweep_identities(ir: Seq<IRExpr>)
    requires
        forall|i: int|
            0 <= i < ir.len() ==> #[trigger] ir[i] == IRExpr::Update(0) || ir[i] == IRExpr::Step(0),
    ensures
        sweep(Rule::Identity, ir, 0) == Seq::<IRExpr>::empty(),
    decreases ir.len(),
{
    if ir.len() == 0 {
        assert(ir =~= Seq::<IRExpr>::empty());
    } else {
        let w = ir.subrange(0, 1);
        assert(w[0] == ir[0]);
        let rest = spliced(ir, 0, 1, Seq::<IRExpr>::empty());
        assert(rest =~= ir.skip(1));
        assert forall|i: int| 0 <= i < rest.len() implies #[trigger] rest[i] == IRExpr::Update(0)
            || rest[i] == IRExpr::Step(0) by {
            assert(rest[i] == ir[i + 1]);
        }
        lemma_sweep_identities(rest);
    }
}

/// A program of nothing but updates by zero and moves by zero optimizes to
/// the empty program.
pub proof fn lemma_identities_vanish(ir: Seq<IRExpr>)
    requires
        forall|i: int|
            0 <= i < ir.len() ==> #[trigger] ir[i] == IRExpr::Update(0) || ir[i] == IRExpr::Step(0),
    ensures
        optimized(ir) == Seq::<IRExpr>::empty(),
{
    let none = Seq::<IRExpr>::empty();
    lemma_sweep_identities(ir);
    lemma_sweep_identities(none);
    assert(rules_round(ir) == none);
    assert(rules_round(none) == none);
    assert(run_len(none) == 0);
    assert(touches(none) == Seq::<(i32, IRExpr)>::empty());
    assert(by_offset(touches(none)) == Seq::<(i32, IRExpr)>::empty());
    assert(offset_after(none) == 0);
    assert(reordered(none) =~= none);
    assert(without_dead_loops(none) == none);
    lemma_full_round(ir);
    lemma_full_round(none);
    lemma_round_progress(all_passes(), ir);
    assert(settle(all_passes(), none) == none);
}

} // verus!

//! What the optimizer keeps of a program's meaning: on a well-formed
//! program every pass and every rule but the multiplication rule keeps
//! what the program computes, so the optimizer keeps it wherever the
//! multiplication rule finds no window.

use crate::clearing::{
    lemma_clear_sweep_same_result, lemma_meaning_gives_result, lemma_result_chain,
    lemma_result_same, same_result,
};
use crate::folding::lemma_fold_sweep_same_meaning;
use crate::lowering::IRExpr;
use crate::machine::lemma_reordered_same_meaning;
use crate::nesting::well_formed;
use crate::optimizer::{
    lemma_round_progress, lemma_round_well_formed, pass_result, round_result, settle,
    Optimization,
};
use crate::peephole::{rules_round, sweep, Rule};
use crate::preserved::lemma_sweep_well_formed;
use crate::progress::unrest;
use crate::pruning::lemma_pruned_same_meaning;
use crate::shape::solid_count;
use vstd::prelude::*;

verus! {

/// The program that a round of the rules hands to its last sweep, the one
/// of the multiplication rule.
pub open spec fn before_multiply(ir: Seq<IRExpr>) -> Seq<IRExpr> {
    sweep(
        Rule::ClearCell,
        sweep(
            Rule::FuseAssign,
            sweep(Rule::FuseSteps, sweep(Rule::FuseUpdates, sweep(Rule::Identity, ir, 0), 0), 0),
            0,
        ),
        0,
    )
}

/// In a round of the rules on `ir` the multiplication rule finds no
/// window.
pub open spec fn multiply_idle(ir: Seq<IRExpr>) -> bool {
    sweep(Rule::Multiply, before_multiply(ir), 0) == before_multiply(ir)
}

/// In a round of the passes on `ir` the multiplication rule finds no
/// window.
pub open spec fn round_idle(passes: Seq<Optimization>, ir: Seq<IRExpr>) -> bool
    decreases passes.len(),
{
    if passes.len() == 0 {
        true
    } else {
        round_idle(passes.drop_last(), ir) && (passes.last() == Optimization::SimpleRules
            ==> multiply_idle(round_result(passes.drop_last(), ir)))
    }
}

/// In all the rounds that are run on `ir` the multiplication rule finds no
/// window.
pub open spec fn always_idle(passes: Seq<Optimization>, ir: Seq<IRExpr>) -> bool
    decreases solid_count(ir), unrest(ir), ir.len(),
    via always_idle_ends
{
    round_idle(passes, ir) && (round_result(passes, ir) != ir ==> always_idle(
        passes,
        round_result(passes, ir),
    ))
}

#[via_fn]
proof fn always_idle_ends(passes: Seq<Optimization>, ir: Seq<IRExpr>) {
    lemma_round_progress(passes, ir);
}

/// A round of the rules in which the multiplication rule finds no window
/// changes nothing of what a well-formed program computes.
pub proof fn lemma_rules_same_result(ir: Seq<IRExpr>)
    requires
        well_formed(ir),
        multiply_idle(ir),
    ensures
        same_result(rules_round(ir), ir),
{
    let a = sweep(Rule::Identity, ir, 0);
    let b = sweep(Rule::FuseUpdates, a, 0);
    let c = sweep(Rule::FuseSteps, b, 0);
    let d = sweep(Rule::FuseAssign, c, 0);
    let e = sweep(Rule::ClearCell, d, 0);
    lemma_fold_sweep_same_meaning(Rule::Identity, ir);
    lemma_fold_sweep_same_meaning(Rule::FuseUpdates, a);
    lemma_fold_sweep_same_meaning(Rule::FuseSteps, b);
    lemma_fold_sweep_same_meaning(Rule::FuseAssign, c);
    lemma_meaning_gives_result(a, ir);
    lemma_meaning_gives_result(b, a);
    lemma_meaning_gives_result(c, b);
    lemma_meaning_gives_result(d, c);
    lemma_sweep_well_formed(Rule::Identity, ir, 0);
    lemma_sweep_well_formed(Rule::FuseUpdates, a, 0);
    lemma_sweep_well_formed(Rule::FuseSteps, b, 0);
    lemma_sweep_well_formed(Rule::FuseAssign, c, 0);
    lemma_clear_sweep_same_result(d, 0);
    lemma_result_chain(b, a, ir);
    lemma_result_chain(c, b, ir);
    lemma_result_chain(d, c, ir);
    lemma_result_chain(e, d, ir);
}

/// A pass changes nothing of what a well-formed program computes, if the
/// multiplication rule finds no window in it.
pub proof fn lemma_pass_same_result(pass: Optimization, ir: Seq<IRExpr>)
    requires
        well_formed(ir),
        pass == Optimization::SimpleRules ==> multiply_idle(ir),
    ensures
        same_result(pass_result(pass, ir), ir),
{
    match pass {
        Optimization::SimpleRules => {
            lemma_rules_same_result(ir);
        },
        Optimization::AccessAnalysis => {
            lemma_reordered_same_meaning(ir);
            lemma_meaning_gives_result(pass_result(pass, ir), ir);
        },
        Optimization::UnreachableBranch => {
            lemma_pruned_same_meaning(ir);
            lemma_meaning_gives_result(pass_result(pass, ir), ir);
        },
    }
}

/// A round in which the multiplication rule finds no window changes
/// nothing of what a well-formed program computes.
pub proof fn lemma_round_same_result(passes: Seq<Optimization>, ir: Seq<IRExpr>)
    requires
        well_formed(ir),
        round_idle(passes, ir),
    ensures
        same_result(round_result(passes, ir), ir),
    decreases passes.len(),
{
    if passes.len() == 0 {
        lemma_result_same(ir);
    } else {
        let mid = round_result(passes.drop_last(), ir);
        lemma_round_same_result(passes.drop_last(), ir);
        lemma_round_well_formed(passes.drop_last(), ir);
        lemma_pass_same_result(passes.last(), mid);
        lemma_result_chain(round_result(passes, ir), mid, ir);
    }
}

/// The optimizer is sound wherever the multiplication rule stays idle: the
/// program that the rounds come to rest at computes what the well-formed
/// program computed that they started from.
pub proof fn lemma_settle_same_result(passes: Seq<Optimization>, ir: Seq<IRExpr>)
    requires
        well_formed(ir),
        always_idle(passes, ir),
    ensures
        same_result(settle(passes, ir), ir),
    decreases solid_count(ir), unrest(ir), ir.len(),
{
    lemma_round_progress(passes, ir);
    let next = round_result(passes, ir);
    if next == ir {
        lemma_result_same(ir);
    } else {
        lemma_round_same_result(passes, ir);
        lemma_round_well_formed(passes, ir);
        lemma_settle_same_result(passes, next);
        lemma_result_chain(settle(passes, ir), next, ir);
    }
}

} // verus!

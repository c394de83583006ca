//! Peephole rewriting: six window rules, each applied in a left-to-right
//! sweep that splices a replacement in place of every matching window.

use crate::clearing::{lemma_clear_sweep_same_result, same_result};
use crate::effect::folds;
use crate::folding::lemma_fold_sweep_same_meaning;
use crate::locality::is_barrier;
use crate::lowering::{IRExpr, IR};
use crate::machine::same_meaning;
use crate::nesting::well_formed;
use crate::preserved::lemma_sweep_well_formed;
use crate::sound::{lemma_rules_same_result, multiply_idle};
use vstd::prelude::*;
use vstd::wrapping::i32_specs::{wrapping_add, wrapping_mul};

verus! {

/// The rewrite rules, in the order in which a round applies them.
#[derive(Debug, Clone, Copy, PartialEq, Eq, Structural)]
pub enum Rule {
    /// `Update(0)` and `Step(0)` do nothing and are removed.
    Identity,
    /// Two updates in a row add up to one.
    FuseUpdates,
    /// Two steps in a row add up to one.
    FuseSteps,
    /// An update after an assignment folds into it; an update before an
    /// assignment is dead.
    FuseAssign,
    /// A loop whose body is `Update(-1)` leaves the cell at zero.
    ClearCell,
    /// `Update(a)` followed by a loop that adds `b` to another cell and
    /// counts this one down adds `a * b` to that cell and clears this one.
    ///
    /// The rule goes by shape alone. It is right only where the counter
    /// cell held zero before the `Update(a)`; nothing here checks that.
    Multiply,
}

/// The number of instructions in the window that a rule looks at.
pub open spec fn window_len(rule: Rule) -> nat {
    match rule {
        Rule::Identity => 1,
        Rule::FuseUpdates => 2,
        Rule::FuseSteps => 2,
        Rule::FuseAssign => 2,
        Rule::ClearCell => 3,
        Rule::Multiply => 7,
    }
}

/// What a rule puts in place of the window `w`, or `None` where the window
/// does not match. Sums and products wrap, as cell and pointer arithmetic
/// does.
pub open spec fn rewrite(rule: Rule, w: Seq<IRExpr>) -> Option<Seq<IRExpr>> {
    if w.len() != window_len(rule) {
        None
    } else {
        match rule {
            Rule::Identity => match w[0] {
                IRExpr::Update(d) if d == 0 => Some(Seq::empty()),
                IRExpr::Step(d) if d == 0 => Some(Seq::empty()),
                _ => None,
            },
            Rule::FuseUpdates => match (w[0], w[1]) {
                (IRExpr::Update(a), IRExpr::Update(b)) => Some(
                    seq![IRExpr::Update(wrapping_add(a, b))],
                ),
                _ => None,
            },
            Rule::FuseSteps => match (w[0], w[1]) {
                (IRExpr::Step(a), IRExpr::Step(b)) => Some(seq![IRExpr::Step(wrapping_add(a, b))]),
                _ => None,
            },
            Rule::FuseAssign => match (w[0], w[1]) {
                (IRExpr::Assign(a), IRExpr::Update(b)) => Some(
                    seq![IRExpr::Assign(wrapping_add(a, b))],
                ),
                (IRExpr::Update(_), IRExpr::Assign(a)) => Some(seq![IRExpr::Assign(a)]),
                _ => None,
            },
            Rule::ClearCell => match (w[0], w[1], w[2]) {
                (IRExpr::ConditionalStart(_), IRExpr::Update(d), IRExpr::ConditionalEnd(_)) if d
                    == -1 => Some(seq![IRExpr::Assign(0)]),
                _ => None,
            },
            Rule::Multiply => match (w[0], w[1], w[2], w[3], w[4], w[5], w[6]) {
                (
                    IRExpr::Update(a),
                    IRExpr::ConditionalStart(_),
                    IRExpr::Step(sl),
                    IRExpr::Update(b),
                    IRExpr::Step(sr),
                    IRExpr::Update(d),
                    IRExpr::ConditionalEnd(_),
                ) if d == -1 && wrapping_add(sl, sr) == 0 => Some(
                    seq![
                        IRExpr::Step(sl),
                        IRExpr::Update(wrapping_mul(a, b)),
                        IRExpr::Step(sr),
                        IRExpr::Assign(0),
                    ],
                ),
                _ => None,
            },
        }
    }
}

/// `ir` with the `count` instructions from `at` on replaced by `new`.
pub open spec fn spliced(ir: Seq<IRExpr>, at: int, count: int, new: Seq<IRExpr>) -> Seq<IRExpr> {
    ir.subrange(0, at) + new + ir.subrange(at + count, ir.len() as int)
}

/// One sweep of a rule over `ir` from index `i` on. Where the window at `i`
/// matches, the replacement is spliced in and the same index is looked at
/// again; where it does not, the sweep moves one instruction on. It ends
/// when no whole window is left at `i`.
pub open spec fn sweep(rule: Rule, ir: Seq<IRExpr>, i: int) -> Seq<IRExpr>
    decreases ir.len(), ir.len() - i,
{
    let n = window_len(rule) as int;
    if i < 0 || i + n > ir.len() {
        ir
    } else {
        match rewrite(rule, ir.subrange(i, i + n)) {
            Some(new) => sweep(rule, spliced(ir, i, n, new), i),
            None => sweep(rule, ir, i + 1),
        }
    }
}

/// One round: a sweep of each rule, in order, each over the result of the
/// one before.
pub open spec fn rules_round(ir: Seq<IRExpr>) -> Seq<IRExpr> {
    sweep(
        Rule::Multiply,
        sweep(
            Rule::ClearCell,
            sweep(
                Rule::FuseAssign,
                sweep(Rule::FuseSteps, sweep(Rule::FuseUpdates, sweep(Rule::Identity, ir, 0), 0), 0),
                0,
            ),
            0,
        ),
        0,
    )
}

/// A sweep never lengthens a program, and leaves it as long as it was only
/// where it leaves it as it was.
pub proof fn lemma_sweep_shrinks(rule: Rule, ir: Seq<IRExpr>, i: int)
    ensures
        sweep(rule, ir, i).len() <= ir.len(),
        sweep(rule, ir, i).len() == ir.len() ==> sweep(rule, ir, i) == ir,
    decreases ir.len(), ir.len() - i,
{
    let n = window_len(rule) as int;
    if i < 0 || i + n > ir.len() {
    } else {
        match rewrite(rule, ir.subrange(i, i + n)) {
            Some(new) => {
                lemma_sweep_shrinks(rule, spliced(ir, i, n, new), i);
            },
            None => {
                lemma_sweep_shrinks(rule, ir, i + 1);
            },
        }
    }
}

/// A round never lengthens a program, and leaves it as long as it was only
/// where it leaves it as it was.
pub proof fn lemma_round_shrinks(ir: Seq<IRExpr>)
    ensures
        rules_round(ir).len() <= ir.len(),
        rules_round(ir).len() == ir.len() ==> rules_round(ir) == ir,
{
    let a = sweep(Rule::Identity, ir, 0);
    let b = sweep(Rule::FuseUpdates, a, 0);
    let c = sweep(Rule::FuseSteps, b, 0);
    let d = sweep(Rule::FuseAssign, c, 0);
    let e = sweep(Rule::ClearCell, d, 0);
    lemma_sweep_shrinks(Rule::Identity, ir, 0);
    lemma_sweep_shrinks(Rule::FuseUpdates, a, 0);
    lemma_sweep_shrinks(Rule::FuseSteps, b, 0);
    lemma_sweep_shrinks(Rule::FuseAssign, c, 0);
    lemma_sweep_shrinks(Rule::ClearCell, d, 0);
    lemma_sweep_shrinks(Rule::Multiply, e, 0);
}

/// The four rules that fold writes and moves match no window that holds
/// `Input`, `Output` or a loop marker, so they never carry anything across
/// one. The two loop rules match a whole loop, from its start marker to its
/// end marker, with nothing but writes and moves inside.
pub proof fn lemma_rules_respect_barriers(rule: Rule, w: Seq<IRExpr>)
    requires
        rewrite(rule, w).is_some(),
    ensures
        rule != Rule::ClearCell && rule != Rule::Multiply ==> forall|k: int|
            0 <= k < w.len() ==> !is_barrier(#[trigger] w[k]),
        rule == Rule::ClearCell ==> w[0] is ConditionalStart && w[2] is ConditionalEnd
            && !is_barrier(w[1]),
        rule == Rule::Multiply ==> w[1] is ConditionalStart && w[6] is ConditionalEnd && forall|
            k: int,
        |
            0 <= k < 7 && k != 1 && k != 6 ==> !is_barrier(#[trigger] w[k]),
{
}

impl Rule {
    /// The number of instructions in the window that the rule looks at.
    pub fn length(&self) -> (n: usize)
        ensures
            n == window_len(*self),
    {
        match self {
            Rule::Identity => 1,
            Rule::FuseUpdates => 2,
            Rule::FuseSteps => 2,
            Rule::FuseAssign => 2,
            Rule::ClearCell => 3,
            Rule::Multiply => 7,
        }
    }

    /// Tries the rule on the window of `ir` that starts at `at`.
    pub fn replace_at(&self, ir: &Vec<IRExpr>, at: usize) -> (r: Option<Vec<IRExpr>>)
        requires
            at + window_len(*self) <= ir@.len(),
        ensures
            match r {
                Some(new) => rewrite(*self, ir@.subrange(at as int, at + window_len(*self)))
                    == Some(new@),
                None => rewrite(*self, ir@.subrange(at as int, at + window_len(*self))).is_none(),
            },
    {
        let ghost w = ir@.subrange(at as int, at + window_len(*self));
        assert(ir@.len() == ir.len());
        match self {
            Rule::Identity => {
                assert(w[0] == ir@[at as int]);
                match ir[at] {
                    IRExpr::Update(0) => Some(Vec::new()),
                    IRExpr::Step(0) => Some(Vec::new()),
                    _ => None,
                }
            },
            Rule::FuseUpdates => {
                assert(w[0] == ir@[at as int] && w[1] == ir@[at + 1]);
                match (ir[at], ir[at + 1]) {
                    (IRExpr::Update(a), IRExpr::Update(b)) => {
                        let new = vec![IRExpr::Update(a.wrapping_add(b))];
                        assert(new@ =~= seq![IRExpr::Update(wrapping_add(a, b))]);
                        Some(new)
                    },
                    _ => None,
                }
            },
            Rule::FuseSteps => {
                assert(w[0] == ir@[at as int] && w[1] == ir@[at + 1]);
                match (ir[at], ir[at + 1]) {
                    (IRExpr::Step(a), IRExpr::Step(b)) => {
                        let new = vec![IRExpr::Step(a.wrapping_add(b))];
                        assert(new@ =~= seq![IRExpr::Step(wrapping_add(a, b))]);
                        Some(new)
                    },
                    _ => None,
                }
            },
            Rule::FuseAssign => {
                assert(w[0] == ir@[at as int] && w[1] == ir@[at + 1]);
                match (ir[at], ir[at + 1]) {
                    (IRExpr::Assign(a), IRExpr::Update(b)) => {
                        let new = vec![IRExpr::Assign(a.wrapping_add(b))];
                        assert(new@ =~= seq![IRExpr::Assign(wrapping_add(a, b))]);
                        Some(new)
                    },
                    (IRExpr::Update(_), IRExpr::Assign(a)) => {
                        let new = vec![IRExpr::Assign(a)];
                        assert(new@ =~= seq![IRExpr::Assign(a)]);
                        Some(new)
                    },
                    _ => None,
                }
            },
            Rule::ClearCell => {
                assert(w[0] == ir@[at as int] && w[1] == ir@[at + 1] && w[2] == ir@[at + 2]);
                match (ir[at], ir[at + 1], ir[at + 2]) {
                    (IRExpr::ConditionalStart(_), IRExpr::Update(-1), IRExpr::ConditionalEnd(_)) => {
                        let new = vec![IRExpr::Assign(0)];
                        assert(new@ =~= seq![IRExpr::Assign(0)]);
                        Some(new)
                    },
                    _ => None,
                }
            },
            Rule::Multiply => {
                assert(w[0] == ir@[at as int] && w[1] == ir@[at + 1] && w[2] == ir@[at + 2]);
                assert(w[3] == ir@[at + 3] && w[4] == ir@[at + 4] && w[5] == ir@[at + 5]);
                assert(w[6] == ir@[at + 6]);
                match (
                    ir[at],
                    ir[at + 1],
                    ir[at + 2],
                    ir[at + 3],
                    ir[at + 4],
                    ir[at + 5],
                    ir[at + 6],
                ) {
                    (
                        IRExpr::Update(a),
                        IRExpr::ConditionalStart(_),
                        IRExpr::Step(sl),
                        IRExpr::Update(b),
                        IRExpr::Step(sr),
                        IRExpr::Update(-1),
                        IRExpr::ConditionalEnd(_),
                    ) => {
                        if sl.wrapping_add(sr) == 0 {
                            let new = vec![
                                IRExpr::Step(sl),
                                IRExpr::Update(a.wrapping_mul(b)),
                                IRExpr::Step(sr),
                                IRExpr::Assign(0),
                            ];
                            assert(new@ =~= seq![
                                IRExpr::Step(sl),
                                IRExpr::Update(wrapping_mul(a, b)),
                                IRExpr::Step(sr),
                                IRExpr::Assign(0),
                            ]);
                            Some(new)
                        } else {
                            None
                        }
                    },
                    _ => None,
                }
            },
        }
    }
}

/// Replaces the `count` instructions of `ir` from `at` on by `new`.
fn splice(ir: &mut Vec<IRExpr>, at: usize, count: usize, new: &Vec<IRExpr>)
    requires
        at + count <= old(ir)@.len(),
        new@.len() <= count,
    ensures
        final(ir)@ == spliced(old(ir)@, at as int, count as int, new@),
{
    let ghost before = ir@;
    let mut k: usize = 0;
    while k < count
        invariant
            k <= count,
            at + count <= before.len(),
            ir@ == before.subrange(0, at as int) + before.subrange(at + k, before.len() as int),
        decreases count - k,
    {
        ir.remove(at);
        k += 1;
        assert(ir@ =~= before.subrange(0, at as int) + before.subrange(
            at + k,
            before.len() as int,
        ));
    }
    let mut j: usize = new.len();
    while j > 0
        invariant
            j <= new@.len(),
            new@.len() <= count,
            at + count <= before.len(),
            ir@ == before.subrange(0, at as int) + new@.subrange(j as int, new@.len() as int)
                + before.subrange(at + count, before.len() as int),
        decreases j,
    {
        j -= 1;
        ir.insert(at, new[j]);
        assert(ir@ =~= before.subrange(0, at as int) + new@.subrange(j as int, new@.len() as int)
            + before.subrange(at + count, before.len() as int));
    }
    assert(new@.subrange(0, new@.len() as int) =~= new@);
}

/// Sweeps one rule over a program, left to right, and tells whether any
/// window matched. A matched window is replaced on the spot and the scan
/// goes on from the same index, so that a window formed by a replacement is
/// tried at once. A sweep of one of the four rules that fold writes and
/// moves does not change what the program does, and a sweep of the
/// countdown rule does not change what a well-formed program computes. Of
/// the multiplication rule no such thing holds.
pub fn replace(ir: IR, rule: &Rule) -> (out: (IR, bool))
    ensures
        out.0@ == sweep(*rule, ir@, 0),
        out.1 == (out.0@ != ir@),
        out.0@.len() <= ir@.len(),
        well_formed(ir@) ==> well_formed(out.0@),
        folds(*rule) ==> same_meaning(out.0@, ir@),
        *rule == Rule::ClearCell && well_formed(ir@) ==> same_result(out.0@, ir@),
{
    let ghost start = ir@;
    let mut ir = ir;
    let mut i: usize = 0;
    let mut updated = false;
    let n = rule.length();
    proof {
        lemma_sweep_shrinks(*rule, start, 0);
        if well_formed(start) {
            lemma_sweep_well_formed(*rule, start, 0);
        }
        if folds(*rule) {
            lemma_fold_sweep_same_meaning(*rule, start);
        }
        if *rule == Rule::ClearCell && well_formed(start) {
            lemma_clear_sweep_same_result(start, 0);
        }
    }
    while ir.len() >= n && i <= ir.len() - n
        invariant
            n == window_len(*rule),
            sweep(*rule, start, 0) == sweep(*rule, ir@, i as int),
            ir@.len() <= start.len(),
            updated == (ir@.len() < start.len()),
            !updated ==> ir@ == start,
        decreases ir@.len(), ir@.len() - i,
    {
        match rule.replace_at(&ir, i) {
            Some(new) => {
                splice(&mut ir, i, n, &new);
                updated = true;
            },
            None => {
                i += 1;
            },
        }
    }
    (ir, updated)
}

/// One round of the rules: a sweep of each, in order. Tells whether any
/// sweep changed the program. Where the multiplication rule finds no
/// window, what a well-formed program computes is not changed.
pub fn simple_rules(ir: IR) -> (out: (IR, bool))
    ensures
        out.0@ == rules_round(ir@),
        out.1 == (out.0@ != ir@),
        out.0@.len() <= ir@.len(),
        well_formed(ir@) ==> well_formed(out.0@),
        well_formed(ir@) && multiply_idle(ir@) ==> same_result(out.0@, ir@),
{
    let ghost start = ir@;
    let (ir, a) = replace(ir, &Rule::Identity);
    let ghost first = ir@;
    let (ir, b) = replace(ir, &Rule::FuseUpdates);
    let ghost second = ir@;
    let (ir, c) = replace(ir, &Rule::FuseSteps);
    let ghost third = ir@;
    let (ir, d) = replace(ir, &Rule::FuseAssign);
    let ghost fourth = ir@;
    let (ir, e) = replace(ir, &Rule::ClearCell);
    let ghost fifth = ir@;
    let (ir, f) = replace(ir, &Rule::Multiply);
    proof {
        lemma_sweep_shrinks(Rule::Identity, start, 0);
        lemma_sweep_shrinks(Rule::FuseUpdates, first, 0);
        lemma_sweep_shrinks(Rule::FuseSteps, second, 0);
        lemma_sweep_shrinks(Rule::FuseAssign, third, 0);
        lemma_sweep_shrinks(Rule::ClearCell, fourth, 0);
        lemma_sweep_shrinks(Rule::Multiply, fifth, 0);
        if well_formed(start) && multiply_idle(start) {
            lemma_rules_same_result(start);
        }
    }
    (ir, a || b || c || d || e || f)
}

} // verus!

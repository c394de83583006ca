//! Dead-loop elimination: a loop that is reached with its cell known to be
//! zero is never entered, and is removed whole.

use crate::lowering::{IRExpr, IR};
use crate::machine::same_meaning;
use crate::pruning::lemma_pruned_same_meaning;
use crate::nesting::well_formed;
use crate::preserved::lemma_pruned_well_formed;
use vstd::prelude::*;

verus! {

/// What the scan has kept so far, and the id of the loop it is removing, if
/// it is inside one.
pub struct Pruning {
    pub kept: Seq<IRExpr>,
    pub removing: Option<u32>,
}

/// After the instructions kept so far the current cell is known to hold
/// zero: the last of them closes a loop, or assigns zero.
pub open spec fn zero_known(kept: Seq<IRExpr>) -> bool {
    kept.len() > 0 && match kept.last() {
        IRExpr::ConditionalEnd(_) => true,
        IRExpr::Assign(v) => v == 0,
        _ => false,
    }
}

/// The scan's state after one more instruction. Inside a loop that is being
/// removed everything is dropped up to the end marker with that loop's id,
/// whatever loops are nested in between. Outside, a loop start that is
/// reached with a zero cell begins a removal; anything else is kept.
pub open spec fn prune_step(state: Pruning, e: IRExpr) -> Pruning {
    match state.removing {
        Some(r) => if e == IRExpr::ConditionalEnd(r) {
            Pruning { kept: state.kept, removing: None }
        } else {
            state
        },
        None => match e {
            IRExpr::ConditionalStart(id) if zero_known(state.kept) => Pruning {
                kept: state.kept,
                removing: Some(id),
            },
            _ => Pruning { kept: state.kept.push(e), removing: None },
        },
    }
}

/// The scan's state after all of `ir`.
pub open spec fn prune(ir: Seq<IRExpr>) -> Pruning
    decreases ir.len(),
{
    if ir.len() == 0 {
        Pruning { kept: Seq::empty(), removing: None }
    } else {
        prune_step(prune(ir.drop_last()), ir.last())
    }
}

/// `ir` without the loops that are never entered.
pub open spec fn without_dead_loops(ir: Seq<IRExpr>) -> Seq<IRExpr> {
    prune(ir).kept
}

/// The scan keeps no more than it has seen; where it has kept as much, it
/// has kept everything and is not inside a removal.
pub proof fn lemma_prune_shrinks(ir: Seq<IRExpr>)
    ensures
        prune(ir).kept.len() <= ir.len(),
        prune(ir).removing.is_some() ==> prune(ir).kept.len() < ir.len(),
        prune(ir).kept.len() == ir.len() ==> prune(ir).kept == ir,
    decreases ir.len(),
{
    if ir.len() > 0 {
        lemma_prune_shrinks(ir.drop_last());
        if prune(ir).kept.len() == ir.len() {
            assert(ir =~= ir.drop_last().push(ir.last()));
        }
    }
}

/// The scan's state after `more`, taken up in state `state`.
pub open spec fn prune_on(state: Pruning, more: Seq<IRExpr>) -> Pruning
    decreases more.len(),
{
    if more.len() == 0 {
        state
    } else {
        prune_step(prune_on(state, more.drop_last()), more.last())
    }
}

/// What the scan makes of the rest of a program depends on what came
/// before only through the state that it is in.
pub proof fn lemma_prune_concat(first: Seq<IRExpr>, more: Seq<IRExpr>)
    ensures
        prune(first + more) == prune_on(prune(first), more),
    decreases more.len(),
{
    if more.len() == 0 {
        assert(first + more =~= first);
    } else {
        assert((first + more).drop_last() =~= first + more.drop_last());
        lemma_prune_concat(first, more.drop_last());
    }
}

/// Inside a removal the scan drops whatever is not the end marker that it
/// waits for.
pub proof fn lemma_prune_skips(state: Pruning, id: u32, body: Seq<IRExpr>)
    requires
        state.removing == Some(id),
        forall|k: int| 0 <= k < body.len() ==> #[trigger] body[k] != IRExpr::ConditionalEnd(id),
    ensures
        prune_on(state, body) == state,
    decreases body.len(),
{
    if body.len() > 0 {
        let d = body.drop_last();
        assert forall|k: int| 0 <= k < d.len() implies #[trigger] d[k] != IRExpr::ConditionalEnd(
            id,
        ) by {
            assert(d[k] == body[k]);
        }
        lemma_prune_skips(state, id, d);
        assert(body.last() == body[body.len() - 1]);
    }
}

/// A loop that is reached with a zero cell goes whole: where the
/// instructions kept before it end in the end of a loop or in `Assign(0)`,
/// the program with the loop is pruned to what the program without it is
/// pruned to. The body may hold anything, loops too, but the end marker
/// with the loop's own id.
pub proof fn lemma_dead_loop_removed(
    before: Seq<IRExpr>,
    id: u32,
    body: Seq<IRExpr>,
    after: Seq<IRExpr>,
)
    requires
        prune(before).removing.is_none(),
        zero_known(prune(before).kept),
        forall|k: int| 0 <= k < body.len() ==> #[trigger] body[k] != IRExpr::ConditionalEnd(id),
    ensures
        without_dead_loops(
            before + seq![IRExpr::ConditionalStart(id)] + body + seq![IRExpr::ConditionalEnd(id)]
                + after,
        ) == without_dead_loops(before + after),
{
    let open = seq![IRExpr::ConditionalStart(id)];
    let close = seq![IRExpr::ConditionalEnd(id)];
    let inside = Pruning { kept: prune(before).kept, removing: Some(id) };
    lemma_prune_concat(before, open);
    assert(open.drop_last() =~= Seq::<IRExpr>::empty());
    assert(prune_on(prune(before), open.drop_last()) == prune(before));
    assert(prune(before + open) == inside);
    lemma_prune_concat(before + open, body);
    lemma_prune_skips(inside, id, body);
    lemma_prune_concat(before + open + body, close);
    assert(close.drop_last() =~= Seq::<IRExpr>::empty());
    assert(prune_on(inside, close.drop_last()) == inside);
    assert(prune(before + open + body + close) == prune(before));
    lemma_prune_concat(before + open + body + close, after);
    lemma_prune_concat(before, after);
}

/// Removes every loop that is never entered: one whose start marker comes
/// directly after the end of another loop or after `Assign(0)`, among the
/// instructions that are kept. The loop goes with its body and its end
/// marker. Tells whether anything was removed. What a well-formed program
/// does is not changed.
pub fn unreachable_branch(ir: IR) -> (out: (IR, bool))
    ensures
        out.0@ == without_dead_loops(ir@),
        out.1 == (out.0@ != ir@),
        out.0@.len() <= ir@.len(),
        well_formed(ir@) ==> well_formed(out.0@),
        well_formed(ir@) ==> same_meaning(out.0@, ir@),
{
    let mut updated = false;
    let mut new_ir: Vec<IRExpr> = Vec::new();
    let mut remove: Option<u32> = None;
    let mut i: usize = 0;
    while i < ir.len()
        invariant
            i <= ir.len(),
            prune(ir@.take(i as int)) == (Pruning { kept: new_ir@, removing: remove }),
            updated == (new_ir@.len() < i),
        decreases ir.len() - i,
    {
        proof {
            assert(ir@.take(i + 1).drop_last() =~= ir@.take(i as int));
            assert(ir@.take(i + 1).last() == ir@[i as int]);
            lemma_prune_shrinks(ir@.take(i as int));
        }
        let expr = ir[i];
        match remove {
            Some(r) => {
                if expr == IRExpr::ConditionalEnd(r) {
                    remove = None;
                }
            },
            None => {
                let zero = new_ir.len() > 0 && match new_ir[new_ir.len() - 1] {
                    IRExpr::ConditionalEnd(_) => true,
                    IRExpr::Assign(0) => true,
                    _ => false,
                };
                match expr {
                    IRExpr::ConditionalStart(id) if zero => {
                        updated = true;
                        remove = Some(id);
                    },
                    _ => {
                        new_ir.push(expr);
                    },
                }
            },
        }
        i += 1;
    }
    proof {
        assert(ir@.take(i as int) =~= ir@);
        lemma_prune_shrinks(ir@);
        if well_formed(ir@) {
            lemma_pruned_well_formed(ir@);
            lemma_pruned_same_meaning(ir@);
        }
    }
    (new_ir, updated)
}

} // verus!

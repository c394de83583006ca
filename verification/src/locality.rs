//! Access-locality reordering: within each run of instructions between two
//! barriers, the cells are visited once each, from the lowest offset to the
//! highest, instead of in the zig-zag that the source wrote.

use crate::lowering::{IRExpr, IR};
use crate::machine::{lemma_reordered_same_meaning, same_meaning};
use crate::nesting::well_formed;
use crate::preserved::lemma_reordered_well_formed;
use vstd::prelude::*;
use vstd::wrapping::i32_specs::{wrapping_add, wrapping_sub};

verus! {

/// A barrier: an instruction that no write or move may be carried across.
pub open spec fn is_barrier(e: IRExpr) -> bool {
    match e {
        IRExpr::Input | IRExpr::Output | IRExpr::ConditionalStart(_) | IRExpr::ConditionalEnd(
            _,
        ) => true,
        _ => false,
    }
}

/// A write to the cell under the pointer.
pub open spec fn is_write(e: IRExpr) -> bool {
    match e {
        IRExpr::Assign(_) | IRExpr::Update(_) => true,
        _ => false,
    }
}

/// The number of instructions of `p` before its first barrier.
pub open spec fn run_len(p: Seq<IRExpr>) -> nat
    decreases p.len(),
{
    if p.len() == 0 || is_barrier(p[0]) {
        0
    } else {
        1 + run_len(p.skip(1))
    }
}

/// Where the pointer stands after `run`, counted from where it stood before.
pub open spec fn offset_after(run: Seq<IRExpr>) -> i32
    decreases run.len(),
{
    if run.len() == 0 {
        0
    } else {
        match run.last() {
            IRExpr::Step(s) => wrapping_add(offset_after(run.drop_last()), s),
            _ => offset_after(run.drop_last()),
        }
    }
}

/// The writes of `run` in program order, each with the offset it writes at.
pub open spec fn touches(run: Seq<IRExpr>) -> Seq<(i32, IRExpr)>
    decreases run.len(),
{
    if run.len() == 0 {
        Seq::empty()
    } else if is_write(run.last()) {
        touches(run.drop_last()).push((offset_after(run.drop_last()), run.last()))
    } else {
        touches(run.drop_last())
    }
}

/// Where a write at `off` goes into writes that are in offset order: behind
/// the last one that is not to the right of it.
pub open spec fn slot(sorted: Seq<(i32, IRExpr)>, off: i32) -> nat
    decreases sorted.len(),
{
    if sorted.len() == 0 {
        0
    } else if sorted.last().0 <= off {
        sorted.len()
    } else {
        slot(sorted.drop_last(), off)
    }
}

/// The writes in offset order, those at one offset in the order they had.
pub open spec fn by_offset(t: Seq<(i32, IRExpr)>) -> Seq<(i32, IRExpr)>
    decreases t.len(),
{
    if t.len() == 0 {
        Seq::empty()
    } else {
        let sorted = by_offset(t.drop_last());
        sorted.insert(slot(sorted, t.last().0) as int, t.last())
    }
}

/// A move by `d` cells; none where `d` is zero.
pub open spec fn step_by(d: i32) -> Seq<IRExpr> {
    if d == 0 {
        Seq::empty()
    } else {
        seq![IRExpr::Step(d)]
    }
}

/// The instructions that start at offset `from`, make the writes in the
/// order given, moving between them as far as their offsets differ, and end
/// at offset `to`.
pub open spec fn visit(writes: Seq<(i32, IRExpr)>, from: i32, to: i32) -> Seq<IRExpr>
    decreases writes.len(),
{
    if writes.len() == 0 {
        step_by(wrapping_sub(to, from))
    } else {
        step_by(wrapping_sub(writes[0].0, from)) + seq![writes[0].1] + visit(
            writes.skip(1),
            writes[0].0,
            to,
        )
    }
}

/// A barrier-free run in canonical order: its writes by ascending offset,
/// and the pointer left where the run left it.
pub open spec fn reorder_run(run: Seq<IRExpr>) -> Seq<IRExpr> {
    visit(by_offset(touches(run)), 0, offset_after(run))
}

/// A program with each of its runs in canonical order and every barrier in
/// its place.
pub open spec fn reordered(p: Seq<IRExpr>) -> Seq<IRExpr>
    decreases p.len(),
{
    let n = run_len(p) as int;
    if n >= p.len() {
        reorder_run(p)
    } else {
        reorder_run(p.take(n)) + seq![p[n]] + reordered(p.skip(n + 1))
    }
}

/// A stretch without a barrier that ends at a barrier, or at the end of the
/// program, is the program's first run.
pub proof fn lemma_run_len(p: Seq<IRExpr>, n: int)
    requires
        0 <= n <= p.len(),
        forall|j: int| 0 <= j < n ==> !is_barrier(#[trigger] p[j]),
        n == p.len() || is_barrier(p[n]),
    ensures
        run_len(p) == n,
    decreases n,
{
    if n > 0 {
        let q = p.skip(1);
        assert forall|j: int| 0 <= j < n - 1 implies !is_barrier(#[trigger] q[j]) by {
            assert(q[j] == p[j + 1]);
        }
        lemma_run_len(q, n - 1);
    }
}

/// Puts a write at `off` into its place among the writes in offset order.
fn place(pending: &mut Vec<(i32, IRExpr)>, off: i32, e: IRExpr)
    ensures
        final(pending)@ == old(pending)@.insert(slot(old(pending)@, off) as int, (off, e)),
{
    let mut j: usize = pending.len();
    proof {
        assert(pending@.take(j as int) =~= pending@);
    }
    while j > 0 && pending[j - 1].0 > off
        invariant
            j <= pending@.len(),
            pending@ == old(pending)@,
            slot(pending@, off) == slot(pending@.take(j as int), off),
        decreases j,
    {
        proof {
            assert(pending@.take(j as int).drop_last() =~= pending@.take(j - 1));
        }
        j -= 1;
    }
    pending.insert(j, (off, e));
}

/// Writes out one run in canonical order, ending at offset `end`.
fn emit_run(out: &mut Vec<IRExpr>, pending: &Vec<(i32, IRExpr)>, end: i32)
    ensures
        final(out)@ == old(out)@ + visit(pending@, 0, end),
{
    let ghost all = old(out)@ + visit(pending@, 0, end);
    let mut at: i32 = 0;
    let mut k: usize = 0;
    proof {
        assert(pending@.skip(0) =~= pending@);
    }
    while k < pending.len()
        invariant
            k <= pending@.len(),
            all == out@ + visit(pending@.skip(k as int), at, end),
        decreases pending.len() - k,
    {
        let (off, e) = pending[k];
        proof {
            assert(pending@.skip(k as int)[0] == pending@[k as int]);
            assert(pending@.skip(k as int).skip(1) =~= pending@.skip(k + 1));
        }
        let ghost before = out@;
        let d = off.wrapping_sub(at);
        if d != 0 {
            out.push(IRExpr::Step(d));
        }
        out.push(e);
        proof {
            assert(out@ =~= before + step_by(d) + seq![e]);
            assert(all =~= out@ + visit(pending@.skip(k + 1), off, end));
        }
        at = off;
        k += 1;
    }
    let ghost before = out@;
    let d = end.wrapping_sub(at);
    if d != 0 {
        out.push(IRExpr::Step(d));
    }
    proof {
        assert(out@ =~= before + step_by(d));
    }
}

/// Tells whether two programs are the same, instruction for instruction.
pub fn same_program(a: &Vec<IRExpr>, b: &Vec<IRExpr>) -> (same: bool)
    ensures
        same == (a@ == b@),
{
    if a.len() != b.len() {
        return false;
    }
    let mut i: usize = 0;
    while i < a.len()
        invariant
            i <= a.len(),
            a.len() == b.len(),
            a@.take(i as int) == b@.take(i as int),
        decreases a.len() - i,
    {
        if a[i] != b[i] {
            return false;
        }
        assert(a@.take(i + 1) =~= a@.take(i as int).push(a@[i as int]));
        assert(b@.take(i + 1) =~= b@.take(i as int).push(b@[i as int]));
        i += 1;
    }
    assert(a@.take(i as int) =~= a@);
    assert(b@.take(i as int) =~= b@);
    true
}

/// Puts every run of the program into canonical order. A run is a maximal
/// stretch without `Input`, `Output` or a loop marker. Within it the pass
/// follows the pointer from offset zero, notes for each write the offset it
/// writes at, and writes the run out again as one pass over those offsets in
/// ascending order: a move to the lowest, the writes there in their old
/// order, a move to the next, and so on, and at last a move to where the run
/// left the pointer. No move is written where the distance is zero. Offsets
/// wrap as pointer arithmetic does. Tells whether the program changed.
/// What the program does is not changed.
pub fn access_analysis(ir: IR) -> (out: (IR, bool))
    ensures
        out.0@ == reordered(ir@),
        out.1 == (out.0@ != ir@),
        same_meaning(out.0@, ir@),
        well_formed(ir@) ==> well_formed(out.0@),
{
    let mut new_ir: Vec<IRExpr> = Vec::new();
    let mut pending: Vec<(i32, IRExpr)> = Vec::new();
    let mut current_step: i32 = 0;
    let ghost mut start: int = 0;
    let mut i: usize = 0;
    proof {
        assert(ir@.skip(0) =~= ir@);
    }
    while i < ir.len()
        invariant
            0 <= start <= i <= ir.len(),
            forall|j: int| start <= j < i ==> !is_barrier(#[trigger] ir@[j]),
            reordered(ir@) == new_ir@ + reordered(ir@.skip(start)),
            pending@ == by_offset(touches(ir@.subrange(start, i as int))),
            current_step == offset_after(ir@.subrange(start, i as int)),
        decreases ir.len() - i,
    {
        let expr = ir[i];
        proof {
            assert(ir@.subrange(start, i + 1).drop_last() =~= ir@.subrange(start, i as int));
            assert(ir@.subrange(start, i + 1).last() == expr);
        }
        match expr {
            IRExpr::Step(s) => {
                current_step = current_step.wrapping_add(s);
            },
            IRExpr::Assign(_) | IRExpr::Update(_) => {
                proof {
                    let seen = touches(ir@.subrange(start, i as int));
                    let write = (current_step, expr);
                    assert(touches(ir@.subrange(start, i + 1)) == seen.push(write));
                    assert(seen.push(write).drop_last() =~= seen);
                }
                place(&mut pending, current_step, expr);
            },
            IRExpr::Input
            | IRExpr::Output
            | IRExpr::ConditionalStart(_)
            | IRExpr::ConditionalEnd(_) => {
                proof {
                    let rest = ir@.skip(start);
                    assert forall|j: int| 0 <= j < i - start implies !is_barrier(
                        #[trigger] rest[j],
                    ) by {
                        assert(rest[j] == ir@[start + j]);
                    }
                    lemma_run_len(rest, i - start);
                    assert(rest.take(i - start) =~= ir@.subrange(start, i as int));
                    assert(rest.skip(i - start + 1) =~= ir@.skip(i + 1));
                }
                emit_run(&mut new_ir, &pending, current_step);
                new_ir.push(expr);
                pending = Vec::new();
                current_step = 0;
                proof {
                    start = i + 1;
                    assert(ir@.subrange(start, start) =~= Seq::<IRExpr>::empty());
                    assert(reordered(ir@) =~= new_ir@ + reordered(ir@.skip(start)));
                }
            },
        }
        i += 1;
    }
    proof {
        let rest = ir@.skip(start);
        assert forall|j: int| 0 <= j < i - start implies !is_barrier(#[trigger] rest[j]) by {
            assert(rest[j] == ir@[start + j]);
        }
        lemma_run_len(rest, i - start);
        assert(ir@.subrange(start, i as int) =~= rest);
        if well_formed(ir@) {
            lemma_reordered_well_formed(ir@);
        }
        lemma_reordered_same_meaning(ir@);
    }
    emit_run(&mut new_ir, &pending, current_step);
    let changed = !same_program(&new_ir, &ir);
    (new_ir, changed)
}

} // verus!

//! What a run of writes and moves does to the tape, and the passes that
//! leave it undone: reordering a run, and folding writes and moves.
//!
//! Cells hold bytes and the pointer wraps, so a write adds modulo 256 and a
//! move adds modulo the width of an offset.

use crate::canonical::{barrier_free, lemma_reorder_run, lemma_slot};
use crate::locality::{by_offset, is_write, offset_after, reorder_run, slot, touches};
use crate::lowering::IRExpr;
use crate::peephole::{rewrite, Rule};
use vstd::prelude::*;
use vstd::wrapping::i32_specs::wrapping_add;

verus! {

/// The tape: the byte in every cell, and where the pointer stands.
pub struct Tape {
    pub cells: Map<i32, u8>,
    pub pointer: i32,
}

/// The tape has a byte for every cell.
pub open spec fn whole(t: Tape) -> bool {
    forall|at: i32| t.cells.dom().contains(at)
}

/// The byte under the pointer.
pub open spec fn current(t: Tape) -> u8 {
    t.cells[t.pointer]
}

/// The byte that a write leaves in a cell that held `before`.
pub open spec fn written(e: IRExpr, before: u8) -> u8 {
    match e {
        IRExpr::Assign(v) => (v as int % 256) as u8,
        IRExpr::Update(d) => ((before as int + d as int) % 256) as u8,
        _ => before,
    }
}

/// The cells after the write `e` at `at`.
pub open spec fn write_at(cells: Map<i32, u8>, at: i32, e: IRExpr) -> Map<i32, u8> {
    cells.insert(at, written(e, cells[at]))
}

/// The tape after one instruction of a run.
pub open spec fn effect_step(t: Tape, e: IRExpr) -> Tape {
    match e {
        IRExpr::Step(s) => Tape { cells: t.cells, pointer: wrapping_add(t.pointer, s) },
        IRExpr::Assign(_) | IRExpr::Update(_) => Tape {
            cells: write_at(t.cells, t.pointer, e),
            pointer: t.pointer,
        },
        _ => t,
    }
}

/// The tape after a run of writes and moves.
pub open spec fn effect(t: Tape, run: Seq<IRExpr>) -> Tape
    decreases run.len(),
{
    if run.len() == 0 {
        t
    } else {
        effect_step(effect(t, run.drop_last()), run.last())
    }
}

/// The cells after the writes `w`, in order, each at its offset from
/// `base`.
pub open spec fn write_all(cells: Map<i32, u8>, base: i32, w: Seq<(i32, IRExpr)>) -> Map<i32, u8>
    decreases w.len(),
{
    if w.len() == 0 {
        cells
    } else {
        write_at(write_all(cells, base, w.drop_last()), wrapping_add(base, w.last().0), w.last().1)
    }
}

/// The effect of a concatenation is the effect of its parts in turn.
pub proof fn lemma_effect_concat(t: Tape, a: Seq<IRExpr>, b: Seq<IRExpr>)
    ensures
        effect(t, a + b) == effect(effect(t, a), b),
    decreases b.len(),
{
    if b.len() == 0 {
        assert(a + b =~= a);
    } else {
        assert((a + b).drop_last() =~= a + b.drop_last());
        lemma_effect_concat(t, a, b.drop_last());
    }
}

/// A run does to the tape what its writes do, each at the offset it is
/// made at, and moves the pointer by the run's way.
pub proof fn lemma_effect_is_writes(t: Tape, run: Seq<IRExpr>)
    requires
        barrier_free(run),
    ensures
        effect(t, run).cells == write_all(t.cells, t.pointer, touches(run)),
        effect(t, run).pointer == wrapping_add(t.pointer, offset_after(run)),
    decreases run.len(),
{
    if run.len() > 0 {
        let d = run.drop_last();
        assert forall|i: int| 0 <= i < d.len() implies !crate::locality::is_barrier(
            #[trigger] d[i],
        ) by {
            assert(d[i] == run[i]);
        }
        lemma_effect_is_writes(t, d);
        assert(!crate::locality::is_barrier(run[run.len() - 1]));
        if is_write(run.last()) {
            let seen = touches(d);
            assert(touches(run) == seen.push((offset_after(d), run.last())));
            assert(touches(run).drop_last() =~= seen);
        }
    }
}

/// Two writes to different cells can change places.
pub proof fn lemma_writes_commute(cells: Map<i32, u8>, a: i32, x: IRExpr, b: i32, y: IRExpr)
    requires
        a != b,
    ensures
        write_at(write_at(cells, a, x), b, y) == write_at(write_at(cells, b, y), a, x),
{
    assert(write_at(write_at(cells, a, x), b, y) =~= write_at(write_at(cells, b, y), a, x));
}

/// A write that is put in before writes to other cells does what it would
/// do after them.
pub proof fn lemma_write_inserted(
    cells: Map<i32, u8>,
    base: i32,
    s: Seq<(i32, IRExpr)>,
    k: int,
    x: (i32, IRExpr),
)
    requires
        0 <= k <= s.len(),
        forall|i: int| k <= i < s.len() ==> (#[trigger] s[i]).0 != x.0,
    ensures
        write_all(cells, base, s.insert(k, x)) == write_at(
            write_all(cells, base, s),
            wrapping_add(base, x.0),
            x.1,
        ),
    decreases s.len() - k,
{
    if k == s.len() {
        assert(s.insert(k, x) =~= s.push(x));
        assert(s.push(x).drop_last() =~= s);
    } else {
        let d = s.drop_last();
        let y = s.last();
        assert(s.insert(k, x).drop_last() =~= d.insert(k, x));
        assert(s.insert(k, x).last() == y);
        assert forall|i: int| k <= i < d.len() implies (#[trigger] d[i]).0 != x.0 by {
            assert(d[i] == s[i]);
        }
        lemma_write_inserted(cells, base, d, k, x);
        assert(s[s.len() - 1].0 != x.0);
        lemma_writes_commute(
            write_all(cells, base, d),
            wrapping_add(base, x.0),
            x.1,
            wrapping_add(base, y.0),
            y.1,
        );
    }
}

/// Writes in offset order do what they did in the order they were made in.
pub proof fn lemma_sorted_writes(cells: Map<i32, u8>, base: i32, t: Seq<(i32, IRExpr)>)
    ensures
        write_all(cells, base, by_offset(t)) == write_all(cells, base, t),
    decreases t.len(),
{
    if t.len() > 0 {
        let s = by_offset(t.drop_last());
        let x = t.last();
        lemma_sorted_writes(cells, base, t.drop_last());
        lemma_slot(s, x.0);
        lemma_write_inserted(cells, base, s, slot(s, x.0) as int, x);
    }
}

/// A run in canonical order does to the tape what the run did: every cell
/// holds the same byte after it, and the pointer stands where it stood.
pub proof fn lemma_reorder_keeps_effect(t: Tape, run: Seq<IRExpr>)
    requires
        barrier_free(run),
    ensures
        effect(t, reorder_run(run)) == effect(t, run),
{
    lemma_reorder_run(run);
    lemma_effect_is_writes(t, run);
    lemma_effect_is_writes(t, reorder_run(run));
    lemma_sorted_writes(t.cells, t.pointer, touches(run));
}

/// A rule that folds writes and moves: not one of the two loop rules.
pub open spec fn folds(rule: Rule) -> bool {
    rule != Rule::ClearCell && rule != Rule::Multiply
}

/// The effect of one instruction.
pub proof fn lemma_effect_single(t: Tape, x: IRExpr)
    ensures
        effect(t, seq![x]) == effect_step(t, x),
{
    let s = seq![x];
    assert(s.drop_last() =~= Seq::<IRExpr>::empty());
    assert(effect(t, s.drop_last()) == t);
    assert(s.last() == x);
}

/// The effect of two instructions.
pub proof fn lemma_effect_pair(t: Tape, x: IRExpr, y: IRExpr)
    ensures
        effect(t, seq![x, y]) == effect_step(effect_step(t, x), y),
{
    let s = seq![x, y];
    assert(s.drop_last() =~= seq![x]);
    assert(s.last() == y);
    lemma_effect_single(t, x);
}

/// Adding to a byte twice is adding the wrapped sum once; adding to a byte
/// that was assigned is assigning the wrapped sum; adding zero does
/// nothing.
pub proof fn lemma_byte_sums(x: u8, a: i32, b: i32)
    ensures
        written(IRExpr::Update(b), written(IRExpr::Update(a), x)) == written(
            IRExpr::Update(wrapping_add(a, b)),
            x,
        ),
        written(IRExpr::Update(b), written(IRExpr::Assign(a), x)) == written(
            IRExpr::Assign(wrapping_add(a, b)),
            x,
        ),
        written(IRExpr::Update(0), x) == x,
{
    let s = wrapping_add(a, b) as int;
    assert(s == a + b || s == a + b - 0x1_0000_0000 || s == a + b + 0x1_0000_0000);
    let xa = (x as int + a as int) % 256;
    assert((xa + b as int) % 256 == (x as int + s) % 256);
    let av = a as int % 256;
    assert((av + b as int) % 256 == s % 256);
}

/// What a folding rule puts in place of a window does to the tape what the
/// window did.
pub proof fn lemma_fold_keeps_effect(rule: Rule, w: Seq<IRExpr>, t: Tape)
    requires
        whole(t),
        folds(rule),
        rewrite(rule, w).is_some(),
    ensures
        effect(t, rewrite(rule, w).unwrap()) == effect(t, w),
{
    let new = rewrite(rule, w).unwrap();
    let at = t.pointer;
    let old = t.cells[at];
    assert(t.cells.dom().contains(at));
    match rule {
        Rule::Identity => {
            assert(w =~= seq![w[0]]);
            lemma_effect_single(t, w[0]);
            lemma_byte_sums(old, 0, 0);
            assert(effect_step(t, w[0]).cells =~= t.cells);
        },
        Rule::FuseSteps => {
            assert(w =~= seq![w[0], w[1]]);
            assert(new =~= seq![new[0]]);
            lemma_effect_pair(t, w[0], w[1]);
            lemma_effect_single(t, new[0]);
        },
        Rule::FuseUpdates => {
            assert(w =~= seq![w[0], w[1]]);
            assert(new =~= seq![new[0]]);
            lemma_effect_pair(t, w[0], w[1]);
            lemma_effect_single(t, new[0]);
            lemma_byte_sums(old, w[0]->Update_0, w[1]->Update_0);
            assert(effect(t, new).cells =~= effect(t, w).cells);
        },
        _ => {
            assert(w =~= seq![w[0], w[1]]);
            assert(new =~= seq![new[0]]);
            lemma_effect_pair(t, w[0], w[1]);
            lemma_effect_single(t, new[0]);
            if w[0] is Assign {
                lemma_byte_sums(old, w[0]->Assign_0, w[1]->Update_0);
            }
            assert(effect(t, new).cells =~= effect(t, w).cells);
        },
    }
}

} // verus!

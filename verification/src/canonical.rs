//! What holds of a program once its runs are in canonical order: the order
//! is stable under a second pass, its moves are tidy, and nothing but moves
//! was added or dropped.

use crate::locality::{
    by_offset, is_barrier, is_write, offset_after, reorder_run, reordered, run_len, slot, step_by,
    touches, visit,
};
use crate::lowering::IRExpr;
use crate::shape::{
    lemma_solid_concat, lemma_solid_single, lemma_tidy_join, solid_count, tidy_steps,
};
use vstd::prelude::*;
use vstd::wrapping::i32_specs::{wrapping_add, wrapping_sub};

verus! {

/// The writes stand in ascending order of their offsets.
pub open spec fn in_order(s: Seq<(i32, IRExpr)>) -> bool {
    forall|i: int, j: int| 0 <= i < j < s.len() ==> s[i].0 <= s[j].0
}

/// Every entry is a write.
pub open spec fn all_writes(s: Seq<(i32, IRExpr)>) -> bool {
    forall|i: int| 0 <= i < s.len() ==> is_write((#[trigger] s[i]).1)
}

/// No instruction of `p` is a barrier.
pub open spec fn barrier_free(p: Seq<IRExpr>) -> bool {
    forall|i: int| 0 <= i < p.len() ==> !is_barrier(#[trigger] p[i])
}

/// The writes with every offset moved up by `d`.
pub open spec fn shifted(t: Seq<(i32, IRExpr)>, d: i32) -> Seq<(i32, IRExpr)> {
    Seq::new(t.len(), |i: int| (wrapping_add(d, t[i].0), t[i].1))
}

/// The writes with every offset counted from `from`.
pub open spec fn rebased(t: Seq<(i32, IRExpr)>, from: i32) -> Seq<(i32, IRExpr)> {
    Seq::new(t.len(), |i: int| (wrapping_sub(t[i].0, from), t[i].1))
}

/// The slot of an offset lies behind every write that is not to its right
/// and before every write that is.
pub proof fn lemma_slot(sorted: Seq<(i32, IRExpr)>, off: i32)
    ensures
        slot(sorted, off) <= sorted.len(),
        forall|i: int| slot(sorted, off) <= i < sorted.len() ==> (#[trigger] sorted[i]).0 > off,
        slot(sorted, off) > 0 ==> sorted[slot(sorted, off) - 1].0 <= off,
    decreases sorted.len(),
{
    if sorted.len() > 0 && sorted.last().0 > off {
        let d = sorted.drop_last();
        lemma_slot(d, off);
        assert forall|i: int| slot(sorted, off) <= i < sorted.len() implies (
        #[trigger] sorted[i]).0 > off by {
            if i < d.len() {
                assert(sorted[i] == d[i]);
            }
        }
    }
}

/// Sorting keeps every write, puts them in ascending order, and brings in
/// nothing that is not a write.
pub proof fn lemma_by_offset(t: Seq<(i32, IRExpr)>)
    ensures
        by_offset(t).len() == t.len(),
        in_order(by_offset(t)),
        all_writes(t) ==> all_writes(by_offset(t)),
    decreases t.len(),
{
    if t.len() > 0 {
        let d = t.drop_last();
        let s = by_offset(d);
        let x = t.last();
        let k = slot(s, x.0) as int;
        lemma_by_offset(d);
        lemma_slot(s, x.0);
        let r = s.insert(k, x);
        assert forall|i: int, j: int| 0 <= i < j < r.len() implies r[i].0 <= r[j].0 by {
            if k > 0 {
                assert(s[k - 1].0 <= x.0);
            }
            if i < k && j == k {
                assert(r[i] == s[i]);
                if i < k - 1 {
                    assert(s[i].0 <= s[k - 1].0);
                }
            } else if i < k && j < k {
                assert(r[i] == s[i] && r[j] == s[j]);
            } else if i < k && j > k {
                assert(r[i] == s[i] && r[j] == s[j - 1]);
            } else if i == k {
                assert(r[j] == s[j - 1]);
                assert(s[j - 1].0 > x.0);
            } else {
                assert(r[i] == s[i - 1] && r[j] == s[j - 1]);
            }
        }
        if all_writes(t) {
            assert forall|i: int| 0 <= i < d.len() implies is_write((#[trigger] d[i]).1) by {
                assert(d[i] == t[i]);
            }
            assert forall|i: int| 0 <= i < r.len() implies is_write((#[trigger] r[i]).1) by {
                if i < k {
                    assert(r[i] == s[i]);
                } else if i == k {
                    assert(r[i] == t[t.len() - 1]);
                } else {
                    assert(r[i] == s[i - 1]);
                }
            }
        }
    }
}

/// Writes that are in order already are sorted into themselves.
pub proof fn lemma_by_offset_fixed(s: Seq<(i32, IRExpr)>)
    requires
        in_order(s),
    ensures
        by_offset(s) == s,
    decreases s.len(),
{
    if s.len() > 0 {
        let d = s.drop_last();
        assert forall|i: int, j: int| 0 <= i < j < d.len() implies d[i].0 <= d[j].0 by {
            assert(d[i] == s[i] && d[j] == s[j]);
        }
        lemma_by_offset_fixed(d);
        if d.len() > 0 {
            assert(d.last() == s[s.len() - 2]);
            assert(s[s.len() - 2].0 <= s[s.len() - 1].0);
        }
        assert(slot(d, s.last().0) == d.len());
        assert(d.insert(d.len() as int, s.last()) =~= s);
    }
}

/// The pointer's way over a concatenation is the sum of the two ways.
pub proof fn lemma_offset_concat(a: Seq<IRExpr>, b: Seq<IRExpr>)
    ensures
        offset_after(a + b) == wrapping_add(offset_after(a), offset_after(b)),
    decreases b.len(),
{
    if b.len() == 0 {
        assert(a + b =~= a);
    } else {
        assert((a + b).drop_last() =~= a + b.drop_last());
        lemma_offset_concat(a, b.drop_last());
    }
}

/// The writes of a concatenation are those of the first part, then those of
/// the second at the offsets that the first part's way moves them to.
pub proof fn lemma_touches_concat(a: Seq<IRExpr>, b: Seq<IRExpr>)
    ensures
        touches(a + b) == touches(a) + shifted(touches(b), offset_after(a)),
    decreases b.len(),
{
    if b.len() == 0 {
        assert(a + b =~= a);
        assert(touches(a) =~= touches(a) + shifted(touches(b), offset_after(a)));
    } else {
        assert((a + b).drop_last() =~= a + b.drop_last());
        lemma_touches_concat(a, b.drop_last());
        lemma_offset_concat(a, b.drop_last());
        assert(touches(a + b) =~= touches(a) + shifted(touches(b), offset_after(a)));
    }
}

/// The writes of a run are writes, and in a run without barriers they are
/// all that is not a move.
pub proof fn lemma_touches_writes(run: Seq<IRExpr>)
    ensures
        all_writes(touches(run)),
        barrier_free(run) ==> touches(run).len() == solid_count(run),
    decreases run.len(),
{
    if run.len() > 0 {
        let d = run.drop_last();
        lemma_touches_writes(d);
        if barrier_free(run) {
            assert forall|i: int| 0 <= i < d.len() implies !is_barrier(#[trigger] d[i]) by {
                assert(d[i] == run[i]);
            }
            assert(!is_barrier(run[run.len() - 1]));
        }
    }
}

/// A move by `d`, written only where `d` is not zero, makes no write, leaves
/// the pointer `d` cells on, and is tidy.
pub proof fn lemma_step_by(d: i32)
    ensures
        touches(step_by(d)) == Seq::<(i32, IRExpr)>::empty(),
        offset_after(step_by(d)) == d,
        tidy_steps(step_by(d)),
        barrier_free(step_by(d)),
        solid_count(step_by(d)) == 0,
{
    let h = step_by(d);
    assert(touches(Seq::<IRExpr>::empty()) == Seq::<(i32, IRExpr)>::empty());
    assert(offset_after(Seq::<IRExpr>::empty()) == 0);
    assert(solid_count(Seq::<IRExpr>::empty()) == 0);
    if d != 0 {
        assert(h.drop_last() =~= Seq::<IRExpr>::empty());
        assert(h.last() == IRExpr::Step(d));
    }
}

/// The visit of writes, all of them writes, makes exactly those writes, at
/// their offsets counted from where it starts, ends where it is told to,
/// and is tidy and free of barriers.
pub proof fn lemma_visit(writes: Seq<(i32, IRExpr)>, from: i32, to: i32)
    requires
        all_writes(writes),
    ensures
        touches(visit(writes, from, to)) == rebased(writes, from),
        offset_after(visit(writes, from, to)) == wrapping_sub(to, from),
        tidy_steps(visit(writes, from, to)),
        barrier_free(visit(writes, from, to)),
        solid_count(visit(writes, from, to)) == writes.len(),
    decreases writes.len(),
{
    let v = visit(writes, from, to);
    if writes.len() == 0 {
        lemma_step_by(wrapping_sub(to, from));
        assert(touches(v) =~= rebased(writes, from));
    } else {
        let at = writes[0].0;
        let w = writes[0].1;
        let d = wrapping_sub(at, from);
        let h = step_by(d);
        let rest = writes.skip(1);
        let tail = visit(rest, at, to);
        assert forall|i: int| 0 <= i < rest.len() implies is_write((#[trigger] rest[i]).1) by {
            assert(rest[i] == writes[i + 1]);
        }
        assert(is_write(writes[0].1));
        lemma_visit(rest, at, to);
        lemma_step_by(d);
        let head = h + seq![w];
        assert(head.drop_last() =~= h);
        assert(head.last() == w);
        assert(touches(head) == touches(h).push((d, w)));
        assert(offset_after(head) == d);
        assert(v =~= head + tail);
        lemma_touches_concat(head, tail);
        lemma_offset_concat(head, tail);
        assert(touches(v) =~= rebased(writes, from)) by {
            let lhs = touches(head) + shifted(touches(tail), d);
            assert(lhs.len() == writes.len());
            assert forall|i: int| 0 <= i < writes.len() implies lhs[i] == rebased(writes, from)[i] by {
                if i > 0 {
                    assert(lhs[i] == shifted(rebased(rest, at), d)[i - 1]);
                    assert(rest[i - 1] == writes[i]);
                }
            }
        }
        lemma_tidy_join(h, w, tail);
        assert forall|i: int| 0 <= i < v.len() implies !is_barrier(#[trigger] v[i]) by {
            if i < h.len() {
                assert(v[i] == h[i]);
            } else if i == h.len() {
                assert(v[i] == w);
            } else {
                assert(v[i] == tail[i - h.len() - 1]);
            }
        }
        lemma_solid_concat(h, seq![w]);
        lemma_solid_single(w);
        lemma_solid_concat(head, tail);
    }
}

/// A run without barriers, once in canonical order, makes the writes it
/// made before, now in ascending order of their offsets and those at one
/// offset in their old order, and leaves the pointer where it left it
/// before. It stays as it is under a second reordering, its moves are tidy,
/// and it holds no barrier.
pub proof fn lemma_reorder_run(run: Seq<IRExpr>)
    requires
        barrier_free(run),
    ensures
        touches(reorder_run(run)) == by_offset(touches(run)),
        in_order(touches(reorder_run(run))),
        offset_after(reorder_run(run)) == offset_after(run),
        reorder_run(reorder_run(run)) == reorder_run(run),
        tidy_steps(reorder_run(run)),
        barrier_free(reorder_run(run)),
        solid_count(reorder_run(run)) == solid_count(run),
{
    let t = touches(run);
    let s = by_offset(t);
    let e = offset_after(run);
    lemma_touches_writes(run);
    lemma_by_offset(t);
    lemma_visit(s, 0, e);
    assert(rebased(s, 0) =~= s);
    lemma_by_offset_fixed(s);
}

/// The first run ends at the program's end or at its first barrier.
pub proof fn lemma_first_run(p: Seq<IRExpr>)
    ensures
        run_len(p) <= p.len(),
        barrier_free(p.take(run_len(p) as int)),
        run_len(p) < p.len() ==> is_barrier(p[run_len(p) as int]),
    decreases p.len(),
{
    if p.len() == 0 || is_barrier(p[0]) {
    } else {
        let q = p.skip(1);
        lemma_first_run(q);
        let n = run_len(p) as int;
        assert forall|i: int| 0 <= i < n implies !is_barrier(#[trigger] p.take(n)[i]) by {
            if i > 0 {
                assert(p.take(n)[i] == q.take(n - 1)[i - 1]);
            }
        }
        if n < p.len() {
            assert(p[n] == q[n - 1]);
        }
    }
}

/// Reordering a reordered program changes nothing; a reordered program has
/// tidy moves and as many instructions that are not moves as before.
pub proof fn lemma_reordered(p: Seq<IRExpr>)
    ensures
        reordered(reordered(p)) == reordered(p),
        tidy_steps(reordered(p)),
        solid_count(reordered(p)) == solid_count(p),
    decreases p.len(),
{
    let n = run_len(p) as int;
    lemma_first_run(p);
    if n >= p.len() {
        assert(p.take(n) =~= p);
        lemma_reorder_run(p);
        let q = reorder_run(p);
        crate::locality::lemma_run_len(q, q.len() as int);
    } else {
        let run = p.take(n);
        let b = p[n];
        let rest = p.skip(n + 1);
        let q1 = reorder_run(run);
        let q2 = reordered(rest);
        let q = q1 + seq![b] + q2;
        lemma_reorder_run(run);
        lemma_reordered(rest);
        let m = q1.len() as int;
        assert forall|j: int| 0 <= j < m implies !is_barrier(#[trigger] q[j]) by {
            assert(q[j] == q1[j]);
        }
        assert(q[m] == b);
        crate::locality::lemma_run_len(q, m);
        assert(q.take(m) =~= q1);
        assert(q.skip(m + 1) =~= q2);
        lemma_tidy_join(q1, b, q2);
        assert(p =~= run + seq![b] + rest);
        lemma_solid_concat(run, seq![b]);
        lemma_solid_concat(run + seq![b], rest);
        lemma_solid_concat(q1, seq![b]);
        lemma_solid_concat(q1 + seq![b], q2);
    }
}

/// Reordering never carries anything across a barrier: the part of a
/// program before a barrier and the part after it are reordered each for
/// itself, and the barrier stays between them.
pub proof fn lemma_reordered_around_barrier(a: Seq<IRExpr>, b: IRExpr, c: Seq<IRExpr>)
    requires
        is_barrier(b),
    ensures
        reordered(a + seq![b] + c) == reordered(a) + seq![b] + reordered(c),
    decreases a.len(),
{
    let p = a + seq![b] + c;
    let n = run_len(a) as int;
    lemma_first_run(a);
    assert forall|j: int| 0 <= j < n implies !is_barrier(#[trigger] p[j]) by {
        assert(p[j] == a.take(n)[j]);
    }
    if n == a.len() {
        assert(p[n] == b);
        crate::locality::lemma_run_len(p, n);
        assert(p.take(n) =~= a);
        assert(p.skip(n + 1) =~= c);
    } else {
        assert(p[n] == a[n]);
        crate::locality::lemma_run_len(p, n);
        let rest = a.skip(n + 1);
        assert(p.take(n) =~= a.take(n));
        assert(p.skip(n + 1) =~= rest + seq![b] + c);
        lemma_reordered_around_barrier(rest, b, c);
        assert(reordered(p) =~= reordered(a) + seq![b] + reordered(c));
    }
}

} // verus!

//! What a whole program does: the machine that runs it, with its tape, the
//! bytes it has yet to read and the bytes it has written, and the proof
//! that reordering changes nothing of what a program does.

use crate::canonical::{
    barrier_free, lemma_first_run, lemma_reorder_run, lemma_reordered_around_barrier,
};
use crate::effect::{
    current, effect, effect_step, lemma_effect_concat, lemma_effect_single,
    lemma_reorder_keeps_effect, whole, Tape,
};
use crate::locality::{is_barrier, reorder_run, reordered, run_len};
use crate::lowering::IRExpr;
use vstd::prelude::*;

verus! {

/// The machine: the tape, the input that is left, and the output so far.
pub struct Machine {
    pub tape: Tape,
    pub input: Seq<u8>,
    pub output: Seq<u8>,
}

/// The machine after one instruction that is not a loop marker. A read
/// with no input left does not come back.
pub open spec fn perform(m: Machine, e: IRExpr) -> Option<Machine> {
    match e {
        IRExpr::Input => if m.input.len() == 0 {
            None
        } else {
            Some(
                Machine {
                    tape: Tape {
                        cells: m.tape.cells.insert(m.tape.pointer, m.input[0]),
                        pointer: m.tape.pointer,
                    },
                    input: m.input.skip(1),
                    output: m.output,
                },
            )
        },
        IRExpr::Output => Some(
            Machine { tape: m.tape, input: m.input, output: m.output.push(current(m.tape)) },
        ),
        _ => Some(Machine { tape: effect_step(m.tape, e), input: m.input, output: m.output }),
    }
}

/// The number of instructions of `p` before the first end marker of loop
/// `id`.
pub open spec fn first_end(p: Seq<IRExpr>, id: u32) -> nat
    decreases p.len(),
{
    if p.len() == 0 || p[0] == IRExpr::ConditionalEnd(id) {
        0
    } else {
        1 + first_end(p.skip(1), id)
    }
}

/// The body of the loop that `p` starts with: what lies between its start
/// marker and the first end marker with its id.
pub open spec fn loop_body(p: Seq<IRExpr>, id: u32) -> Seq<IRExpr> {
    p.skip(1).take(first_end(p.skip(1), id) as int)
}

/// What follows the loop that `p` starts with.
pub open spec fn loop_rest(p: Seq<IRExpr>, id: u32) -> Seq<IRExpr> {
    let k = first_end(p.skip(1), id) as int;
    if k + 2 <= p.len() {
        p.skip(k + 2)
    } else {
        Seq::empty()
    }
}

/// The length of the body is within the program.
pub proof fn lemma_first_end(p: Seq<IRExpr>, id: u32)
    ensures
        first_end(p, id) <= p.len(),
        forall|i: int| 0 <= i < first_end(p, id) ==> #[trigger] p[i] != IRExpr::ConditionalEnd(id),
        first_end(p, id) < p.len() ==> p[first_end(p, id) as int] == IRExpr::ConditionalEnd(id),
    decreases p.len(),
{
    if p.len() == 0 || p[0] == IRExpr::ConditionalEnd(id) {
    } else {
        let q = p.skip(1);
        lemma_first_end(q, id);
        let n = first_end(p, id) as int;
        assert forall|i: int| 0 <= i < n implies #[trigger] p[i] != IRExpr::ConditionalEnd(id) by {
            if i > 0 {
                assert(p[i] == q[i - 1]);
            }
        }
        if n < p.len() {
            assert(p[n] == q[n - 1]);
        }
    }
}

/// A stretch without the end marker that ends at one, or at the end of
/// the program, is what comes before the first end marker.
pub proof fn lemma_first_end_is(p: Seq<IRExpr>, id: u32, n: int)
    requires
        0 <= n <= p.len(),
        forall|i: int| 0 <= i < n ==> #[trigger] p[i] != IRExpr::ConditionalEnd(id),
        n == p.len() || p[n] == IRExpr::ConditionalEnd(id),
    ensures
        first_end(p, id) == n,
    decreases n,
{
    if n > 0 {
        let q = p.skip(1);
        assert forall|i: int| 0 <= i < n - 1 implies #[trigger] q[i] != IRExpr::ConditionalEnd(
            id,
        ) by {
            assert(q[i] == p[i + 1]);
        }
        lemma_first_end_is(q, id, n - 1);
    }
}

/// The machine after the program `p`, or `None` where it has not finished
/// within `fuel` turns of nested loops, or waits for input that does not
/// come. A loop is tested before every turn; a start marker's loop ends at
/// the first end marker with its id.
pub open spec fn exec(p: Seq<IRExpr>, m: Machine, fuel: nat) -> Option<Machine>
    decreases fuel, p.len(),
{
    if p.len() == 0 {
        Some(m)
    } else {
        match p[0] {
            IRExpr::ConditionalStart(id) => {
                if current(m.tape) == 0 {
                    exec(loop_rest(p, id), m, fuel)
                } else if fuel == 0 {
                    None
                } else {
                    match exec(loop_body(p, id), m, (fuel - 1) as nat) {
                        None => None,
                        Some(turned) => exec(p, turned, (fuel - 1) as nat),
                    }
                }
            },
            IRExpr::ConditionalEnd(_) => exec(p.skip(1), m, fuel),
            e => match perform(m, e) {
                None => None,
                Some(next) => exec(p.skip(1), next, fuel),
            },
        }
    }
}

/// Two programs do the same: from every machine with a byte in every
/// cell, and with any fuel, they end in the same machine or neither ends.
pub open spec fn same_meaning(a: Seq<IRExpr>, b: Seq<IRExpr>) -> bool {
    forall|m: Machine, fuel: nat| whole(m.tape) ==> #[trigger] exec(a, m, fuel) == exec(b, m, fuel)
}

/// The machine with another tape.
pub open spec fn with_tape(m: Machine, tape: Tape) -> Machine {
    Machine { tape, input: m.input, output: m.output }
}

/// A run at the head of a program does its effect on the tape, and the
/// rest of the program goes on from there.
pub proof fn lemma_exec_run(run: Seq<IRExpr>, rest: Seq<IRExpr>, m: Machine, fuel: nat)
    requires
        barrier_free(run),
    ensures
        exec(run + rest, m, fuel) == exec(rest, with_tape(m, effect(m.tape, run)), fuel),
    decreases run.len(),
{
    if run.len() == 0 {
        assert(run + rest =~= rest);
    } else {
        let p = run + rest;
        let head = run[0];
        let tail = run.skip(1);
        assert(p[0] == head);
        assert(!is_barrier(head));
        assert(p.skip(1) =~= tail + rest);
        assert forall|i: int| 0 <= i < tail.len() implies !is_barrier(#[trigger] tail[i]) by {
            assert(tail[i] == run[i + 1]);
        }
        let next = with_tape(m, effect_step(m.tape, head));
        lemma_exec_run(tail, rest, next, fuel);
        assert(run =~= seq![head] + tail);
        lemma_effect_concat(m.tape, seq![head], tail);
        lemma_effect_single(m.tape, head);
    }
}

/// Every barrier of a reordered program is a barrier of the program.
pub proof fn lemma_reordered_barriers(p: Seq<IRExpr>, e: IRExpr)
    requires
        is_barrier(e),
        exists|i: int| 0 <= i < reordered(p).len() && reordered(p)[i] == e,
    ensures
        exists|j: int| 0 <= j < p.len() && p[j] == e,
    decreases p.len(),
{
    let n = run_len(p) as int;
    let i = choose|i: int| 0 <= i < reordered(p).len() && reordered(p)[i] == e;
    lemma_first_run(p);
    if n >= p.len() {
        assert(p.take(n) =~= p);
        lemma_reorder_run(p);
        assert(!is_barrier(reorder_run(p)[i]));
    } else {
        let run = p.take(n);
        let rest = p.skip(n + 1);
        let q1 = reorder_run(run);
        let q2 = reordered(rest);
        lemma_reorder_run(run);
        if i < q1.len() {
            assert(reordered(p)[i] == q1[i]);
            assert(!is_barrier(q1[i]));
        } else if i == q1.len() {
            assert(reordered(p)[i] == p[n]);
        } else {
            assert(reordered(p)[i] == q2[i - q1.len() - 1]);
            lemma_reordered_barriers(rest, e);
            let j = choose|j: int| 0 <= j < rest.len() && rest[j] == e;
            assert(p[j + n + 1] == e);
        }
    }
}

/// Reordering a program that starts with a loop reorders the loop's body
/// and what follows the loop, each for itself.
pub proof fn lemma_loop_parts(id: u32, rest: Seq<IRExpr>)
    ensures
        ({
            let from = seq![IRExpr::ConditionalStart(id)] + rest;
            let sorted = seq![IRExpr::ConditionalStart(id)] + reordered(rest);
            &&& reordered(from) == sorted
            &&& loop_body(sorted, id) == reordered(loop_body(from, id))
            &&& loop_rest(sorted, id) == reordered(loop_rest(from, id))
            &&& loop_body(from, id).len() <= rest.len()
            &&& loop_rest(from, id).len() <= rest.len()
        }),
{
    let start = IRExpr::ConditionalStart(id);
    let close = IRExpr::ConditionalEnd(id);
    let none = Seq::<IRExpr>::empty();
    let from = seq![start] + rest;
    let q2 = reordered(rest);
    let sorted = seq![start] + q2;
    assert(from.skip(1) =~= rest);
    assert(sorted.skip(1) =~= q2);
    lemma_reorder_run(none);
    assert(reorder_run(none).len() == 0);
    assert(reordered(none) =~= none);
    assert(run_len(from) == 0);
    assert(from.take(0) =~= none);
    assert(reordered(from) =~= sorted);
    let k = first_end(rest, id) as int;
    lemma_first_end(rest, id);
    let body = rest.take(k);
    let sorted_body = reordered(body);
    if k < rest.len() {
        let after = rest.skip(k + 1);
        assert(rest =~= body + seq![close] + after);
        lemma_reordered_around_barrier(body, close, after);
        assert forall|i: int| 0 <= i < sorted_body.len() implies #[trigger] q2[i] != close by {
            if sorted_body[i] == close {
                lemma_reordered_barriers(body, close);
                let j = choose|j: int| 0 <= j < body.len() && body[j] == close;
                assert(rest[j] == body[j]);
            }
            assert(q2[i] == sorted_body[i]);
        }
        assert(q2[sorted_body.len() as int] == close);
        lemma_first_end_is(q2, id, sorted_body.len() as int);
        assert(loop_body(sorted, id) =~= sorted_body);
        assert(loop_rest(from, id) =~= after);
        assert(loop_rest(sorted, id) =~= reordered(after));
    } else {
        assert(body =~= rest);
        assert forall|i: int| 0 <= i < q2.len() implies #[trigger] q2[i] != close by {
            if q2[i] == close {
                lemma_reordered_barriers(rest, close);
            }
        }
        lemma_first_end_is(q2, id, q2.len() as int);
        assert(loop_body(sorted, id) =~= sorted_body);
        assert(loop_rest(from, id) =~= none);
        assert(loop_rest(sorted, id) =~= none);
    }
}

/// A reordered program does what the program does: from any machine and
/// with any fuel the two end in the same machine, or neither ends.
pub proof fn lemma_reorder_keeps_meaning(p: Seq<IRExpr>, m: Machine, fuel: nat)
    ensures
        exec(reordered(p), m, fuel) == exec(p, m, fuel),
    decreases fuel, p.len(), 1nat,
{
    let n = run_len(p) as int;
    lemma_first_run(p);
    if n >= p.len() {
        assert(p.take(n) =~= p);
        lemma_reorder_run(p);
        lemma_reorder_keeps_effect(m.tape, p);
        let none = Seq::<IRExpr>::empty();
        assert(p + none =~= p);
        assert(reorder_run(p) + none =~= reorder_run(p));
        lemma_exec_run(p, none, m, fuel);
        lemma_exec_run(reorder_run(p), none, m, fuel);
    } else {
        let run = p.take(n);
        let b = p[n];
        let rest = p.skip(n + 1);
        let q1 = reorder_run(run);
        let q2 = reordered(rest);
        let from = seq![b] + rest;
        let sorted = seq![b] + q2;
        lemma_reorder_run(run);
        lemma_reorder_keeps_effect(m.tape, run);
        assert(p =~= run + from);
        assert(reordered(p) =~= q1 + sorted);
        lemma_exec_run(run, from, m, fuel);
        lemma_exec_run(q1, sorted, m, fuel);
        let at = with_tape(m, effect(m.tape, run));
        lemma_at_barrier(b, rest, at, fuel);
    }
}

/// The same for a program that starts with a barrier.
pub proof fn lemma_at_barrier(b: IRExpr, rest: Seq<IRExpr>, at: Machine, fuel: nat)
    requires
        is_barrier(b),
    ensures
        exec(seq![b] + reordered(rest), at, fuel) == exec(seq![b] + rest, at, fuel),
    decreases fuel, rest.len() + 1, 0nat,
{
    let from = seq![b] + rest;
    let sorted = seq![b] + reordered(rest);
    assert(from[0] == b && sorted[0] == b);
    assert(from.skip(1) =~= rest);
    assert(sorted.skip(1) =~= reordered(rest));
    match b {
        IRExpr::ConditionalStart(id) => {
            lemma_loop_parts(id, rest);
            if current(at.tape) == 0 {
                lemma_reorder_keeps_meaning(loop_rest(from, id), at, fuel);
            } else if fuel > 0 {
                let less = (fuel - 1) as nat;
                lemma_reorder_keeps_meaning(loop_body(from, id), at, less);
                match exec(loop_body(from, id), at, less) {
                    Some(turned) => {
                        lemma_reorder_keeps_meaning(from, turned, less);
                    },
                    None => {},
                }
            }
        },
        IRExpr::ConditionalEnd(_) => {
            lemma_reorder_keeps_meaning(rest, at, fuel);
        },
        _ => {
            match perform(at, b) {
                Some(next) => {
                    lemma_reorder_keeps_meaning(rest, next, fuel);
                },
                None => {},
            }
        },
    }
}

/// Reordering changes nothing of what a program does.
pub proof fn lemma_reordered_same_meaning(p: Seq<IRExpr>)
    ensures
        same_meaning(reordered(p), p),
{
    assert forall|m: Machine, fuel: nat| whole(m.tape) implies #[trigger] exec(
        reordered(p),
        m,
        fuel,
    ) == exec(p, m, fuel) by {
        lemma_reorder_keeps_meaning(p, m, fuel);
    }
}

} // verus!

//! Folding writes and moves changes nothing of what a program does.

use crate::canonical::barrier_free;
use crate::effect::{current, effect, folds, lemma_fold_keeps_effect, whole, Tape};
use crate::locality::is_barrier;
use crate::lowering::IRExpr;
use crate::machine::{
    exec, first_end, lemma_exec_run, lemma_first_end, lemma_first_end_is, loop_body, loop_rest,
    perform, same_meaning, Machine,
};
use crate::peephole::{lemma_rules_respect_barriers, rewrite, spliced, sweep, window_len, Rule};
use vstd::prelude::*;

verus! {

/// `new` does to every tape what `old_run` does.
pub open spec fn same_effect(old_run: Seq<IRExpr>, new: Seq<IRExpr>) -> bool {
    forall|t: Tape| whole(t) ==> #[trigger] effect(t, new) == effect(t, old_run)
}

/// A program that ends leaves a byte in every cell, if it found one in
/// every cell.
pub proof fn lemma_exec_whole(p: Seq<IRExpr>, m: Machine, fuel: nat)
    requires
        whole(m.tape),
        exec(p, m, fuel).is_some(),
    ensures
        whole(exec(p, m, fuel).unwrap().tape),
    decreases fuel, p.len(),
{
    if p.len() > 0 {
        match p[0] {
            IRExpr::ConditionalStart(id) => {
                lemma_first_end(p.skip(1), id);
                if current(m.tape) == 0 {
                    lemma_exec_whole(loop_rest(p, id), m, fuel);
                } else {
                    let less = (fuel - 1) as nat;
                    lemma_exec_whole(loop_body(p, id), m, less);
                    lemma_exec_whole(p, exec(loop_body(p, id), m, less).unwrap(), less);
                }
            },
            IRExpr::ConditionalEnd(_) => {
                lemma_exec_whole(p.skip(1), m, fuel);
            },
            e => {
                let next = perform(m, e).unwrap();
                assert(whole(next.tape));
                lemma_exec_whole(p.skip(1), next, fuel);
            },
        }
    }
}

/// Putting writes and moves in the place of writes and moves with the same
/// effect changes nothing of what the program does, wherever in it they
/// stand.
pub proof fn lemma_splice_keeps_meaning(
    p: Seq<IRExpr>,
    i: int,
    n: int,
    new: Seq<IRExpr>,
    m: Machine,
    fuel: nat,
)
    requires
        whole(m.tape),
        0 <= i,
        0 <= n,
        i + n <= p.len(),
        barrier_free(p.subrange(i, i + n)),
        barrier_free(new),
        same_effect(p.subrange(i, i + n), new),
    ensures
        exec(spliced(p, i, n, new), m, fuel) == exec(p, m, fuel),
    decreases fuel, p.len(),
{
    let w = p.subrange(i, i + n);
    let q = spliced(p, i, n, new);
    if i == 0 {
        let post = p.subrange(n, p.len() as int);
        assert(p =~= w + post);
        assert(q =~= new + post);
        lemma_exec_run(w, post, m, fuel);
        lemma_exec_run(new, post, m, fuel);
        assert(effect(m.tape, new) == effect(m.tape, w));
    } else {
        let s = p.skip(1);
        let j = i - 1;
        assert(q[0] == p[0]);
        assert(q.skip(1) =~= spliced(s, j, n, new));
        assert(s.subrange(j, j + n) =~= w);
        match p[0] {
            IRExpr::ConditionalStart(id) => {
                assert forall|x: int| 0 <= x < w.len() implies #[trigger] w[x]
                    != IRExpr::ConditionalEnd(id) by {
                    assert(!is_barrier(w[x]));
                }
                assert forall|x: int| 0 <= x < new.len() implies #[trigger] new[x]
                    != IRExpr::ConditionalEnd(id) by {
                    assert(!is_barrier(new[x]));
                }
                lemma_splice_in_loop(p, i, n, new, id);
                let less = (fuel - 1) as nat;
                let k = first_end(s, id) as int;
                lemma_first_end(s, id);
                if j + n <= k {
                    if current(m.tape) != 0 && fuel > 0 {
                        lemma_splice_keeps_meaning(loop_body(p, id), j, n, new, m, less);
                    }
                } else {
                    if current(m.tape) == 0 {
                        lemma_splice_keeps_meaning(loop_rest(p, id), j - k - 1, n, new, m, fuel);
                    }
                }
                if current(m.tape) != 0 && fuel > 0 {
                    match exec(loop_body(p, id), m, less) {
                        Some(turned) => {
                            lemma_exec_whole(loop_body(p, id), m, less);
                            lemma_splice_keeps_meaning(p, i, n, new, turned, less);
                        },
                        None => {},
                    }
                }
            },
            IRExpr::ConditionalEnd(_) => {
                lemma_splice_keeps_meaning(s, j, n, new, m, fuel);
            },
            e => {
                match perform(m, e) {
                    Some(next) => {
                        assert(whole(next.tape));
                        lemma_splice_keeps_meaning(s, j, n, new, next, fuel);
                    },
                    None => {},
                }
            },
        }
    }
}

/// No instruction of `w` is the end marker of loop `id`.
pub open spec fn holds_no_end(w: Seq<IRExpr>, id: u32) -> bool {
    forall|x: int| 0 <= x < w.len() ==> #[trigger] w[x] != IRExpr::ConditionalEnd(id)
}

/// Where a program starts with a loop, a replacement behind the start
/// marker that neither takes out nor puts in an end marker of that loop
/// lies in the loop's body or behind the loop, and the body and what
/// follows the loop are spliced accordingly.
pub proof fn lemma_splice_in_loop(p: Seq<IRExpr>, i: int, n: int, new: Seq<IRExpr>, id: u32)
    requires
        1 <= i,
        0 <= n,
        i + n <= p.len(),
        p[0] == IRExpr::ConditionalStart(id),
        holds_no_end(p.subrange(i, i + n), id),
        holds_no_end(new, id),
    ensures
        ({
            let q = spliced(p, i, n, new);
            let k = first_end(p.skip(1), id) as int;
            let j = i - 1;
            if j + n <= k {
                &&& loop_body(q, id) == spliced(loop_body(p, id), j, n, new)
                &&& loop_rest(q, id) == loop_rest(p, id)
                &&& j + n <= loop_body(p, id).len()
                &&& loop_body(p, id).subrange(j, j + n) == p.subrange(i, i + n)
            } else {
                &&& loop_body(q, id) == loop_body(p, id)
                &&& loop_rest(q, id) == spliced(loop_rest(p, id), j - k - 1, n, new)
                &&& 0 <= j - k - 1
                &&& j - k - 1 + n <= loop_rest(p, id).len()
                &&& loop_rest(p, id).subrange(j - k - 1, j - k - 1 + n) == p.subrange(i, i + n)
                &&& loop_rest(p, id).len() < p.len()
            }
        }),
{
    let close = IRExpr::ConditionalEnd(id);
    let w = p.subrange(i, i + n);
    let q = spliced(p, i, n, new);
    let s = p.skip(1);
    let j = i - 1;
    let r = spliced(s, j, n, new);
    let k = first_end(s, id) as int;
    assert(q.skip(1) =~= r);
    lemma_first_end(s, id);
    if j + n <= k {
        let grown = k - n + new.len();
        assert forall|x: int| 0 <= x < grown implies #[trigger] r[x] != close by {
            if x < j {
                assert(r[x] == s[x]);
            } else if x < j + new.len() {
                assert(r[x] == new[x - j]);
            } else {
                assert(r[x] == s[x - new.len() + n]);
            }
        }
        if k < s.len() {
            assert(r[grown] == s[k]);
        }
        lemma_first_end_is(r, id, grown);
        assert(loop_body(q, id) =~= spliced(loop_body(p, id), j, n, new));
        assert(loop_rest(q, id) =~= loop_rest(p, id));
        assert(loop_body(p, id).subrange(j, j + n) =~= w);
    } else {
        if j <= k {
            assert(k < s.len());
            assert(w[k - j] == s[k]);
            assert(false);
        }
        assert forall|x: int| 0 <= x < k implies #[trigger] r[x] != close by {
            assert(r[x] == s[x]);
        }
        assert(r[k] == s[k]);
        lemma_first_end_is(r, id, k);
        assert(loop_body(q, id) =~= loop_body(p, id));
        assert(loop_rest(q, id) =~= spliced(loop_rest(p, id), j - k - 1, n, new));
        assert(loop_rest(p, id).subrange(j - k - 1, j - k - 1 + n) =~= w);
    }
}

/// A sweep of a folding rule changes nothing of what a program does.
pub proof fn lemma_fold_sweep_keeps_meaning(
    rule: Rule,
    p: Seq<IRExpr>,
    i: int,
    m: Machine,
    fuel: nat,
)
    requires
        whole(m.tape),
        folds(rule),
    ensures
        exec(sweep(rule, p, i), m, fuel) == exec(p, m, fuel),
    decreases p.len(), p.len() - i,
{
    let n = window_len(rule) as int;
    if i < 0 || i + n > p.len() {
    } else {
        let w = p.subrange(i, i + n);
        match rewrite(rule, w) {
            Some(new) => {
                lemma_rules_respect_barriers(rule, w);
                assert(barrier_free(new));
                assert forall|t: Tape| whole(t) implies #[trigger] effect(t, new) == effect(
                    t,
                    w,
                ) by {
                    lemma_fold_keeps_effect(rule, w, t);
                }
                lemma_splice_keeps_meaning(p, i, n, new, m, fuel);
                lemma_fold_sweep_keeps_meaning(rule, spliced(p, i, n, new), i, m, fuel);
            },
            None => {
                lemma_fold_sweep_keeps_meaning(rule, p, i + 1, m, fuel);
            },
        }
    }
}

/// A sweep of a folding rule changes nothing of what a program does.
pub proof fn lemma_fold_sweep_same_meaning(rule: Rule, p: Seq<IRExpr>)
    requires
        folds(rule),
    ensures
        same_meaning(sweep(rule, p, 0), p),
{
    assert forall|m: Machine, fuel: nat| whole(m.tape) implies #[trigger] exec(
        sweep(rule, p, 0),
        m,
        fuel,
    ) == exec(p, m, fuel) by {
        lemma_fold_sweep_keeps_meaning(rule, p, 0, m, fuel);
    }
}

} // verus!

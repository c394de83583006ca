//! Every pass keeps a well-formed program well formed.

use crate::canonical::{barrier_free, lemma_first_run, lemma_reorder_run};
use crate::deadloop::{prune, without_dead_loops, zero_known};
use crate::locality::{is_barrier, reorder_run, reordered, run_len};
use crate::lowering::IRExpr;
use crate::nesting::{
    distinct, is_marker, lemma_distinct_without, lemma_ids_concat, lemma_scan_concat,
    lemma_scan_failed, lemma_scan_plain, lemma_scan_single, marker_free, open_loops, scan_on,
    start_ids, well_formed,
};
use crate::peephole::{rewrite, rules_round, spliced, sweep, window_len, Rule};
use vstd::prelude::*;

verus! {

/// A replacement opens and closes what its window did, and holds no start
/// marker.
pub proof fn lemma_rewrite_keeps_scan(rule: Rule, w: Seq<IRExpr>, stack: Seq<u32>)
    requires
        rewrite(rule, w).is_some(),
        scan_on(Some(stack), w).is_some(),
    ensures
        scan_on(Some(stack), rewrite(rule, w).unwrap()) == scan_on(Some(stack), w),
        start_ids(rewrite(rule, w).unwrap()) == Seq::<u32>::empty(),
{
    let new = rewrite(rule, w).unwrap();
    match rule {
        Rule::ClearCell => {
            let id = w[0]->ConditionalStart_0;
            let a = seq![w[0]];
            let b = seq![w[1]];
            let c = seq![w[2]];
            assert(w =~= a + b + c);
            lemma_scan_concat(Some(stack), a, b);
            lemma_scan_concat(Some(stack), a + b, c);
            lemma_scan_single(Some(stack), w[0]);
            lemma_scan_single(Some(stack.push(id)), w[1]);
            lemma_scan_single(Some(stack.push(id)), w[2]);
            assert(stack.push(id).drop_last() =~= stack);
            assert(new =~= seq![new[0]]);
            lemma_scan_single(Some(stack), new[0]);
        },
        Rule::Multiply => {
            let id = w[1]->ConditionalStart_0;
            let head = seq![w[0]];
            let open = seq![w[1]];
            let body = w.subrange(2, 6);
            let close = seq![w[6]];
            assert(w =~= head + open + body + close);
            assert(marker_free(body));
            lemma_scan_concat(Some(stack), head, open);
            lemma_scan_concat(Some(stack), head + open, body);
            lemma_scan_concat(Some(stack), head + open + body, close);
            lemma_scan_single(Some(stack), w[0]);
            lemma_scan_single(Some(stack), w[1]);
            lemma_scan_plain(Some(stack.push(id)), body);
            lemma_scan_single(Some(stack.push(id)), w[6]);
            assert(stack.push(id).drop_last() =~= stack);
            assert(marker_free(new));
            lemma_scan_plain(Some(stack), new);
        },
        _ => {
            assert(marker_free(w));
            assert(marker_free(new));
            lemma_scan_plain(Some(stack), w);
            lemma_scan_plain(Some(stack), new);
        },
    }
}

/// Replacing a matching window keeps a well-formed program well formed.
pub proof fn lemma_splice_well_formed(rule: Rule, ir: Seq<IRExpr>, i: int)
    requires
        well_formed(ir),
        0 <= i,
        i + window_len(rule) <= ir.len(),
        rewrite(rule, ir.subrange(i, i + window_len(rule))).is_some(),
    ensures
        well_formed(
            spliced(
                ir,
                i,
                window_len(rule) as int,
                rewrite(rule, ir.subrange(i, i + window_len(rule))).unwrap(),
            ),
        ),
{
    let n = window_len(rule) as int;
    let pre = ir.subrange(0, i);
    let w = ir.subrange(i, i + n);
    let post = ir.subrange(i + n, ir.len() as int);
    let new = rewrite(rule, w).unwrap();
    let start = Some(Seq::<u32>::empty());
    assert(ir =~= pre + w + post);
    lemma_scan_concat(start, pre, w);
    lemma_scan_concat(start, pre + w, post);
    lemma_scan_concat(start, pre, new);
    lemma_scan_concat(start, pre + new, post);
    if scan_on(start, pre).is_none() {
        lemma_scan_failed(w);
        lemma_scan_failed(post);
    }
    if scan_on(start, pre + w).is_none() {
        lemma_scan_failed(post);
    }
    lemma_rewrite_keeps_scan(rule, w, scan_on(start, pre).unwrap());
    lemma_ids_concat(pre, w);
    lemma_ids_concat(pre + w, post);
    lemma_ids_concat(pre, new);
    lemma_ids_concat(pre + new, post);
    lemma_distinct_without(start_ids(pre), start_ids(w), start_ids(post));
    assert(start_ids(pre) + start_ids(new) + start_ids(post) =~= start_ids(pre) + start_ids(post));
}

/// A sweep keeps a well-formed program well formed.
pub proof fn lemma_sweep_well_formed(rule: Rule, ir: Seq<IRExpr>, i: int)
    requires
        well_formed(ir),
    ensures
        well_formed(sweep(rule, ir, i)),
    decreases ir.len(), ir.len() - i,
{
    let n = window_len(rule) as int;
    if i < 0 || i + n > ir.len() {
    } else {
        match rewrite(rule, ir.subrange(i, i + n)) {
            Some(new) => {
                lemma_splice_well_formed(rule, ir, i);
                lemma_sweep_well_formed(rule, spliced(ir, i, n, new), i);
            },
            None => {
                lemma_sweep_well_formed(rule, ir, i + 1);
            },
        }
    }
}

/// A round of the rules keeps a well-formed program well formed.
pub proof fn lemma_rules_well_formed(ir: Seq<IRExpr>)
    requires
        well_formed(ir),
    ensures
        well_formed(rules_round(ir)),
{
    let a = sweep(Rule::Identity, ir, 0);
    let b = sweep(Rule::FuseUpdates, a, 0);
    let c = sweep(Rule::FuseSteps, b, 0);
    let d = sweep(Rule::FuseAssign, c, 0);
    let e = sweep(Rule::ClearCell, d, 0);
    lemma_sweep_well_formed(Rule::Identity, ir, 0);
    lemma_sweep_well_formed(Rule::FuseUpdates, a, 0);
    lemma_sweep_well_formed(Rule::FuseSteps, b, 0);
    lemma_sweep_well_formed(Rule::FuseAssign, c, 0);
    lemma_sweep_well_formed(Rule::ClearCell, d, 0);
    lemma_sweep_well_formed(Rule::Multiply, e, 0);
}

/// A stretch without barriers holds no marker.
pub proof fn lemma_barrier_free_marker_free(p: Seq<IRExpr>)
    requires
        barrier_free(p),
    ensures
        marker_free(p),
{
    assert forall|i: int| 0 <= i < p.len() implies !is_marker(#[trigger] p[i]) by {
        assert(!is_barrier(p[i]));
    }
}

/// Reordering leaves every marker where it was among the markers: the
/// reordered program opens and closes what the program did, with the same
/// ids.
pub proof fn lemma_reordered_keeps_scan(open: Option<Seq<u32>>, p: Seq<IRExpr>)
    ensures
        scan_on(open, reordered(p)) == scan_on(open, p),
        start_ids(reordered(p)) == start_ids(p),
    decreases p.len(),
{
    let n = run_len(p) as int;
    lemma_first_run(p);
    if n >= p.len() {
        assert(p.take(n) =~= p);
        lemma_reorder_run(p);
        lemma_barrier_free_marker_free(p);
        lemma_barrier_free_marker_free(reorder_run(p));
        lemma_scan_plain(open, p);
        lemma_scan_plain(open, reorder_run(p));
    } else {
        let run = p.take(n);
        let b = seq![p[n]];
        let rest = p.skip(n + 1);
        let q1 = reorder_run(run);
        let q2 = reordered(rest);
        assert(p =~= run + b + rest);
        lemma_reorder_run(run);
        lemma_barrier_free_marker_free(run);
        lemma_barrier_free_marker_free(q1);
        lemma_scan_plain(open, run);
        lemma_scan_plain(open, q1);
        lemma_scan_concat(open, run, b);
        lemma_scan_concat(open, q1, b);
        lemma_scan_concat(open, run + b, rest);
        lemma_scan_concat(open, q1 + b, q2);
        lemma_reordered_keeps_scan(scan_on(open, run + b), rest);
        lemma_ids_concat(run, b);
        lemma_ids_concat(q1, b);
        lemma_ids_concat(run + b, rest);
        lemma_ids_concat(q1 + b, q2);
    }
}

/// How the scan for dead loops stands to the nesting of a program whose
/// markers match so far and whose ids are distinct: what it has kept
/// matches so far too; outside a removal the same loops are open in both,
/// and inside one the loop that is being removed is open above the loops
/// that are open in what was kept.
pub proof fn lemma_prune_keeps_scan(p: Seq<IRExpr>)
    requires
        open_loops(p).is_some(),
        distinct(start_ids(p)),
    ensures
        open_loops(prune(p).kept).is_some(),
        distinct(open_loops(p).unwrap()),
        forall|i: int|
            0 <= i < open_loops(p).unwrap().len() ==> start_ids(p).contains(
                #[trigger] open_loops(p).unwrap()[i],
            ),
        forall|i: int|
            0 <= i < start_ids(prune(p).kept).len() ==> start_ids(p).contains(
                #[trigger] start_ids(prune(p).kept)[i],
            ),
        distinct(start_ids(prune(p).kept)),
        match prune(p).removing {
            None => open_loops(prune(p).kept) == open_loops(p),
            Some(r) => {
                let below = open_loops(prune(p).kept).unwrap();
                let all = open_loops(p).unwrap();
                below.len() < all.len() && all.take(below.len() as int) == below
                    && all[below.len() as int] == r
            },
        },
    decreases p.len(),
{
    if p.len() > 0 {
        let d = p.drop_last();
        let e = p.last();
        if open_loops(d).is_none() {
            assert(false);
        }
        let ids_d = start_ids(d);
        let ids_p = start_ids(p);
        assert forall|i: int, j: int| 0 <= i < j < ids_d.len() implies ids_d[i] != ids_d[j] by {
            assert(ids_p[i] == ids_d[i] && ids_p[j] == ids_d[j]);
        }
        lemma_prune_keeps_scan(d);
        let st_d = open_loops(d).unwrap();
        let st_p = open_loops(p).unwrap();
        let pd = prune(d);
        let pr = prune(p);
        let k_d = open_loops(pd.kept).unwrap();
        let kids_d = start_ids(pd.kept);
        assert forall|x: u32| ids_d.contains(x) implies ids_p.contains(x) by {
            let i = choose|i: int| 0 <= i < ids_d.len() && ids_d[i] == x;
            assert(ids_p[i] == x);
        }
        match e {
            IRExpr::ConditionalStart(x) => {
                assert(ids_p == ids_d.push(x));
                assert(ids_p[ids_d.len() as int] == x);
                if ids_d.contains(x) {
                    let i = choose|i: int| 0 <= i < ids_d.len() && ids_d[i] == x;
                    assert(ids_p[i] == ids_p[ids_d.len() as int]);
                    assert(false);
                }
                assert forall|i: int| 0 <= i < st_p.len() implies ids_p.contains(
                    #[trigger] st_p[i],
                ) by {
                    if i < st_d.len() {
                        assert(st_p[i] == st_d[i]);
                        assert(ids_d.contains(st_d[i]));
                    }
                }
                assert forall|i: int, j: int| 0 <= i < j < st_p.len() implies st_p[i] != st_p[j] by {
                    assert(st_p[i] == st_d[i]);
                    assert(ids_d.contains(st_d[i]));
                    if j < st_d.len() {
                        assert(st_p[j] == st_d[j]);
                    }
                }
                if pd.removing.is_none() && !zero_known(pd.kept) {
                    assert(pr.kept == pd.kept.push(e));
                    assert(pr.kept.drop_last() =~= pd.kept);
                    let kids_p = start_ids(pr.kept);
                    assert(kids_p == kids_d.push(x));
                    assert forall|i: int| 0 <= i < kids_p.len() implies ids_p.contains(
                        #[trigger] kids_p[i],
                    ) by {
                        if i < kids_d.len() {
                            assert(kids_p[i] == kids_d[i]);
                            assert(ids_d.contains(kids_d[i]));
                        }
                    }
                    assert forall|i: int, j: int| 0 <= i < j < kids_p.len() implies kids_p[i]
                        != kids_p[j] by {
                        assert(kids_p[i] == kids_d[i]);
                        assert(ids_d.contains(kids_d[i]));
                        if j < kids_d.len() {
                            assert(kids_p[j] == kids_d[j]);
                        }
                    }
                } else if pd.removing.is_none() {
                    assert(st_p.take(k_d.len() as int) =~= k_d);
                } else {
                    assert(st_p.take(k_d.len() as int) =~= st_d.take(k_d.len() as int));
                }
            },
            IRExpr::ConditionalEnd(x) => {
                assert(st_d.len() > 0 && st_d.last() == x);
                assert(st_p == st_d.drop_last());
                assert forall|i: int| 0 <= i < st_p.len() implies ids_p.contains(
                    #[trigger] st_p[i],
                ) by {
                    assert(st_p[i] == st_d[i]);
                    assert(ids_d.contains(st_d[i]));
                }
                assert forall|i: int, j: int| 0 <= i < j < st_p.len() implies st_p[i] != st_p[j] by {
                    assert(st_p[i] == st_d[i] && st_p[j] == st_d[j]);
                }
                match pd.removing {
                    Some(r) => {
                        if x == r {
                            if k_d.len() < st_d.len() - 1 {
                                assert(st_d[k_d.len() as int] == st_d[st_d.len() - 1]);
                                assert(false);
                            }
                            assert(st_d.drop_last() =~= st_d.take(k_d.len() as int));
                        } else {
                            assert(st_p.take(k_d.len() as int) =~= st_d.take(k_d.len() as int));
                        }
                    },
                    None => {
                        assert(pr.kept == pd.kept.push(e));
                        assert(pr.kept.drop_last() =~= pd.kept);
                    },
                }
            },
            _ => {
                if pd.removing.is_none() {
                    assert(pr.kept == pd.kept.push(e));
                    assert(pr.kept.drop_last() =~= pd.kept);
                }
            },
        }
    }
}

/// Dead-loop elimination keeps a well-formed program well formed.
pub proof fn lemma_pruned_well_formed(p: Seq<IRExpr>)
    requires
        well_formed(p),
    ensures
        well_formed(without_dead_loops(p)),
{
    lemma_prune_keeps_scan(p);
}

/// Reordering keeps a well-formed program well formed.
pub proof fn lemma_reordered_well_formed(p: Seq<IRExpr>)
    requires
        well_formed(p),
    ensures
        well_formed(reordered(p)),
{
    lemma_reordered_keeps_scan(Some(Seq::empty()), p);
}

} // verus!

//! Dead-loop elimination changes nothing of what a well-formed program
//! does: a loop that it removes is reached with a zero cell on every run.

use crate::deadloop::{
    lemma_prune_concat, lemma_prune_skips, prune, prune_on, prune_step, without_dead_loops,
    zero_known, Pruning,
};
use crate::effect::current;
use crate::lowering::IRExpr;
use crate::machine::{
    exec, first_end, lemma_first_end, lemma_first_end_is, loop_body, loop_rest, perform,
    same_meaning, Machine,
};
use crate::nesting::{
    distinct, lemma_ids_concat, lemma_scan_concat, lemma_scan_failed, lemma_scan_single,
    open_loops, scan_on, start_ids, well_formed,
};
use crate::preserved::lemma_prune_keeps_scan;
use vstd::prelude::*;

verus! {

/// After this instruction the current cell is known to hold zero.
pub open spec fn zero_after(e: IRExpr) -> bool {
    e is ConditionalEnd || e == IRExpr::Assign(0)
}

/// The program `s` without its dead loops, told loop by loop: `zero` says
/// whether the cell is known to hold zero where `s` begins. A loop that is
/// reached with a zero cell goes; any other stays, with its body pruned
/// for itself, and what follows a loop is reached with a zero cell.
pub open spec fn pruned(zero: bool, s: Seq<IRExpr>) -> Seq<IRExpr>
    decreases s.len(),
    via pruned_ends
{
    if s.len() == 0 {
        Seq::empty()
    } else {
        match s[0] {
            IRExpr::ConditionalStart(id) => {
                if zero {
                    pruned(true, loop_rest(s, id))
                } else if first_end(s.skip(1), id) + 2 <= s.len() {
                    seq![s[0]] + pruned(false, loop_body(s, id)) + seq![IRExpr::ConditionalEnd(id)]
                        + pruned(true, loop_rest(s, id))
                } else {
                    seq![s[0]] + pruned(false, loop_body(s, id))
                }
            },
            e => seq![e] + pruned(zero_after(e), s.skip(1)),
        }
    }
}

#[via_fn]
proof fn pruned_ends(zero: bool, s: Seq<IRExpr>) {
    if s.len() > 0 {
        match s[0] {
            IRExpr::ConditionalStart(id) => {
                lemma_first_end(s.skip(1), id);
            },
            _ => {},
        }
    }
}

/// Ids that are distinct are distinct in every stretch of them.
pub proof fn lemma_distinct_parts(a: Seq<u32>, b: Seq<u32>, c: Seq<u32>)
    requires
        distinct(a + b + c),
    ensures
        distinct(b),
        distinct(c),
        forall|i: int, j: int| 0 <= i < a.len() && 0 <= j < b.len() ==> a[i] != b[j],
{
    let all = a + b + c;
    assert forall|i: int, j: int| 0 <= i < j < b.len() implies b[i] != b[j] by {
        assert(all[a.len() + i] == b[i] && all[a.len() + j] == b[j]);
    }
    assert forall|i: int, j: int| 0 <= i < j < c.len() implies c[i] != c[j] by {
        assert(all[a.len() + b.len() + i] == c[i] && all[a.len() + b.len() + j] == c[j]);
    }
    assert forall|i: int, j: int| 0 <= i < a.len() && 0 <= j < b.len() implies a[i] != b[j] by {
        assert(all[i] == a[i] && all[a.len() + j] == b[j]);
    }
}

/// Above an open loop, a stretch without that loop's end marker opens and
/// closes what it would open and close for itself.
pub proof fn lemma_scan_above(id: u32, body: Seq<IRExpr>)
    requires
        scan_on(Some(seq![id]), body).is_some(),
        forall|i: int| 0 <= i < body.len() ==> #[trigger] body[i] != IRExpr::ConditionalEnd(id),
    ensures
        open_loops(body).is_some(),
        scan_on(Some(seq![id]), body) == Some(seq![id] + open_loops(body).unwrap()),
    decreases body.len(),
{
    if body.len() == 0 {
        assert(seq![id] + Seq::<u32>::empty() =~= seq![id]);
    } else {
        let d = body.drop_last();
        let e = body.last();
        if scan_on(Some(seq![id]), d).is_none() {
            assert(false);
        }
        assert forall|i: int| 0 <= i < d.len() implies #[trigger] d[i] != IRExpr::ConditionalEnd(
            id,
        ) by {
            assert(d[i] == body[i]);
        }
        lemma_scan_above(id, d);
        let r = open_loops(d).unwrap();
        assert(e == body[body.len() - 1]);
        match e {
            IRExpr::ConditionalStart(x) => {
                assert((seq![id] + r).push(x) =~= seq![id] + r.push(x));
            },
            IRExpr::ConditionalEnd(x) => {
                if r.len() == 0 {
                    assert((seq![id] + r).last() == id);
                    assert(false);
                }
                assert((seq![id] + r).last() == r.last());
                assert((seq![id] + r).drop_last() =~= seq![id] + r.drop_last());
            },
            _ => {},
        }
    }
}

/// A well-formed program that starts with a loop is the start marker, the
/// body, the end marker and the rest; body and rest are well formed.
pub proof fn lemma_loop_split(s: Seq<IRExpr>, id: u32)
    requires
        well_formed(s),
        s.len() > 0,
        s[0] == IRExpr::ConditionalStart(id),
    ensures
        first_end(s.skip(1), id) + 2 <= s.len(),
        s == seq![s[0]] + loop_body(s, id) + seq![IRExpr::ConditionalEnd(id)] + loop_rest(s, id),
        well_formed(loop_body(s, id)),
        well_formed(loop_rest(s, id)),
        forall|i: int|
            0 <= i < loop_body(s, id).len() ==> #[trigger] loop_body(s, id)[i]
                != IRExpr::ConditionalEnd(id),
{
    let open = seq![s[0]];
    let close = seq![IRExpr::ConditionalEnd(id)];
    let s1 = s.skip(1);
    let k = first_end(s1, id) as int;
    let body = loop_body(s, id);
    let start = Some(Seq::<u32>::empty());
    lemma_first_end(s1, id);
    assert forall|i: int| 0 <= i < body.len() implies #[trigger] body[i]
        != IRExpr::ConditionalEnd(id) by {
        assert(body[i] == s1[i]);
    }
    lemma_scan_single(start, s[0]);
    assert(Seq::<u32>::empty().push(id) =~= seq![id]);
    if k >= s1.len() {
        assert(body =~= s1);
        assert(s =~= open + body);
        lemma_scan_concat(start, open, body);
        lemma_scan_above(id, body);
        assert((seq![id] + open_loops(body).unwrap()).len() > 0);
        assert(false);
    }
    let rest = loop_rest(s, id);
    assert(rest =~= s1.skip(k + 1));
    assert(s =~= open + body + close + rest);
    lemma_scan_concat(start, open, body);
    lemma_scan_concat(start, open + body, close);
    lemma_scan_concat(start, open + body + close, rest);
    if scan_on(start, open + body).is_none() {
        lemma_scan_failed(close);
        lemma_scan_failed(rest);
    }
    if scan_on(start, open + body + close).is_none() {
        lemma_scan_failed(rest);
    }
    lemma_scan_above(id, body);
    let r = open_loops(body).unwrap();
    lemma_scan_single(Some(seq![id] + r), IRExpr::ConditionalEnd(id));
    lemma_ids_concat(open, body);
    lemma_ids_concat(open + body, close);
    lemma_ids_concat(open + body + close, rest);
    lemma_scan_single(start, IRExpr::ConditionalEnd(id));
    assert(start_ids(s) =~= seq![id] + start_ids(body) + start_ids(rest));
    lemma_distinct_parts(seq![id], start_ids(body), start_ids(rest));
    if r.len() > 0 {
        lemma_prune_keeps_scan(body);
        assert(start_ids(body).contains(r[r.len() - 1]));
        let j = choose|j: int| 0 <= j < start_ids(body).len() && start_ids(body)[j] == r.last();
        assert(seq![id][0] != start_ids(body)[j]);
        assert((seq![id] + r).last() == r.last());
        assert(false);
    }
    assert(r =~= Seq::<u32>::empty());
    assert(seq![id] + r =~= seq![id]);
    assert(seq![id].drop_last() =~= Seq::<u32>::empty());
}

/// Behind an instruction that is not a marker, a well-formed program is
/// well formed; and a well-formed program does not start with an end
/// marker.
pub proof fn lemma_plain_head(s: Seq<IRExpr>)
    requires
        well_formed(s),
        s.len() > 0,
        !(s[0] is ConditionalStart),
    ensures
        !(s[0] is ConditionalEnd),
        well_formed(s.skip(1)),
{
    let head = seq![s[0]];
    let start = Some(Seq::<u32>::empty());
    assert(s =~= head + s.skip(1));
    lemma_scan_concat(start, head, s.skip(1));
    lemma_scan_single(start, s[0]);
    if s[0] is ConditionalEnd {
        lemma_scan_failed(s.skip(1));
    }
    lemma_ids_concat(head, s.skip(1));
    assert(start_ids(s) =~= start_ids(s.skip(1)));
}

/// Whatever stands in the pruned program stands in the program.
pub proof fn lemma_pruned_within(zero: bool, s: Seq<IRExpr>, e: IRExpr)
    requires
        exists|i: int| 0 <= i < pruned(zero, s).len() && pruned(zero, s)[i] == e,
    ensures
        exists|j: int| 0 <= j < s.len() && s[j] == e,
    decreases s.len(),
{
    let out = pruned(zero, s);
    let i = choose|i: int| 0 <= i < out.len() && out[i] == e;
    if s.len() > 0 {
        match s[0] {
            IRExpr::ConditionalStart(id) => {
                let s1 = s.skip(1);
                let k = first_end(s1, id) as int;
                lemma_first_end(s1, id);
                let body = loop_body(s, id);
                let rest = loop_rest(s, id);
                let b2 = pruned(false, body);
                let r2 = pruned(true, rest);
                if zero {
                    lemma_pruned_within(true, rest, e);
                    let j = choose|j: int| 0 <= j < rest.len() && rest[j] == e;
                    assert(s[j + k + 2] == e);
                } else if i == 0 {
                    assert(s[0] == e);
                } else if i < 1 + b2.len() {
                    assert(out[i] == b2[i - 1]);
                    lemma_pruned_within(false, body, e);
                    let j = choose|j: int| 0 <= j < body.len() && body[j] == e;
                    assert(s[j + 1] == e);
                } else if i == 1 + b2.len() {
                    assert(s[k + 1] == s1[k]);
                } else {
                    assert(out[i] == r2[i - b2.len() - 2]);
                    lemma_pruned_within(true, rest, e);
                    let j = choose|j: int| 0 <= j < rest.len() && rest[j] == e;
                    assert(s[j + k + 2] == e);
                }
            },
            head => {
                if i == 0 {
                    assert(s[0] == e);
                } else {
                    assert(out[i] == pruned(zero_after(head), s.skip(1))[i - 1]);
                    lemma_pruned_within(zero_after(head), s.skip(1), e);
                    let j = choose|j: int| 0 <= j < s.skip(1).len() && s.skip(1)[j] == e;
                    assert(s[j + 1] == e);
                }
            },
        }
    }
}

/// The pruned program does what the program does, from any machine whose
/// current cell holds zero where the pruning took it to.
pub proof fn lemma_pruned_keeps_meaning(zero: bool, s: Seq<IRExpr>, m: Machine, fuel: nat)
    requires
        well_formed(s),
        zero ==> current(m.tape) == 0,
    ensures
        exec(pruned(zero, s), m, fuel) == exec(s, m, fuel),
    decreases fuel, s.len(),
{
    if s.len() > 0 {
        match s[0] {
            IRExpr::ConditionalStart(id) => {
                lemma_loop_split(s, id);
                let close = IRExpr::ConditionalEnd(id);
                let body = loop_body(s, id);
                let rest = loop_rest(s, id);
                if zero {
                    lemma_pruned_keeps_meaning(true, rest, m, fuel);
                } else {
                    let b2 = pruned(false, body);
                    let r2 = pruned(true, rest);
                    let out = pruned(false, s);
                    assert(out == seq![s[0]] + b2 + seq![close] + r2);
                    let o1 = out.skip(1);
                    assert forall|i: int| 0 <= i < b2.len() implies #[trigger] o1[i] != close by {
                        if b2[i] == close {
                            lemma_pruned_within(false, body, close);
                        }
                        assert(o1[i] == b2[i]);
                    }
                    assert(o1[b2.len() as int] == close);
                    lemma_first_end_is(o1, id, b2.len() as int);
                    assert(out[0] == s[0]);
                    assert(loop_body(out, id) =~= b2);
                    assert(loop_rest(out, id) =~= r2);
                    if current(m.tape) == 0 {
                        lemma_pruned_keeps_meaning(true, rest, m, fuel);
                    } else if fuel > 0 {
                        let less = (fuel - 1) as nat;
                        lemma_pruned_keeps_meaning(false, body, m, less);
                        match exec(body, m, less) {
                            Some(turned) => {
                                lemma_pruned_keeps_meaning(false, s, turned, less);
                            },
                            None => {},
                        }
                    }
                }
            },
            e => {
                lemma_plain_head(s);
                let out = pruned(zero, s);
                assert(out[0] == e);
                assert(out.skip(1) =~= pruned(zero_after(e), s.skip(1)));
                match perform(m, e) {
                    Some(next) => {
                        lemma_pruned_keeps_meaning(zero_after(e), s.skip(1), next, fuel);
                    },
                    None => {},
                }
            },
        }
    }
}

/// The scan over a concatenation is the scan over its parts in turn.
pub proof fn lemma_prune_on_concat(state: Pruning, a: Seq<IRExpr>, b: Seq<IRExpr>)
    ensures
        prune_on(state, a + b) == prune_on(prune_on(state, a), b),
    decreases b.len(),
{
    if b.len() == 0 {
        assert(a + b =~= a);
    } else {
        assert((a + b).drop_last() =~= a + b.drop_last());
        lemma_prune_on_concat(state, a, b.drop_last());
    }
}

/// The scan over one instruction is one step.
pub proof fn lemma_prune_on_single(state: Pruning, e: IRExpr)
    ensures
        prune_on(state, seq![e]) == prune_step(state, e),
{
    let s = seq![e];
    assert(s.drop_last() =~= Seq::<IRExpr>::empty());
    assert(prune_on(state, s.drop_last()) == state);
    assert(s.last() == e);
}

/// On a well-formed program the scan keeps what the pruning loop by loop
/// keeps.
pub proof fn lemma_prune_is_pruned(state: Pruning, s: Seq<IRExpr>)
    requires
        well_formed(s),
        state.removing.is_none(),
    ensures
        prune_on(state, s) == (Pruning {
            kept: state.kept + pruned(zero_known(state.kept), s),
            removing: None,
        }),
    decreases s.len(),
{
    let zero = zero_known(state.kept);
    if s.len() == 0 {
        assert(state.kept + pruned(zero, s) =~= state.kept);
    } else {
        match s[0] {
            IRExpr::ConditionalStart(id) => {
                lemma_loop_split(s, id);
                let open = seq![s[0]];
                let close = seq![IRExpr::ConditionalEnd(id)];
                let body = loop_body(s, id);
                let rest = loop_rest(s, id);
                lemma_prune_on_concat(state, open, body);
                lemma_prune_on_concat(state, open + body, close);
                lemma_prune_on_concat(state, open + body + close, rest);
                lemma_prune_on_single(state, s[0]);
                if zero {
                    let inside = Pruning { kept: state.kept, removing: Some(id) };
                    lemma_prune_skips(inside, id, body);
                    lemma_prune_on_single(inside, IRExpr::ConditionalEnd(id));
                    assert(prune_on(state, open + body + close) == state);
                    lemma_prune_is_pruned(state, rest);
                } else {
                    let entered = Pruning { kept: state.kept.push(s[0]), removing: None };
                    lemma_prune_is_pruned(entered, body);
                    let turned = prune_on(entered, body);
                    lemma_prune_on_single(turned, IRExpr::ConditionalEnd(id));
                    let left = Pruning {
                        kept: turned.kept.push(IRExpr::ConditionalEnd(id)),
                        removing: None,
                    };
                    lemma_prune_is_pruned(left, rest);
                    assert(left.kept + pruned(true, rest) =~= state.kept + pruned(false, s));
                }
            },
            e => {
                lemma_plain_head(s);
                let head = seq![e];
                assert(s =~= head + s.skip(1));
                lemma_prune_on_concat(state, head, s.skip(1));
                lemma_prune_on_single(state, e);
                let next = Pruning { kept: state.kept.push(e), removing: None };
                lemma_prune_is_pruned(next, s.skip(1));
                assert(next.kept + pruned(zero_after(e), s.skip(1)) =~= state.kept + pruned(
                    zero,
                    s,
                ));
            },
        }
    }
}

/// Dead-loop elimination changes nothing of what a well-formed program
/// does: from any machine and with any fuel the program without its dead
/// loops ends in the machine that the program ends in, or neither ends.
pub proof fn lemma_dead_loops_keep_meaning(p: Seq<IRExpr>, m: Machine, fuel: nat)
    requires
        well_formed(p),
    ensures
        exec(without_dead_loops(p), m, fuel) == exec(p, m, fuel),
{
    let none = Seq::<IRExpr>::empty();
    assert(none + p =~= p);
    lemma_prune_concat(none, p);
    lemma_prune_is_pruned(prune(none), p);
    assert(none + pruned(false, p) =~= pruned(false, p));
    lemma_pruned_keeps_meaning(false, p, m, fuel);
}

/// Dead-loop elimination changes nothing of what a well-formed program
/// does.
pub proof fn lemma_pruned_same_meaning(p: Seq<IRExpr>)
    requires
        well_formed(p),
    ensures
        same_meaning(without_dead_loops(p), p),
{
    assert forall|m: Machine, fuel: nat| #[trigger] exec(without_dead_loops(p), m, fuel) == exec(
        p,
        m,
        fuel,
    ) by {
        lemma_dead_loops_keep_meaning(p, m, fuel);
    }
}

} // verus!

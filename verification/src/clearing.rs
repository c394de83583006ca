//! The countdown rule changes nothing of what a well-formed program
//! computes. The loop that it replaces takes turns that the assignment
//! does not take, so the two are compared by where they end, not by the
//! fuel they need.

use crate::effect::{current, effect_step, whole};
use crate::folding::{holds_no_end, lemma_exec_whole, lemma_splice_in_loop};
use crate::lowering::IRExpr;
use crate::machine::{
    exec, first_end, lemma_first_end, lemma_first_end_is, loop_body, loop_rest, perform,
    same_meaning, with_tape, Machine,
};
use crate::nesting::{
    lemma_ids_concat, lemma_scan_concat, lemma_scan_failed, lemma_scan_single, scan_on, start_ids,
    well_formed,
};
use crate::peephole::{rewrite, spliced, sweep, Rule};
use crate::preserved::lemma_splice_well_formed;
use crate::pruning::{lemma_loop_split, lemma_plain_head};
use vstd::prelude::*;

verus! {

/// The program ends in the machine `r`.
pub open spec fn ends_in(p: Seq<IRExpr>, m: Machine, r: Machine) -> bool {
    exists|fuel: nat| exec(p, m, fuel) == Some(r)
}

/// Two programs compute the same: from every machine with a byte in every
/// cell they end in the same machine, or neither ends.
pub open spec fn same_result(a: Seq<IRExpr>, b: Seq<IRExpr>) -> bool {
    forall|m: Machine, r: Machine| whole(m.tape) ==> (#[trigger] ends_in(a, m, r) <==> ends_in(b, m, r))
}

/// The loop that counts its cell down.
pub open spec fn countdown_loop(id: u32) -> Seq<IRExpr> {
    seq![IRExpr::ConditionalStart(id), IRExpr::Update(-1i32), IRExpr::ConditionalEnd(id)]
}

/// The machine with its current cell cleared.
pub open spec fn cleared(m: Machine) -> Machine {
    with_tape(m, effect_step(m.tape, IRExpr::Assign(0)))
}

/// A program that ends with some fuel ends in the same machine with more.
pub proof fn lemma_more_fuel(p: Seq<IRExpr>, m: Machine, fuel: nat, more: nat)
    requires
        exec(p, m, fuel).is_some(),
        fuel <= more,
    ensures
        exec(p, m, more) == exec(p, m, fuel),
    decreases fuel, p.len(),
{
    if p.len() > 0 {
        match p[0] {
            IRExpr::ConditionalStart(id) => {
                lemma_first_end(p.skip(1), id);
                if current(m.tape) == 0 {
                    lemma_more_fuel(loop_rest(p, id), m, fuel, more);
                } else {
                    let less = (fuel - 1) as nat;
                    let most = (more - 1) as nat;
                    lemma_more_fuel(loop_body(p, id), m, less, most);
                    lemma_more_fuel(p, exec(loop_body(p, id), m, less).unwrap(), less, most);
                }
            },
            IRExpr::ConditionalEnd(_) => {
                lemma_more_fuel(p.skip(1), m, fuel, more);
            },
            e => {
                lemma_more_fuel(p.skip(1), perform(m, e).unwrap(), fuel, more);
            },
        }
    }
}

/// The countdown loop, reached with the byte `v`, takes `v` turns of fuel
/// and goes on with the cell cleared.
pub proof fn lemma_clear_loop(id: u32, post: Seq<IRExpr>, m: Machine, fuel: nat, v: nat)
    requires
        whole(m.tape),
        v == current(m.tape),
    ensures
        exec(countdown_loop(id) + post, m, fuel) == if fuel >= v {
            exec(post, cleared(m), (fuel - v) as nat)
        } else {
            None
        },
    decreases v,
{
    let x = countdown_loop(id) + post;
    let body = seq![IRExpr::Update(-1i32)];
    let at = m.tape.pointer;
    assert(m.tape.cells.dom().contains(at));
    assert(x[0] == IRExpr::ConditionalStart(id));
    assert(x.skip(1)[0] == IRExpr::Update(-1i32));
    assert(x.skip(1)[1] == IRExpr::ConditionalEnd(id));
    lemma_first_end_is(x.skip(1), id, 1);
    assert(loop_body(x, id) =~= body);
    assert(loop_rest(x, id) =~= post);
    if v == 0 {
        assert(cleared(m).tape.cells =~= m.tape.cells);
        assert(cleared(m) == m);
    } else if fuel > 0 {
        let less = (fuel - 1) as nat;
        let turned = with_tape(m, effect_step(m.tape, IRExpr::Update(-1i32)));
        assert(body[0] == IRExpr::Update(-1i32));
        assert(body.skip(1) =~= Seq::<IRExpr>::empty());
        assert(exec(body.skip(1), turned, less) == Some(turned));
        assert(perform(m, IRExpr::Update(-1i32)) == Some(turned));
        assert(exec(body, m, less) == Some(turned));
        assert(current(turned.tape) == v - 1);
        lemma_clear_loop(id, post, turned, less, (v - 1) as nat);
        assert(cleared(turned).tape.cells =~= cleared(m).tape.cells);
        assert(cleared(turned) == cleared(m));
    }
}

/// In a well-formed program the two markers of a countdown window carry
/// one id, and no other start marker carries it.
pub proof fn lemma_clear_ids(p: Seq<IRExpr>, i: int)
    requires
        well_formed(p),
        0 <= i,
        i + 3 <= p.len(),
        rewrite(Rule::ClearCell, p.subrange(i, i + 3)).is_some(),
    ensures
        p.subrange(i, i + 3) == countdown_loop(p[i]->ConditionalStart_0),
        i > 0 && p[0] is ConditionalStart ==> p[0] != p[i],
{
    let w = p.subrange(i, i + 3);
    let pre = p.subrange(0, i);
    let post = p.subrange(i + 3, p.len() as int);
    let a = w[0]->ConditionalStart_0;
    let b = w[2]->ConditionalEnd_0;
    let start = Some(Seq::<u32>::empty());
    assert(w[0] == p[i]);
    assert(p =~= pre + w + post);
    lemma_scan_concat(start, pre, w);
    lemma_scan_concat(start, pre + w, post);
    if scan_on(start, pre).is_none() {
        lemma_scan_failed(w);
        lemma_scan_failed(post);
    }
    let stack = scan_on(start, pre).unwrap();
    let one = seq![w[0]];
    let two = seq![w[1]];
    let three = seq![w[2]];
    assert(w =~= one + two + three);
    lemma_scan_concat(Some(stack), one, two);
    lemma_scan_concat(Some(stack), one + two, three);
    lemma_scan_single(Some(stack), w[0]);
    lemma_scan_single(Some(stack.push(a)), w[1]);
    lemma_scan_single(Some(stack.push(a)), w[2]);
    if a != b {
        lemma_scan_failed(post);
        assert(false);
    }
    assert(w =~= countdown_loop(a));
    if i > 0 && p[0] is ConditionalStart {
        let id = p[0]->ConditionalStart_0;
        let head = seq![p[0]];
        let mid = p.subrange(1, i);
        assert(pre =~= head + mid);
        lemma_ids_concat(head, mid);
        lemma_ids_concat(pre, w);
        lemma_ids_concat(pre + w, post);
        lemma_ids_concat(one, two);
        lemma_ids_concat(one + two, three);
        lemma_scan_single(start, p[0]);
        let ids = start_ids(p);
        assert(start_ids(w) =~= seq![a]);
        assert(ids == seq![id] + start_ids(mid) + seq![a] + start_ids(post));
        assert(ids[0] == id);
        assert(ids[1 + start_ids(mid).len() as int] == a);
    }
}

/// Putting `Assign(0)` in the place of a countdown loop changes nothing of
/// where a well-formed program ends: where the program ends, the new one
/// ends there with the same fuel; where the new one ends, the program ends
/// there with the fuel for 255 turns more.
pub proof fn lemma_clear_splice(p: Seq<IRExpr>, i: int, m: Machine, fuel: nat)
    requires
        well_formed(p),
        whole(m.tape),
        0 <= i,
        i + 3 <= p.len(),
        rewrite(Rule::ClearCell, p.subrange(i, i + 3)).is_some(),
    ensures
        exec(p, m, fuel).is_some() ==> exec(spliced(p, i, 3, seq![IRExpr::Assign(0)]), m, fuel)
            == exec(p, m, fuel),
        exec(spliced(p, i, 3, seq![IRExpr::Assign(0)]), m, fuel).is_some() ==> exec(
            p,
            m,
            fuel + 255,
        ) == exec(spliced(p, i, 3, seq![IRExpr::Assign(0)]), m, fuel),
    decreases fuel, p.len(),
{
    let new = seq![IRExpr::Assign(0)];
    let w = p.subrange(i, i + 3);
    let q = spliced(p, i, 3, new);
    let a = p[i]->ConditionalStart_0;
    lemma_clear_ids(p, i);
    if i == 0 {
        let post = p.subrange(3, p.len() as int);
        let v = current(m.tape) as nat;
        assert(p =~= countdown_loop(a) + post);
        assert(q =~= new + post);
        assert(q[0] == IRExpr::Assign(0));
        assert(q.skip(1) =~= post);
        assert(perform(m, IRExpr::Assign(0)) == Some(cleared(m)));
        lemma_clear_loop(a, post, m, fuel, v);
        lemma_clear_loop(a, post, m, fuel + 255, v);
        if exec(p, m, fuel).is_some() {
            lemma_more_fuel(post, cleared(m), (fuel - v) as nat, fuel);
        }
        if exec(q, m, fuel).is_some() {
            lemma_more_fuel(post, cleared(m), fuel, (fuel + 255 - v) as nat);
        }
    } else {
        let s = p.skip(1);
        let j = i - 1;
        assert(q[0] == p[0]);
        assert(q.skip(1) =~= spliced(s, j, 3, new));
        assert(s.subrange(j, j + 3) =~= w);
        match p[0] {
            IRExpr::ConditionalStart(id) => {
                lemma_loop_split(p, id);
                assert(w[2] == IRExpr::ConditionalEnd(a));
                assert(holds_no_end(w, id));
                assert(holds_no_end(new, id));
                lemma_splice_in_loop(p, i, 3, new, id);
                let k = first_end(s, id) as int;
                let body = loop_body(p, id);
                let rest = loop_rest(p, id);
                let less = (fuel - 1) as nat;
                if j + 3 <= k {
                    if current(m.tape) == 0 {
                        if exec(q, m, fuel).is_some() {
                            lemma_more_fuel(rest, m, fuel, fuel + 255);
                        }
                    } else if fuel > 0 {
                        lemma_clear_splice(body, j, m, less);
                        if exec(p, m, fuel).is_some() {
                            let turned = exec(body, m, less).unwrap();
                            lemma_exec_whole(body, m, less);
                            lemma_clear_splice(p, i, turned, less);
                        }
                        if exec(q, m, fuel).is_some() {
                            let turned = exec(loop_body(q, id), m, less).unwrap();
                            lemma_exec_whole(loop_body(q, id), m, less);
                            lemma_clear_splice(p, i, turned, less);
                        }
                    }
                } else {
                    if current(m.tape) == 0 {
                        lemma_clear_splice(rest, j - k - 1, m, fuel);
                    } else if fuel > 0 {
                        if exec(body, m, less).is_some() {
                            let turned = exec(body, m, less).unwrap();
                            lemma_exec_whole(body, m, less);
                            lemma_more_fuel(body, m, less, less + 255);
                            lemma_clear_splice(p, i, turned, less);
                        }
                    }
                }
            },
            e => {
                lemma_plain_head(p);
                match perform(m, e) {
                    Some(next) => {
                        assert(whole(next.tape));
                        lemma_clear_splice(s, j, next, fuel);
                    },
                    None => {},
                }
            },
        }
    }
}

/// Programs that do the same compute the same.
pub proof fn lemma_meaning_gives_result(a: Seq<IRExpr>, b: Seq<IRExpr>)
    requires
        same_meaning(a, b),
    ensures
        same_result(a, b),
{
    assert forall|m: Machine, r: Machine| whole(m.tape) implies (#[trigger] ends_in(a, m, r)
        <==> ends_in(b, m, r)) by {
        if ends_in(a, m, r) {
            let fuel = choose|fuel: nat| exec(a, m, fuel) == Some(r);
            assert(exec(b, m, fuel) == Some(r));
        }
        if ends_in(b, m, r) {
            let fuel = choose|fuel: nat| exec(b, m, fuel) == Some(r);
            assert(exec(a, m, fuel) == exec(b, m, fuel));
        }
    }
}

/// Computing the same carries over a program in between.
pub proof fn lemma_result_chain(a: Seq<IRExpr>, b: Seq<IRExpr>, c: Seq<IRExpr>)
    requires
        same_result(a, b),
        same_result(b, c),
    ensures
        same_result(a, c),
{
    assert forall|m: Machine, r: Machine| whole(m.tape) implies (#[trigger] ends_in(a, m, r)
        <==> ends_in(c, m, r)) by {
        assert(ends_in(a, m, r) <==> ends_in(b, m, r));
        assert(ends_in(b, m, r) <==> ends_in(c, m, r));
    }
}

/// A program computes what it computes.
pub proof fn lemma_result_same(a: Seq<IRExpr>)
    ensures
        same_result(a, a),
{
}

/// A sweep of the countdown rule changes nothing of what a well-formed
/// program computes.
pub proof fn lemma_clear_sweep_same_result(p: Seq<IRExpr>, i: int)
    requires
        well_formed(p),
    ensures
        same_result(sweep(Rule::ClearCell, p, i), p),
    decreases p.len(), p.len() - i,
{
    if i < 0 || i + 3 > p.len() {
    } else {
        match rewrite(Rule::ClearCell, p.subrange(i, i + 3)) {
            Some(new) => {
                let q = spliced(p, i, 3, new);
                assert(new =~= seq![IRExpr::Assign(0)]);
                assert forall|m: Machine, r: Machine| whole(m.tape) implies (#[trigger] ends_in(
                    q,
                    m,
                    r,
                ) <==> ends_in(p, m, r)) by {
                    if ends_in(q, m, r) {
                        let fuel = choose|fuel: nat| exec(q, m, fuel) == Some(r);
                        lemma_clear_splice(p, i, m, fuel);
                        assert(exec(p, m, fuel + 255) == Some(r));
                    }
                    if ends_in(p, m, r) {
                        let fuel = choose|fuel: nat| exec(p, m, fuel) == Some(r);
                        lemma_clear_splice(p, i, m, fuel);
                        assert(exec(q, m, fuel) == Some(r));
                    }
                }
                lemma_splice_well_formed(Rule::ClearCell, p, i);
                lemma_clear_sweep_same_result(q, i);
                lemma_result_chain(sweep(Rule::ClearCell, p, i), q, p);
            },
            None => {
                lemma_clear_sweep_same_result(p, i + 1);
            },
        }
    }
}

} // verus!

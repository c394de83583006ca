//! The shape that loop markers keep through every pass: each start marker
//! has its end marker, loops lie inside one another and never across, and
//! no two loops share an id.

use crate::lowering::IRExpr;
use vstd::prelude::*;

verus! {

/// A loop marker.
pub open spec fn is_marker(e: IRExpr) -> bool {
    e is ConditionalStart || e is ConditionalEnd
}

/// No instruction of `p` is a loop marker.
pub open spec fn marker_free(p: Seq<IRExpr>) -> bool {
    forall|i: int| 0 <= i < p.len() ==> !is_marker(#[trigger] p[i])
}

/// The ids of the loops that are open, outermost first, after one more
/// instruction; `None` once an end marker has come that does not close the
/// innermost open loop.
pub open spec fn scan_step(open: Option<Seq<u32>>, e: IRExpr) -> Option<Seq<u32>> {
    match open {
        None => None,
        Some(stack) => match e {
            IRExpr::ConditionalStart(id) => Some(stack.push(id)),
            IRExpr::ConditionalEnd(id) => if stack.len() > 0 && stack.last() == id {
                Some(stack.drop_last())
            } else {
                None
            },
            _ => Some(stack),
        },
    }
}

/// The loops that are open after `p`, where `open` were open before it.
pub open spec fn scan_on(open: Option<Seq<u32>>, p: Seq<IRExpr>) -> Option<Seq<u32>>
    decreases p.len(),
{
    if p.len() == 0 {
        open
    } else {
        scan_step(scan_on(open, p.drop_last()), p.last())
    }
}

/// The loops that are open after the program `p`.
pub open spec fn open_loops(p: Seq<IRExpr>) -> Option<Seq<u32>> {
    scan_on(Some(Seq::empty()), p)
}

/// The ids of the start markers of `p`, in order.
pub open spec fn start_ids(p: Seq<IRExpr>) -> Seq<u32>
    decreases p.len(),
{
    if p.len() == 0 {
        Seq::empty()
    } else {
        match p.last() {
            IRExpr::ConditionalStart(id) => start_ids(p.drop_last()).push(id),
            _ => start_ids(p.drop_last()),
        }
    }
}

/// No id occurs twice.
pub open spec fn distinct(ids: Seq<u32>) -> bool {
    forall|i: int, j: int| 0 <= i < j < ids.len() ==> ids[i] != ids[j]
}

/// Every end marker closes the innermost open loop, every loop is closed,
/// and no two loops share an id.
pub open spec fn well_formed(p: Seq<IRExpr>) -> bool {
    open_loops(p) == Some(Seq::<u32>::empty()) && distinct(start_ids(p))
}

/// Scanning a concatenation is scanning its parts in turn.
pub proof fn lemma_scan_concat(open: Option<Seq<u32>>, a: Seq<IRExpr>, b: Seq<IRExpr>)
    ensures
        scan_on(open, a + b) == scan_on(scan_on(open, a), b),
    decreases b.len(),
{
    if b.len() == 0 {
        assert(a + b =~= a);
    } else {
        assert((a + b).drop_last() =~= a + b.drop_last());
        lemma_scan_concat(open, a, b.drop_last());
    }
}

/// A scan that has failed stays failed.
pub proof fn lemma_scan_failed(p: Seq<IRExpr>)
    ensures
        scan_on(None, p).is_none(),
    decreases p.len(),
{
    if p.len() > 0 {
        lemma_scan_failed(p.drop_last());
    }
}

/// Scanning a single instruction is one step, and its start ids are its
/// own id, if it is a start marker.
pub proof fn lemma_scan_single(open: Option<Seq<u32>>, e: IRExpr)
    ensures
        scan_on(open, seq![e]) == scan_step(open, e),
        start_ids(seq![e]) == match e {
            IRExpr::ConditionalStart(id) => seq![id],
            _ => Seq::<u32>::empty(),
        },
{
    let s = seq![e];
    assert(s.drop_last() =~= Seq::<IRExpr>::empty());
    assert(s.last() == e);
    assert(scan_on(open, s.drop_last()) == open);
    assert(start_ids(s.drop_last()) == Seq::<u32>::empty());
    match e {
        IRExpr::ConditionalStart(id) => {
            assert(Seq::<u32>::empty().push(id) =~= seq![id]);
        },
        _ => {},
    }
}

/// Instructions that are not markers open and close nothing.
pub proof fn lemma_scan_plain(open: Option<Seq<u32>>, p: Seq<IRExpr>)
    requires
        marker_free(p),
    ensures
        scan_on(open, p) == open,
        start_ids(p) == Seq::<u32>::empty(),
    decreases p.len(),
{
    if p.len() > 0 {
        let d = p.drop_last();
        assert forall|i: int| 0 <= i < d.len() implies !is_marker(#[trigger] d[i]) by {
            assert(d[i] == p[i]);
        }
        lemma_scan_plain(open, d);
        assert(!is_marker(p[p.len() - 1]));
    }
}

/// What a part of a program opens above nothing, it opens above any stack.
pub proof fn lemma_scan_lift(stack: Seq<u32>, p: Seq<IRExpr>)
    requires
        open_loops(p).is_some(),
    ensures
        scan_on(Some(stack), p) == Some(stack + open_loops(p).unwrap()),
    decreases p.len(),
{
    if p.len() == 0 {
        assert(stack + Seq::<u32>::empty() =~= stack);
    } else {
        let d = p.drop_last();
        if open_loops(d).is_none() {
            assert(false);
        }
        lemma_scan_lift(stack, d);
        let r = open_loops(d).unwrap();
        match p.last() {
            IRExpr::ConditionalStart(id) => {
                assert((stack + r).push(id) =~= stack + r.push(id));
            },
            IRExpr::ConditionalEnd(id) => {
                assert((stack + r).drop_last() =~= stack + r.drop_last());
            },
            _ => {},
        }
    }
}

/// The start ids of a concatenation are those of its parts.
pub proof fn lemma_ids_concat(a: Seq<IRExpr>, b: Seq<IRExpr>)
    ensures
        start_ids(a + b) == start_ids(a) + start_ids(b),
    decreases b.len(),
{
    if b.len() == 0 {
        assert(a + b =~= a);
        assert(start_ids(a) + start_ids(b) =~= start_ids(a));
    } else {
        assert((a + b).drop_last() =~= a + b.drop_last());
        lemma_ids_concat(a, b.drop_last());
        assert(start_ids(a + b) =~= start_ids(a) + start_ids(b));
    }
}

/// Ids that are distinct stay distinct when a stretch of them is taken out.
pub proof fn lemma_distinct_without(a: Seq<u32>, b: Seq<u32>, c: Seq<u32>)
    requires
        distinct(a + b + c),
    ensures
        distinct(a + c),
{
    let all = a + b + c;
    let rest = a + c;
    assert forall|i: int, j: int| 0 <= i < j < rest.len() implies rest[i] != rest[j] by {
        let x = if i < a.len() {
            i
        } else {
            i + b.len()
        };
        let y = if j < a.len() {
            j
        } else {
            j + b.len()
        };
        assert(all[x] == rest[i] && all[y] == rest[j]);
    }
}

} // verus!

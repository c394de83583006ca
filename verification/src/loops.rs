//! The multiplication rule is right on a cleared counter, and only there:
//! what the loop does depends on the byte that its counter holds when the
//! loop is reached, and the rule takes that byte to be the `a` of the
//! update before the loop.

use crate::clearing::lemma_more_fuel;
use crate::effect::{
    current, effect, effect_step, lemma_effect_concat, lemma_effect_pair, whole, Tape,
};
use crate::lowering::IRExpr;
use crate::machine::{
    exec, lemma_exec_run, lemma_first_end_is, loop_body, loop_rest, perform, with_tape, Machine,
};
use vstd::prelude::*;
use vstd::wrapping::i32_specs::{wrapping_add, wrapping_mul};

verus! {

/// The body of the multiplication: add `b` to the cell `sl` away, come
/// back, count down.
pub open spec fn multiplication(sl: i32, b: i32, sr: i32) -> Seq<IRExpr> {
    seq![IRExpr::Step(sl), IRExpr::Update(b), IRExpr::Step(sr), IRExpr::Update(-1i32)]
}

/// The loop of the multiplication.
pub open spec fn multiply_loop(id: u32, sl: i32, b: i32, sr: i32) -> Seq<IRExpr> {
    seq![IRExpr::ConditionalStart(id)] + multiplication(sl, b, sr) + seq![
        IRExpr::ConditionalEnd(id),
    ]
}

/// What the rule puts in the place of `Update(a)` and the loop.
pub open spec fn product(a: i32, sl: i32, b: i32, sr: i32) -> Seq<IRExpr> {
    seq![
        IRExpr::Step(sl),
        IRExpr::Update(wrapping_mul(a, b)),
        IRExpr::Step(sr),
        IRExpr::Assign(0),
    ]
}

/// The tape after the loop has run on a counter that held `v`: `v` times
/// `b` added to the cell `sl` away, and the counter cleared.
pub open spec fn multiplied(t: Tape, sl: i32, b: i32, v: nat) -> Tape {
    let other = wrapping_add(t.pointer, sl);
    Tape {
        cells: t.cells.insert(other, ((t.cells[other] as int + v * b) % 256) as u8).insert(
            t.pointer,
            0u8,
        ),
        pointer: t.pointer,
    }
}

/// One turn of the multiplication adds `b` to the other cell and takes one
/// off the counter.
proof fn lemma_multiplication_turn(t: Tape, sl: i32, b: i32, sr: i32)
    requires
        whole(t),
        wrapping_add(sl, sr) == 0,
        sl != 0,
        current(t) > 0,
    ensures
        ({
            let other = wrapping_add(t.pointer, sl);
            effect(t, multiplication(sl, b, sr)) == (Tape {
                cells: t.cells.insert(other, ((t.cells[other] as int + b) % 256) as u8).insert(
                    t.pointer,
                    (current(t) - 1) as u8,
                ),
                pointer: t.pointer,
            })
        }),
{
    let other = wrapping_add(t.pointer, sl);
    let first = seq![IRExpr::Step(sl), IRExpr::Update(b)];
    let second = seq![IRExpr::Step(sr), IRExpr::Update(-1i32)];
    assert(t.cells.dom().contains(t.pointer));
    assert(t.cells.dom().contains(other));
    assert(multiplication(sl, b, sr) =~= first + second);
    lemma_effect_concat(t, first, second);
    lemma_effect_pair(t, IRExpr::Step(sl), IRExpr::Update(b));
    lemma_effect_pair(effect(t, first), IRExpr::Step(sr), IRExpr::Update(-1i32));
    assert(wrapping_add(other, sr) == t.pointer);
    assert(other != t.pointer);
    assert(effect(t, multiplication(sl, b, sr)).cells =~= t.cells.insert(
        other,
        ((t.cells[other] as int + b) % 256) as u8,
    ).insert(t.pointer, (current(t) - 1) as u8));
}

/// The loop of the multiplication, reached with the byte `v` in its
/// counter, takes `v` turns of fuel and goes on with `v` times `b` added to
/// the other cell and the counter cleared.
pub proof fn lemma_multiply_loop(
    id: u32,
    sl: i32,
    b: i32,
    sr: i32,
    post: Seq<IRExpr>,
    m: Machine,
    fuel: nat,
    v: nat,
)
    requires
        whole(m.tape),
        v == current(m.tape),
        wrapping_add(sl, sr) == 0,
        sl != 0,
    ensures
        exec(multiply_loop(id, sl, b, sr) + post, m, fuel) == if fuel >= v {
            exec(post, with_tape(m, multiplied(m.tape, sl, b, v)), (fuel - v) as nat)
        } else {
            None
        },
    decreases v,
{
    let x = multiply_loop(id, sl, b, sr) + post;
    let body = multiplication(sl, b, sr);
    let at = m.tape.pointer;
    let other = wrapping_add(at, sl);
    let none = Seq::<IRExpr>::empty();
    assert(m.tape.cells.dom().contains(at));
    assert(m.tape.cells.dom().contains(other));
    assert(other != at);
    let s = x.skip(1);
    assert(x[0] == IRExpr::ConditionalStart(id));
    assert(s[0] == IRExpr::Step(sl) && s[1] == IRExpr::Update(b) && s[2] == IRExpr::Step(sr));
    assert(s[3] == IRExpr::Update(-1i32) && s[4] == IRExpr::ConditionalEnd(id));
    lemma_first_end_is(s, id, 4);
    assert(loop_body(x, id) =~= body);
    assert(loop_rest(x, id) =~= post);
    if v == 0 {
        assert(multiplied(m.tape, sl, b, 0).cells =~= m.tape.cells);
        assert(with_tape(m, multiplied(m.tape, sl, b, 0)) == m);
    } else if fuel > 0 {
        let less = (fuel - 1) as nat;
        let turned = with_tape(m, effect(m.tape, body));
        assert(body + none =~= body);
        lemma_exec_run(body, none, m, less);
        assert(exec(body, m, less) == Some(turned));
        lemma_multiplication_turn(m.tape, sl, b, sr);
        let k = (v - 1) as nat;
        lemma_multiply_loop(id, sl, b, sr, post, turned, less, k);
        assert(v * b == k * b + b) by (nonlinear_arith)
            requires
                v == k + 1,
        ;
        let base = m.tape.cells[other] as int;
        assert(((base + b) % 256 + k * b) % 256 == (base + v * b) % 256);
        assert(multiplied(turned.tape, sl, b, k).cells =~= multiplied(m.tape, sl, b, v).cells);
        assert(with_tape(turned, multiplied(turned.tape, sl, b, k)) == with_tape(
            m,
            multiplied(m.tape, sl, b, v),
        ));
    }
}

/// On a cleared counter the folded instructions leave the tape as the
/// update and the loop leave it.
proof fn lemma_product_tape(t: Tape, a: i32, sl: i32, b: i32, sr: i32)
    requires
        whole(t),
        current(t) == 0,
        wrapping_add(sl, sr) == 0,
        sl != 0,
    ensures
        current(effect_step(t, IRExpr::Update(a))) == a as int % 256,
        effect(t, product(a, sl, b, sr)) == multiplied(
            effect_step(t, IRExpr::Update(a)),
            sl,
            b,
            (a as int % 256) as nat,
        ),
{
    let at = t.pointer;
    let other = wrapping_add(at, sl);
    let new = product(a, sl, b, sr);
    let counted = effect_step(t, IRExpr::Update(a));
    let n = (a as int % 256) as nat;
    assert(t.cells.dom().contains(at));
    assert(t.cells.dom().contains(other));
    assert(other != at);
    assert(wrapping_add(other, sr) == at);
    let first = seq![IRExpr::Step(sl), IRExpr::Update(wrapping_mul(a, b))];
    let second = seq![IRExpr::Step(sr), IRExpr::Assign(0)];
    assert(new =~= first + second);
    lemma_effect_concat(t, first, second);
    lemma_effect_pair(t, IRExpr::Step(sl), IRExpr::Update(wrapping_mul(a, b)));
    lemma_effect_pair(effect(t, first), IRExpr::Step(sr), IRExpr::Assign(0));
    lemma_product_byte(t.cells[other], a, b);
    assert(counted.cells[other] == t.cells[other]);
    assert(effect(t, new).cells =~= multiplied(counted, sl, b, n).cells);
}

/// Adding the wrapped product of `a` and `b` to a byte is adding `b` as
/// often as the byte of `a` says.
proof fn lemma_product_byte(x: u8, a: i32, b: i32)
    ensures
        (x as int + (a as int % 256) * b) % 256 == (x as int + wrapping_mul(a, b)) % 256,
{
    let n = a as int % 256;
    let q = a as int / 256;
    let whole_product = a as int * b as int;
    assert(whole_product == 256 * (q * b) + n * b) by (nonlinear_arith)
        requires
            a as int == 256 * q + n,
            whole_product == a as int * b as int,
    ;
    let wrapped = wrapping_mul(a, b) as int;
    assert(wrapped == whole_product % 0x1_0000_0000 || wrapped == whole_product % 0x1_0000_0000
        - 0x1_0000_0000);
}

/// The multiplication rule is right where the counter was clear. If the
/// cell under the pointer holds zero, then `Update(a)` followed by the
/// loop that adds `b` to the cell `sl` away and counts down, and then the
/// rest of the program, ends where `Step(sl), Update(a * b), Step(sr),
/// Assign(0)` and the rest of the program end: with the same fuel where
/// the loop ends, with the fuel for 255 turns more the other way round.
/// The two moves must cancel and must not be zero. On a counter that was
/// not clear the loop takes a number of turns that the rule does not know.
pub proof fn lemma_multiplication_sound(
    id: u32,
    a: i32,
    sl: i32,
    b: i32,
    sr: i32,
    post: Seq<IRExpr>,
    m: Machine,
    fuel: nat,
)
    requires
        whole(m.tape),
        current(m.tape) == 0,
        wrapping_add(sl, sr) == 0,
        sl != 0,
    ensures
        ({
            let with_loop = seq![IRExpr::Update(a)] + multiply_loop(id, sl, b, sr) + post;
            let folded = product(a, sl, b, sr) + post;
            &&& exec(with_loop, m, fuel).is_some() ==> exec(folded, m, fuel) == exec(
                with_loop,
                m,
                fuel,
            )
            &&& exec(folded, m, fuel).is_some() ==> exec(with_loop, m, fuel + 255) == exec(
                folded,
                m,
                fuel,
            )
        }),
{
    let with_loop = seq![IRExpr::Update(a)] + multiply_loop(id, sl, b, sr) + post;
    let new = product(a, sl, b, sr);
    let counted = with_tape(m, effect_step(m.tape, IRExpr::Update(a)));
    let n = current(counted.tape) as nat;
    lemma_product_tape(m.tape, a, sl, b, sr);
    assert(with_loop[0] == IRExpr::Update(a));
    assert(with_loop.skip(1) =~= multiply_loop(id, sl, b, sr) + post);
    assert(perform(m, IRExpr::Update(a)) == Some(counted));
    lemma_multiply_loop(id, sl, b, sr, post, counted, fuel, n);
    lemma_multiply_loop(id, sl, b, sr, post, counted, fuel + 255, n);
    lemma_exec_run(new, post, m, fuel);
    let done = with_tape(m, effect(m.tape, new));
    assert(done == with_tape(counted, multiplied(counted.tape, sl, b, n)));
    if exec(with_loop, m, fuel).is_some() {
        lemma_more_fuel(post, done, (fuel - n) as nat, fuel);
    }
    if exec(product(a, sl, b, sr) + post, m, fuel).is_some() {
        lemma_more_fuel(post, done, fuel, (fuel + 255 - n) as nat);
    }
}

} // verus!

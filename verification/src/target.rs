//! The target machine, and the proof that the generated operations do on
//! it what the program does: the cell register stands for the current
//! cell, and memory for the rest of the tape.

use crate::codegen::{asm_for, code_asm, magnitude, program_asm, Asm};
use crate::effect::{current, whole, Tape};
use crate::lowering::IRExpr;
use crate::machine::{
    exec, first_end, lemma_first_end, loop_body, loop_rest, perform, Machine,
};
use crate::nesting::well_formed;
use crate::pruning::{lemma_loop_split, lemma_plain_head};
use vstd::prelude::*;
use vstd::wrapping::i32_specs::{signed_crop, wrapping_add};

verus! {

/// The target: memory, the pointer register, the cell register, the input
/// that is left and the output so far.
pub struct Target {
    pub memory: Map<i32, u8>,
    pub pointer: i32,
    pub cell: u8,
    pub input: Seq<u8>,
    pub output: Seq<u8>,
}

/// The target after one operation that is not the head or the tail of a
/// loop. A read with no input left does not come back. The header, the
/// dump routine and its call, and the exit change nothing of what is
/// modelled here; what the dump prints is not modelled.
pub open spec fn run_op(t: Target, op: Asm) -> Option<Target> {
    match op {
        Asm::Entry => Some(Target { pointer: 0, cell: 0, ..t }),
        Asm::SetCell(v) => Some(Target { cell: (v as int % 256) as u8, ..t }),
        Asm::IncCell => Some(Target { cell: ((t.cell + 1) % 256) as u8, ..t }),
        Asm::DecCell => Some(Target { cell: ((t.cell - 1) % 256) as u8, ..t }),
        Asm::AddCell(u) => Some(Target { cell: ((t.cell + u) % 256) as u8, ..t }),
        Asm::SubCell(u) => Some(Target { cell: ((t.cell - u) % 256) as u8, ..t }),
        Asm::Store => Some(Target { memory: t.memory.insert(t.pointer, t.cell), ..t }),
        Asm::Load => Some(Target { cell: t.memory[t.pointer], ..t }),
        Asm::IncPtr => Some(Target { pointer: signed_crop(t.pointer + 1), ..t }),
        Asm::DecPtr => Some(Target { pointer: signed_crop(t.pointer - 1), ..t }),
        Asm::AddPtr(u) => Some(Target { pointer: signed_crop(t.pointer + u), ..t }),
        Asm::SubPtr(u) => Some(Target { pointer: signed_crop(t.pointer - u), ..t }),
        Asm::ReadByte => if t.input.len() == 0 {
            None
        } else {
            Some(Target { cell: t.input[0], input: t.input.skip(1), ..t })
        },
        Asm::WriteByte => Some(Target { output: t.output.push(t.cell), ..t }),
        _ => Some(t),
    }
}

/// The number of operations before the first tail of loop `id`.
pub open spec fn first_tail(ops: Seq<Asm>, id: u32) -> nat
    decreases ops.len(),
{
    if ops.len() == 0 || ops[0] == Asm::LoopTail(id) {
        0
    } else {
        1 + first_tail(ops.skip(1), id)
    }
}

/// The target after the operations `ops`, or `None` where it has not
/// finished within `fuel` turns of nested loops, or waits for input that
/// does not come. The head of a loop jumps behind the first tail with its
/// id where the cell register holds zero; the tail jumps back to the head.
pub open spec fn run_ops(ops: Seq<Asm>, t: Target, fuel: nat) -> Option<Target>
    decreases fuel, ops.len(),
    via run_ops_ends
{
    if ops.len() == 0 {
        Some(t)
    } else {
        match ops[0] {
            Asm::LoopHead(id) => {
                let k = first_tail(ops.skip(1), id) as int;
                let rest = if k + 2 <= ops.len() {
                    ops.skip(k + 2)
                } else {
                    Seq::empty()
                };
                if t.cell == 0 {
                    run_ops(rest, t, fuel)
                } else if fuel == 0 {
                    None
                } else {
                    match run_ops(ops.skip(1).take(k), t, (fuel - 1) as nat) {
                        None => None,
                        Some(turned) => run_ops(ops, turned, (fuel - 1) as nat),
                    }
                }
            },
            Asm::LoopTail(_) => run_ops(ops.skip(1), t, fuel),
            op => match run_op(t, op) {
                None => None,
                Some(next) => run_ops(ops.skip(1), next, fuel),
            },
        }
    }
}

#[via_fn]
proof fn run_ops_ends(ops: Seq<Asm>, t: Target, fuel: nat) {
    if ops.len() > 0 {
        match ops[0] {
            Asm::LoopHead(id) => {
                lemma_first_tail(ops.skip(1), id);
            },
            _ => {},
        }
    }
}

/// The first tail lies within the operations.
pub proof fn lemma_first_tail(ops: Seq<Asm>, id: u32)
    ensures
        first_tail(ops, id) <= ops.len(),
    decreases ops.len(),
{
    if ops.len() == 0 || ops[0] == Asm::LoopTail(id) {
    } else {
        lemma_first_tail(ops.skip(1), id);
    }
}

/// Behind operations without the tail of a loop, the first tail is the
/// first tail of what follows.
pub proof fn lemma_first_tail_behind(a: Seq<Asm>, b: Seq<Asm>, id: u32)
    requires
        forall|i: int| 0 <= i < a.len() ==> #[trigger] a[i] != Asm::LoopTail(id),
    ensures
        first_tail(a + b, id) == a.len() + first_tail(b, id),
    decreases a.len(),
{
    if a.len() == 0 {
        assert(a + b =~= b);
    } else {
        assert((a + b)[0] == a[0]);
        assert((a + b).skip(1) =~= a.skip(1) + b);
        assert forall|i: int| 0 <= i < a.skip(1).len() implies #[trigger] a.skip(1)[i]
            != Asm::LoopTail(id) by {
            assert(a.skip(1)[i] == a[i + 1]);
        }
        lemma_first_tail_behind(a.skip(1), b, id);
    }
}

/// The operations for a concatenation are those for its parts.
pub proof fn lemma_program_concat(a: Seq<IRExpr>, b: Seq<IRExpr>)
    ensures
        program_asm(a + b) == program_asm(a) + program_asm(b),
    decreases b.len(),
{
    if b.len() == 0 {
        assert(a + b =~= a);
        assert(program_asm(a) + program_asm(b) =~= program_asm(a));
    } else {
        assert((a + b).drop_last() =~= a + b.drop_last());
        lemma_program_concat(a, b.drop_last());
        assert(program_asm(a + b) =~= program_asm(a) + program_asm(b));
    }
}

/// The operations for a program are those for its first instruction and
/// those for the rest.
pub proof fn lemma_program_head(ir: Seq<IRExpr>)
    requires
        ir.len() > 0,
    ensures
        program_asm(ir) == asm_for(ir[0]) + program_asm(ir.skip(1)),
{
    let head = seq![ir[0]];
    assert(ir =~= head + ir.skip(1));
    lemma_program_concat(head, ir.skip(1));
    assert(head.drop_last() =~= Seq::<IRExpr>::empty());
    assert(program_asm(head.drop_last()) == Seq::<Asm>::empty());
    assert(program_asm(head) =~= asm_for(ir[0]));
}

/// The operations up to the first tail of a loop are the operations for
/// the instructions up to the first end marker of that loop.
pub proof fn lemma_tail_is_end(ir: Seq<IRExpr>, id: u32)
    ensures
        first_tail(program_asm(ir), id) == program_asm(ir.take(first_end(ir, id) as int)).len(),
        first_end(ir, id) < ir.len() ==> program_asm(ir) == program_asm(
            ir.take(first_end(ir, id) as int),
        ) + seq![Asm::LoopTail(id)] + program_asm(ir.skip(first_end(ir, id) as int + 1)),
        first_end(ir, id) >= ir.len() ==> ir.take(first_end(ir, id) as int) == ir,
    decreases ir.len(),
{
    lemma_first_end(ir, id);
    let k = first_end(ir, id) as int;
    if ir.len() == 0 {
        assert(ir.take(0) =~= ir);
    } else {
        lemma_program_head(ir);
        let rest = ir.skip(1);
        if ir[0] == IRExpr::ConditionalEnd(id) {
            assert(ir.take(0) =~= Seq::<IRExpr>::empty());
            assert(program_asm(ir)[0] == Asm::LoopTail(id));
            assert(program_asm(ir) =~= Seq::<Asm>::empty() + seq![Asm::LoopTail(id)]
                + program_asm(rest));
        } else {
            lemma_tail_is_end(rest, id);
            let kr = first_end(rest, id) as int;
            lemma_first_end(rest, id);
            let front = asm_for(ir[0]);
            assert forall|i: int| 0 <= i < front.len() implies #[trigger] front[i]
                != Asm::LoopTail(id) by {}
            lemma_first_tail_behind(front, program_asm(rest), id);
            let taken = ir.take(k);
            assert(taken.len() > 0);
            assert(taken[0] == ir[0]);
            assert(taken.skip(1) =~= rest.take(kr));
            lemma_program_head(taken);
            if k < ir.len() {
                assert(ir.skip(k + 1) =~= rest.skip(kr + 1));
                assert(program_asm(ir) =~= program_asm(taken) + seq![Asm::LoopTail(id)]
                    + program_asm(ir.skip(k + 1)));
            } else {
                assert(taken =~= ir);
            }
        }
    }
}

/// The target stands for the machine: the pointers agree, the cell
/// register holds the current cell, memory holds every other cell, and
/// input and output agree.
pub open spec fn stands_for(t: Target, m: Machine) -> bool {
    &&& whole(m.tape)
    &&& forall|at: i32| t.memory.dom().contains(at)
    &&& t.pointer == m.tape.pointer
    &&& t.cell == current(m.tape)
    &&& forall|at: i32| at != t.pointer ==> #[trigger] t.memory[at] == m.tape.cells[at]
    &&& t.input == m.input
    &&& t.output == m.output
}

/// The store before the exit brings memory up to date: after it, memory
/// holds every cell of the tape.
pub proof fn lemma_last_store(t: Target, m: Machine)
    requires
        stands_for(t, m),
    ensures
        run_op(t, Asm::Store).unwrap().memory == m.tape.cells,
        run_op(t, Asm::Store).unwrap().output == m.output,
{
    let memory = run_op(t, Asm::Store).unwrap().memory;
    assert(m.tape.cells.dom().contains(t.pointer));
    assert forall|at: i32| memory.dom().contains(at) && m.tape.cells.dom().contains(at) by {
        assert(t.memory.dom().contains(at));
    }
    assert forall|at: i32| #[trigger] memory[at] == m.tape.cells[at] by {
        assert(t.memory.dom().contains(at));
        if at != t.pointer {
            assert(t.memory[at] == m.tape.cells[at]);
        }
    }
    assert(memory =~= m.tape.cells);
}

/// The two ends stand for each other: both runs have ended, the target's
/// in a state that stands for the machine's, or neither has.
pub open spec fn ends_alike(t: Option<Target>, m: Option<Machine>) -> bool {
    match (t, m) {
        (Some(t), Some(m)) => stands_for(t, m),
        (None, None) => true,
        _ => false,
    }
}

/// One operation that is not the head or the tail of a loop, and then
/// the rest.
pub proof fn lemma_run_one(op: Asm, rest: Seq<Asm>, t: Target, fuel: nat)
    requires
        !(op is LoopHead),
        !(op is LoopTail),
    ensures
        run_ops(seq![op] + rest, t, fuel) == match run_op(t, op) {
            None => None,
            Some(next) => run_ops(rest, next, fuel),
        },
{
    let ops = seq![op] + rest;
    assert(ops[0] == op);
    assert(ops.skip(1) =~= rest);
}

/// The operation for a write or a transfer does to the target what the
/// instruction does to the machine.
pub proof fn lemma_op_stands(e: IRExpr, t: Target, m: Machine)
    requires
        stands_for(t, m),
        e is Assign || e is Update || e is Input || e is Output,
    ensures
        asm_for(e).len() == 1,
        !(asm_for(e)[0] is LoopHead),
        !(asm_for(e)[0] is LoopTail),
        match perform(m, e) {
            None => run_op(t, asm_for(e)[0]).is_none(),
            Some(next) => run_op(t, asm_for(e)[0]).is_some() && stands_for(
                run_op(t, asm_for(e)[0]).unwrap(),
                next,
            ),
        },
{
    assert(m.tape.cells.dom().contains(t.pointer));
}

/// Moving the pointer up or down by the size of an offset is moving it by
/// the offset.
pub proof fn lemma_moved(at: i32, v: i32)
    ensures
        v >= 0 ==> signed_crop(at + magnitude(v)) == wrapping_add(at, v),
        v < 0 ==> signed_crop(at - magnitude(v)) == wrapping_add(at, v),
{
    let sum = at as int + v as int;
    if v >= 0 {
        assert(magnitude(v) == v);
        assert(at + magnitude(v) == sum);
    } else {
        assert(magnitude(v) == -(v as int));
        assert(at - magnitude(v) == sum);
    }
    if sum > i32::MAX {
        assert(sum % 0x1_0000_0000 == sum);
    } else if sum < i32::MIN {
        assert(sum % 0x1_0000_0000 == sum + 0x1_0000_0000);
    } else if sum < 0 {
        assert(sum % 0x1_0000_0000 == sum + 0x1_0000_0000);
    } else {
        assert(sum % 0x1_0000_0000 == sum);
    }
}

/// A target that stores its cell register, has its pointer moved and
/// loads the cell register stands for the machine after the move.
pub proof fn lemma_flush_stands(t: Target, m: Machine, to: i32)
    requires
        stands_for(t, m),
    ensures
        stands_for(
            Target {
                memory: t.memory.insert(t.pointer, t.cell),
                pointer: to,
                cell: t.memory.insert(t.pointer, t.cell)[to],
                input: t.input,
                output: t.output,
            },
            Machine {
                tape: Tape { cells: m.tape.cells, pointer: to },
                input: m.input,
                output: m.output,
            },
        ),
{
    let memory = t.memory.insert(t.pointer, t.cell);
    assert(m.tape.cells.dom().contains(t.pointer));
    assert(m.tape.cells.dom().contains(to));
    assert(t.memory.dom().contains(to));
    assert forall|at: i32| at != to implies #[trigger] memory[at] == m.tape.cells[at] by {
        assert(t.memory.dom().contains(at));
    }
}

/// The three operations for a move do to the target what the move does to
/// the machine: the cell register is stored, the pointer moved, and the
/// cell register loaded.
pub proof fn lemma_step_stands(v: i32, t: Target, m: Machine)
    requires
        stands_for(t, m),
    ensures
        ({
            let ops = asm_for(IRExpr::Step(v));
            let stored = run_op(t, ops[0]).unwrap();
            let moved = run_op(stored, ops[1]).unwrap();
            let loaded = run_op(moved, ops[2]).unwrap();
            &&& ops.len() == 3
            &&& ops[0] == Asm::Store
            &&& ops[1] is AddPtr || ops[1] is SubPtr
            &&& ops[2] == Asm::Load
            &&& stands_for(loaded, perform(m, IRExpr::Step(v)).unwrap())
        }),
{
    let to = wrapping_add(t.pointer, v);
    lemma_moved(t.pointer, v);
    lemma_flush_stands(t, m, to);
    let ops = asm_for(IRExpr::Step(v));
    let stored = run_op(t, ops[0]).unwrap();
    let moved = run_op(stored, ops[1]).unwrap();
    let loaded = run_op(moved, ops[2]).unwrap();
    assert(moved.pointer == to);
    assert(loaded == Target {
        memory: t.memory.insert(t.pointer, t.cell),
        pointer: to,
        cell: t.memory.insert(t.pointer, t.cell)[to],
        input: t.input,
        output: t.output,
    });
    assert(perform(m, IRExpr::Step(v)).unwrap() == Machine {
        tape: Tape { cells: m.tape.cells, pointer: to },
        input: m.input,
        output: m.output,
    });
}

/// The operations for one instruction that is not a marker do to the
/// target what the instruction does to the machine.
pub proof fn lemma_plain_simulates(
    e: IRExpr,
    rest: Seq<Asm>,
    t: Target,
    m: Machine,
    fuel: nat,
)
    requires
        stands_for(t, m),
        !(e is ConditionalStart),
        !(e is ConditionalEnd),
    ensures
        match perform(m, e) {
            None => run_ops(asm_for(e) + rest, t, fuel).is_none(),
            Some(next) => exists|after: Target|
                stands_for(after, next) && #[trigger] run_ops(rest, after, fuel) == run_ops(
                    asm_for(e) + rest,
                    t,
                    fuel,
                ),
        },
{
    let ops = asm_for(e);
    match e {
        IRExpr::Step(v) => {
            lemma_step_stands(v, t, m);
            let stored = run_op(t, ops[0]).unwrap();
            let moved = run_op(stored, ops[1]).unwrap();
            let loaded = run_op(moved, ops[2]).unwrap();
            let two = seq![ops[2]] + rest;
            let one = seq![ops[1]] + two;
            assert(ops + rest =~= seq![ops[0]] + one);
            lemma_run_one(ops[0], one, t, fuel);
            lemma_run_one(ops[1], two, stored, fuel);
            lemma_run_one(ops[2], rest, moved, fuel);
            assert(run_ops(rest, loaded, fuel) == run_ops(ops + rest, t, fuel));
        },
        _ => {
            lemma_op_stands(e, t, m);
            assert(ops + rest =~= seq![ops[0]] + rest);
            lemma_run_one(ops[0], rest, t, fuel);
            if perform(m, e).is_some() {
                let after = run_op(t, ops[0]).unwrap();
                assert(run_ops(rest, after, fuel) == run_ops(ops + rest, t, fuel));
            }
        },
    }
}

/// The generated operations do on the target what the program does on the
/// machine: from states that stand for each other, and with any fuel, the
/// two runs end in states that stand for each other, or neither ends.
pub proof fn lemma_code_simulates(ir: Seq<IRExpr>, t: Target, m: Machine, fuel: nat)
    requires
        stands_for(t, m),
    ensures
        ends_alike(run_ops(program_asm(ir), t, fuel), exec(ir, m, fuel)),
    decreases fuel, ir.len(),
{
    if ir.len() > 0 {
        let ops = program_asm(ir);
        let rest = ir.skip(1);
        lemma_program_head(ir);
        assert(ops[0] == asm_for(ir[0])[0]);
        match ir[0] {
            IRExpr::ConditionalStart(id) => {
                assert(ops.skip(1) =~= program_asm(rest));
                lemma_tail_is_end(rest, id);
                lemma_first_end(rest, id);
                let k = first_end(rest, id) as int;
                let body = loop_body(ir, id);
                let after = loop_rest(ir, id);
                let kt = first_tail(program_asm(rest), id) as int;
                assert(ops.skip(1).take(kt) =~= program_asm(body));
                if k < rest.len() {
                    assert(after =~= rest.skip(k + 1));
                    assert(ops.skip(kt + 2) =~= program_asm(after));
                } else {
                    assert(after =~= Seq::<IRExpr>::empty());
                    assert(program_asm(after) =~= Seq::<Asm>::empty());
                }
                if t.cell == 0 {
                    lemma_code_simulates(after, t, m, fuel);
                } else if fuel > 0 {
                    let less = (fuel - 1) as nat;
                    lemma_code_simulates(body, t, m, less);
                    match exec(body, m, less) {
                        Some(turned) => {
                            let turned_target = run_ops(program_asm(body), t, less).unwrap();
                            lemma_code_simulates(ir, turned_target, turned, less);
                        },
                        None => {},
                    }
                }
            },
            IRExpr::ConditionalEnd(_) => {
                assert(ops.skip(1) =~= program_asm(rest));
                lemma_code_simulates(rest, t, m, fuel);
            },
            e => {
                lemma_plain_simulates(e, program_asm(rest), t, m, fuel);
                match perform(m, e) {
                    Some(next) => {
                        let after = choose|after: Target|
                            stands_for(after, next) && #[trigger] run_ops(
                                program_asm(rest),
                                after,
                                fuel,
                            ) == run_ops(asm_for(e) + program_asm(rest), t, fuel);
                        lemma_code_simulates(rest, after, next, fuel);
                    },
                    None => {},
                }
            },
        }
    }
}

/// None of the operations is the head or the tail of a loop.
pub open spec fn loop_free(ops: Seq<Asm>) -> bool {
    forall|i: int| 0 <= i < ops.len() ==> !(#[trigger] ops[i] is LoopHead) && !(ops[i] is LoopTail)
}

/// Operations that are no part of a loop need no fuel.
pub proof fn lemma_loop_free_fuel(ops: Seq<Asm>, t: Target, fuel: nat, other: nat)
    requires
        loop_free(ops),
    ensures
        run_ops(ops, t, fuel) == run_ops(ops, t, other),
    decreases ops.len(),
{
    if ops.len() > 0 {
        assert(!(ops[0] is LoopHead) && !(ops[0] is LoopTail));
        assert forall|i: int| 0 <= i < ops.skip(1).len() implies !(#[trigger] ops.skip(1)[i]
            is LoopHead) && !(ops.skip(1)[i] is LoopTail) by {
            assert(ops.skip(1)[i] == ops[i + 1]);
        }
        match run_op(t, ops[0]) {
            Some(next) => {
                lemma_loop_free_fuel(ops.skip(1), next, fuel, other);
            },
            None => {},
        }
    }
}

/// A tail that is found in the first part of the operations is the first
/// tail of the whole.
pub proof fn lemma_first_tail_within(a: Seq<Asm>, b: Seq<Asm>, id: u32)
    requires
        first_tail(a, id) < a.len(),
    ensures
        first_tail(a + b, id) == first_tail(a, id),
    decreases a.len(),
{
    assert((a + b)[0] == a[0]);
    if a[0] != Asm::LoopTail(id) {
        assert((a + b).skip(1) =~= a.skip(1) + b);
        lemma_first_tail_within(a.skip(1), b, id);
    }
}

/// The same with operations to follow: the operations generated for a
/// well-formed program, and then operations that are no part of a loop,
/// do what the program does and go on with what follows.
pub proof fn lemma_code_simulates_then(
    ir: Seq<IRExpr>,
    then: Seq<Asm>,
    t: Target,
    m: Machine,
    fuel: nat,
)
    requires
        stands_for(t, m),
        well_formed(ir),
        loop_free(then),
    ensures
        match exec(ir, m, fuel) {
            None => run_ops(program_asm(ir) + then, t, fuel).is_none(),
            Some(end) => exists|after: Target|
                stands_for(after, end) && #[trigger] run_ops(then, after, fuel) == run_ops(
                    program_asm(ir) + then,
                    t,
                    fuel,
                ),
        },
    decreases fuel, ir.len(),
{
    let ops = program_asm(ir) + then;
    if ir.len() == 0 {
        assert(ops =~= then);
        assert(run_ops(then, t, fuel) == run_ops(ops, t, fuel));
    } else {
        let rest = ir.skip(1);
        lemma_program_head(ir);
        match ir[0] {
            IRExpr::ConditionalStart(id) => {
                lemma_loop_split(ir, id);
                lemma_tail_is_end(rest, id);
                lemma_first_end(rest, id);
                let k = first_end(rest, id) as int;
                let body = loop_body(ir, id);
                let after = loop_rest(ir, id);
                let inner = program_asm(rest);
                let kt = first_tail(inner, id) as int;
                assert(after =~= rest.skip(k + 1));
                assert(ops[0] == Asm::LoopHead(id));
                assert(ops.skip(1) =~= inner + then);
                lemma_first_tail_within(inner, then, id);
                assert(ops.skip(1).take(kt) =~= program_asm(body));
                assert(ops.skip(kt + 2) =~= program_asm(after) + then);
                if t.cell == 0 {
                    lemma_code_simulates_then(after, then, t, m, fuel);
                } else if fuel > 0 {
                    let less = (fuel - 1) as nat;
                    lemma_code_simulates(body, t, m, less);
                    match exec(body, m, less) {
                        Some(turned) => {
                            let turned_target = run_ops(program_asm(body), t, less).unwrap();
                            lemma_code_simulates_then(ir, then, turned_target, turned, less);
                            match exec(ir, turned, less) {
                                Some(end) => {
                                    let last = choose|last: Target|
                                        stands_for(last, end) && #[trigger] run_ops(
                                            then,
                                            last,
                                            less,
                                        ) == run_ops(ops, turned_target, less);
                                    lemma_loop_free_fuel(then, last, less, fuel);
                                },
                                None => {},
                            }
                        },
                        None => {},
                    }
                }
            },
            e => {
                lemma_plain_head(ir);
                assert(ops =~= asm_for(e) + (program_asm(rest) + then));
                lemma_plain_simulates(e, program_asm(rest) + then, t, m, fuel);
                match perform(m, e) {
                    Some(next) => {
                        let after = choose|after: Target|
                            stands_for(after, next) && #[trigger] run_ops(
                                program_asm(rest) + then,
                                after,
                                fuel,
                            ) == run_ops(asm_for(e) + (program_asm(rest) + then), t, fuel);
                        lemma_code_simulates_then(rest, then, after, next, fuel);
                    },
                    None => {},
                }
            },
        }
    }
}

/// The machine at the start: every cell zero, the pointer at cell zero.
pub open spec fn fresh(m: Machine) -> bool {
    &&& whole(m.tape)
    &&& m.tape.pointer == 0
    &&& forall|at: i32| #[trigger] m.tape.cells[at] == 0
}

/// The whole output for a well-formed program, run on a target with zeroed
/// memory, does what the program does from the start: the run ends if and
/// only if the program ends, and then memory holds the tape, cell for
/// cell, and the same bytes have been read and written.
pub proof fn lemma_generated_code_runs(ir: Seq<IRExpr>, t: Target, m: Machine, fuel: nat)
    requires
        well_formed(ir),
        fresh(m),
        forall|at: i32| t.memory.dom().contains(at),
        forall|at: i32| #[trigger] t.memory[at] == 0,
        t.input == m.input,
        t.output == m.output,
    ensures
        match exec(ir, m, fuel) {
            None => run_ops(code_asm(ir, false), t, fuel).is_none(),
            Some(end) => {
                let last = run_ops(code_asm(ir, false), t, fuel);
                &&& last.is_some()
                &&& last.unwrap().memory == end.tape.cells
                &&& last.unwrap().input == end.input
                &&& last.unwrap().output == end.output
            },
        },
{
    let tail = seq![Asm::Store, Asm::Exit];
    let body = program_asm(ir) + tail;
    let from_entry = seq![Asm::Entry] + body;
    let code = code_asm(ir, false);
    assert(code =~= seq![Asm::Header] + from_entry);
    lemma_run_one(Asm::Header, from_entry, t, fuel);
    lemma_run_one(Asm::Entry, body, t, fuel);
    let entered = run_op(t, Asm::Entry).unwrap();
    assert(m.tape.cells.dom().contains(0));
    assert(stands_for(entered, m));
    assert(tail[0] == Asm::Store && tail[1] == Asm::Exit);
    lemma_code_simulates_then(ir, tail, entered, m, fuel);
    match exec(ir, m, fuel) {
        Some(end) => {
            let after = choose|after: Target|
                stands_for(after, end) && #[trigger] run_ops(tail, after, fuel) == run_ops(
                    body,
                    entered,
                    fuel,
                );
            let stored = run_op(after, Asm::Store).unwrap();
            let exit = seq![Asm::Exit];
            assert(tail =~= seq![Asm::Store] + exit);
            lemma_run_one(Asm::Store, exit, after, fuel);
            assert(exit =~= seq![Asm::Exit] + Seq::<Asm>::empty());
            lemma_run_one(Asm::Exit, Seq::<Asm>::empty(), stored, fuel);
            assert(run_ops(Seq::<Asm>::empty(), stored, fuel) == Some(stored));
            lemma_last_store(after, end);
        },
        None => {},
    }
}

} // verus!

//! Code generation: a program of the intermediate representation to the
//! operations of a target that keeps the current cell in a register.
//!
//! The target holds the tape in memory, the pointer in one register and
//! the value of the current cell in another. The cached value is stored
//! before every move of the pointer and loaded after it, and stored once
//! more before the program exits.

use crate::lowering::{IRExpr, IR};
use vstd::prelude::*;

verus! {

/// One operation of the target. How each is written out is left to the
/// caller.
#[derive(Debug, Clone, Copy, PartialEq, Eq, Structural)]
pub enum Asm {
    /// The data section and the start of the text section.
    Header,
    /// A routine that prints the pointer and the first cells of the tape.
    DumpRoutine,
    /// The entry point: cell register and pointer set to zero.
    Entry,
    /// Set the cell register.
    SetCell(i32),
    /// Add one to the cell register.
    IncCell,
    /// Subtract one from the cell register.
    DecCell,
    /// Add to the cell register.
    AddCell(u32),
    /// Subtract from the cell register.
    SubCell(u32),
    /// Store the cell register at the pointer.
    Store,
    /// Load the cell register from the pointer.
    Load,
    /// Move the pointer up by one.
    IncPtr,
    /// Move the pointer down by one.
    DecPtr,
    /// Move the pointer up.
    AddPtr(u32),
    /// Move the pointer down.
    SubPtr(u32),
    /// Read one byte, blocking, into the cell register.
    ReadByte,
    /// Write the cell register out as one byte.
    WriteByte,
    /// The head of a loop: its label, and a jump behind its tail where the
    /// cell register holds zero.
    LoopHead(u32),
    /// The tail of a loop: a jump back to its head, and the label behind.
    LoopTail(u32),
    /// Call the dump routine.
    CallDump,
    /// Leave the program.
    Exit,
}

/// The size of a signed amount, whichever way it points.
pub open spec fn magnitude(v: i32) -> u32 {
    if v >= 0 {
        v as u32
    } else {
        (-(v as int)) as u32
    }
}

/// The operations for one instruction.
pub open spec fn asm_for(e: IRExpr) -> Seq<Asm> {
    match e {
        IRExpr::Assign(v) => seq![Asm::SetCell(v)],
        IRExpr::Update(v) => if v >= 0 {
            seq![Asm::AddCell(magnitude(v))]
        } else {
            seq![Asm::SubCell(magnitude(v))]
        },
        IRExpr::Step(v) => if v >= 0 {
            seq![Asm::Store, Asm::AddPtr(magnitude(v)), Asm::Load]
        } else {
            seq![Asm::Store, Asm::SubPtr(magnitude(v)), Asm::Load]
        },
        IRExpr::Input => seq![Asm::ReadByte],
        IRExpr::Output => seq![Asm::WriteByte],
        IRExpr::ConditionalStart(id) => seq![Asm::LoopHead(id)],
        IRExpr::ConditionalEnd(id) => seq![Asm::LoopTail(id)],
    }
}

/// The operations for a program: those of its instructions, in order.
pub open spec fn program_asm(ir: Seq<IRExpr>) -> Seq<Asm>
    decreases ir.len(),
{
    if ir.len() == 0 {
        Seq::empty()
    } else {
        program_asm(ir.drop_last()) + asm_for(ir.last())
    }
}

/// What stands before the program's operations.
pub open spec fn header_asm(debug: bool) -> Seq<Asm> {
    if debug {
        seq![Asm::Header, Asm::DumpRoutine, Asm::Entry]
    } else {
        seq![Asm::Header, Asm::Entry]
    }
}

/// What stands behind the program's operations: the last store, and the
/// exit.
pub open spec fn end_asm(debug: bool) -> Seq<Asm> {
    if debug {
        seq![Asm::Store, Asm::CallDump, Asm::Exit]
    } else {
        seq![Asm::Store, Asm::Exit]
    }
}

/// The whole output for a program.
pub open spec fn code_asm(ir: Seq<IRExpr>, debug: bool) -> Seq<Asm> {
    header_asm(debug) + program_asm(ir) + end_asm(debug)
}

/// A move of the pointer.
pub open spec fn moves_pointer(op: Asm) -> bool {
    op is AddPtr || op is SubPtr || op is IncPtr || op is DecPtr
}

/// Every move of the pointer in `ops` stands between a store of the cell
/// register and a load of it.
pub open spec fn moves_flushed(ops: Seq<Asm>) -> bool {
    forall|k: int|
        0 <= k < ops.len() && moves_pointer(#[trigger] ops[k]) ==> 0 < k && k + 1 < ops.len()
            && ops[k - 1] == Asm::Store && ops[k + 1] == Asm::Load
}

/// Two outputs that keep the rule of the store and the load keep it when
/// joined.
pub proof fn lemma_flushed_concat(a: Seq<Asm>, b: Seq<Asm>)
    requires
        moves_flushed(a),
        moves_flushed(b),
    ensures
        moves_flushed(a + b),
{
    let s = a + b;
    assert forall|k: int| 0 <= k < s.len() && moves_pointer(#[trigger] s[k]) implies 0 < k && k
        + 1 < s.len() && s[k - 1] == Asm::Store && s[k + 1] == Asm::Load by {
        if k < a.len() {
            assert(s[k] == a[k]);
            assert(s[k - 1] == a[k - 1] && s[k + 1] == a[k + 1]);
        } else {
            let j = k - a.len();
            assert(s[k] == b[j]);
            assert(s[k - 1] == b[j - 1] && s[k + 1] == b[j + 1]);
        }
    }
}

/// In the output for any program the cell register is stored before every
/// move of the pointer and loaded after it, and stored before the exit.
pub proof fn lemma_code_flushes(ir: Seq<IRExpr>, debug: bool)
    ensures
        moves_flushed(program_asm(ir)),
        moves_flushed(code_asm(ir, debug)),
        end_asm(debug)[0] == Asm::Store,
        end_asm(debug).last() == Asm::Exit,
    decreases ir.len(),
{
    if ir.len() > 0 {
        lemma_code_flushes(ir.drop_last(), debug);
        lemma_flushed_concat(program_asm(ir.drop_last()), asm_for(ir.last()));
    }
    lemma_flushed_concat(header_asm(debug), program_asm(ir));
    lemma_flushed_concat(header_asm(debug) + program_asm(ir), end_asm(debug));
}

/// The size of a signed amount.
fn size_of(v: i32) -> (m: u32)
    ensures
        m == magnitude(v),
{
    if v >= 0 {
        v as u32
    } else {
        (-(v as i64)) as u32
    }
}

/// Appends what stands before the program's operations.
pub fn generate_header(f: &mut Vec<Asm>, debug: bool)
    ensures
        final(f)@ == old(f)@ + header_asm(debug),
{
    f.push(Asm::Header);
    if debug {
        f.push(Asm::DumpRoutine);
    }
    f.push(Asm::Entry);
    assert(f@ =~= old(f)@ + header_asm(debug));
}

/// Appends what stands behind the program's operations.
pub fn generate_end(f: &mut Vec<Asm>, debug: bool)
    ensures
        final(f)@ == old(f)@ + end_asm(debug),
{
    f.push(Asm::Store);
    if debug {
        f.push(Asm::CallDump);
    }
    f.push(Asm::Exit);
    assert(f@ =~= old(f)@ + end_asm(debug));
}

/// Appends the operations for a program.
pub fn generate_code_ast(ir: &IR, f: &mut Vec<Asm>)
    ensures
        final(f)@ == old(f)@ + program_asm(ir@),
{
    let mut i: usize = 0;
    assert(f@ =~= old(f)@ + program_asm(ir@.take(0)));
    while i < ir.len()
        invariant
            i <= ir.len(),
            f@ == old(f)@ + program_asm(ir@.take(i as int)),
        decreases ir.len() - i,
    {
        proof {
            assert(ir@.take(i + 1).drop_last() =~= ir@.take(i as int));
            assert(ir@.take(i + 1).last() == ir@[i as int]);
        }
        let ghost before = f@;
        match ir[i] {
            IRExpr::Assign(v) => {
                f.push(Asm::SetCell(v));
            },
            IRExpr::Update(v) => {
                if v >= 0 {
                    f.push(Asm::AddCell(size_of(v)));
                } else {
                    f.push(Asm::SubCell(size_of(v)));
                }
            },
            IRExpr::Step(v) => {
                f.push(Asm::Store);
                if v >= 0 {
                    f.push(Asm::AddPtr(size_of(v)));
                } else {
                    f.push(Asm::SubPtr(size_of(v)));
                }
                f.push(Asm::Load);
            },
            IRExpr::Input => {
                f.push(Asm::ReadByte);
            },
            IRExpr::Output => {
                f.push(Asm::WriteByte);
            },
            IRExpr::ConditionalStart(id) => {
                f.push(Asm::LoopHead(id));
            },
            IRExpr::ConditionalEnd(id) => {
                f.push(Asm::LoopTail(id));
            },
        }
        assert(f@ =~= before + asm_for(ir@[i as int]));
        i += 1;
    }
    assert(ir@.take(i as int) =~= ir@);
}

/// Generates the target's operations for a program: the header, the
/// program, and the end. With `debug` the output also holds a routine that
/// dumps the tape, and a call of it before the exit. The operations for
/// the program do on the target what the program does, and the store
/// before the exit brings memory up to date.
pub fn generate_code(ir: IR, debug: bool) -> (f: Vec<Asm>)
    ensures
        f@ == code_asm(ir@, debug),
{
    let mut f: Vec<Asm> = Vec::new();
    generate_header(&mut f, debug);
    generate_code_ast(&ir, &mut f);
    generate_end(&mut f, debug);
    f
}

} // verus!

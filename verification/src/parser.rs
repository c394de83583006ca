//! Parser: a queue of opcodes to a tree of nested loops.

use crate::lexer::Opcode;
use std::collections::VecDeque;
use vstd::prelude::*;

verus! {

/// A node of the syntax tree: six leaves and the loop, which owns its body.
#[derive(Debug, PartialEq, Eq)]
pub enum Expression {
    Plus,
    Minus,
    Rigth,
    Left,
    Comma,
    Dot,
    Conditional(Ast),
}

/// A block: the nodes of one nesting level, in source order.
#[derive(Debug, PartialEq, Eq)]
pub struct Ast(pub Vec<Expression>);

/// Why a token stream is not a program.
#[derive(Debug, Clone, Copy, PartialEq, Eq, Structural)]
pub enum ParseError {
    /// A loop was opened and the input ended before it was closed.
    UnmatchedOpenBracket,
    /// A closing bracket stands where no loop is open.
    TrailingCloseBracket,
}

impl ParseError {
    /// The error in words.
    pub fn message(&self) -> (text: String)
        ensures
            text@ == match *self {
                ParseError::UnmatchedOpenBracket => "missing closing bracket"@,
                ParseError::TrailingCloseBracket => "Extra character in input"@,
            },
    {
        match self {
            ParseError::UnmatchedOpenBracket => "missing closing bracket".to_owned(),
            ParseError::TrailingCloseBracket => "Extra character in input".to_owned(),
        }
    }
}

/// The tokens that one node is written with.
pub open spec fn expr_tokens(e: Expression) -> Seq<Opcode>
    decreases e,
{
    match e {
        Expression::Plus => seq![Opcode::Plus],
        Expression::Minus => seq![Opcode::Minus],
        Expression::Rigth => seq![Opcode::Rigth],
        Expression::Left => seq![Opcode::Left],
        Expression::Comma => seq![Opcode::Comma],
        Expression::Dot => seq![Opcode::Dot],
        Expression::Conditional(inner) => seq![Opcode::OpenBracket] + block_tokens(inner.0@)
            + seq![Opcode::CloseBracket],
    }
}

/// The tokens that a block is written with: those of its nodes, in order.
pub open spec fn block_tokens(b: Seq<Expression>) -> Seq<Opcode>
    decreases b,
{
    if b.len() == 0 {
        Seq::empty()
    } else {
        block_tokens(b.drop_last()) + expr_tokens(b.last())
    }
}

/// What one token adds to the number of open loops.
pub open spec fn nesting_change(o: Opcode) -> int {
    match o {
        Opcode::OpenBracket => 1,
        Opcode::CloseBracket => -1,
        _ => 0,
    }
}

/// The number of loops that are open after `s`: opening brackets minus
/// closing ones.
pub open spec fn depth(s: Seq<Opcode>) -> int
    decreases s.len(),
{
    if s.len() == 0 {
        0
    } else {
        depth(s.drop_last()) + nesting_change(s.last())
    }
}

/// Some prefix of `s` is less than `floor` deep.
pub open spec fn dips_below(s: Seq<Opcode>, floor: int) -> bool {
    exists|n: int| 0 <= n <= s.len() && #[trigger] depth(s.take(n)) < floor
}

/// Some closing bracket of `s` stands where no loop is open.
pub open spec fn closes_early(s: Seq<Opcode>) -> bool {
    dips_below(s, 0)
}

/// Every closing bracket of `s` closes a loop and every loop is closed.
pub open spec fn well_nested(s: Seq<Opcode>) -> bool {
    !closes_early(s) && depth(s) == 0
}

/// Depth adds up over concatenation.
pub proof fn lemma_depth_concat(a: Seq<Opcode>, b: Seq<Opcode>)
    ensures
        depth(a + b) == depth(a) + depth(b),
    decreases b.len(),
{
    if b.len() == 0 {
        assert(a + b =~= a);
    } else {
        assert((a + b).drop_last() =~= a + b.drop_last());
        lemma_depth_concat(a, b.drop_last());
    }
}

/// A concatenation dips below a floor exactly when its first part does, or
/// its second part dips below what is left of the floor.
pub proof fn lemma_dips_concat(a: Seq<Opcode>, b: Seq<Opcode>, floor: int)
    ensures
        dips_below(a + b, floor) == (dips_below(a, floor) || dips_below(b, floor - depth(a))),
{
    if dips_below(a + b, floor) {
        let n = choose|n: int| 0 <= n <= (a + b).len() && #[trigger] depth((a + b).take(n)) < floor;
        if n <= a.len() {
            assert((a + b).take(n) =~= a.take(n));
        } else {
            assert((a + b).take(n) =~= a + b.take(n - a.len()));
            lemma_depth_concat(a, b.take(n - a.len()));
        }
    }
    if dips_below(a, floor) {
        let n = choose|n: int| 0 <= n <= a.len() && #[trigger] depth(a.take(n)) < floor;
        assert((a + b).take(n) =~= a.take(n));
    }
    if dips_below(b, floor - depth(a)) {
        let n = choose|n: int| 0 <= n <= b.len() && #[trigger] depth(b.take(n)) < floor - depth(a);
        assert((a + b).take(n + a.len()) =~= a + b.take(n));
        lemma_depth_concat(a, b.take(n));
    }
}

/// A single token dips below a floor when the floor is above zero, or above
/// the token's own change.
pub proof fn lemma_dips_single(o: Opcode, floor: int)
    ensures
        depth(seq![o]) == nesting_change(o),
        dips_below(seq![o], floor) == (0 < floor || nesting_change(o) < floor),
{
    let s = seq![o];
    assert(s.drop_last() =~= Seq::<Opcode>::empty());
    assert(depth(s.drop_last()) == 0);
    assert(s.take(0) =~= Seq::<Opcode>::empty());
    assert(s.take(1) =~= s);
    if dips_below(s, floor) {
        let n = choose|n: int| 0 <= n <= s.len() && #[trigger] depth(s.take(n)) < floor;
        assert(n == 0 || n == 1);
    }
    if 0 < floor {
        assert(depth(s.take(0)) < floor);
    }
    if nesting_change(o) < floor {
        assert(depth(s.take(1)) < floor);
    }
}

/// The empty sequence never dips below a floor that is not above zero.
pub proof fn lemma_dips_empty(floor: int)
    ensures
        dips_below(Seq::<Opcode>::empty(), floor) == (0 < floor),
{
    let s = Seq::<Opcode>::empty();
    assert(s.take(0) =~= s);
    if 0 < floor {
        assert(depth(s.take(0)) < floor);
    }
}

/// Appending a leaf to a well-nested prefix keeps it well nested.
proof fn lemma_push_leaf(done: Seq<Expression>, e: Expression, o: Opcode)
    requires
        well_nested(block_tokens(done)),
        expr_tokens(e) == seq![o],
        nesting_change(o) == 0,
    ensures
        block_tokens(done.push(e)) == block_tokens(done) + seq![o],
        well_nested(block_tokens(done.push(e))),
{
    assert(done.push(e).drop_last() =~= done);
    lemma_dips_single(o, 0);
    lemma_dips_concat(block_tokens(done), seq![o], 0);
    lemma_depth_concat(block_tokens(done), seq![o]);
}

/// Appending a loop with a well-nested body to a well-nested prefix keeps it
/// well nested.
proof fn lemma_push_loop(done: Seq<Expression>, e: Expression, body: Seq<Opcode>)
    requires
        well_nested(block_tokens(done)),
        well_nested(body),
        expr_tokens(e) == seq![Opcode::OpenBracket] + body + seq![Opcode::CloseBracket],
    ensures
        block_tokens(done.push(e)) == block_tokens(done) + expr_tokens(e),
        well_nested(block_tokens(done.push(e))),
{
    assert(done.push(e).drop_last() =~= done);
    let open = seq![Opcode::OpenBracket];
    let close = seq![Opcode::CloseBracket];
    lemma_dips_single(Opcode::OpenBracket, 0);
    lemma_dips_single(Opcode::CloseBracket, -1);
    lemma_dips_concat(open, body, 0);
    lemma_depth_concat(open, body);
    lemma_dips_concat(open + body, close, 0);
    lemma_depth_concat(open + body, close);
    lemma_dips_concat(block_tokens(done), expr_tokens(e), 0);
    lemma_depth_concat(block_tokens(done), expr_tokens(e));
}

/// A well-nested prefix, an opening bracket and a rest that leaves loops
/// open (or is well nested) leave a loop open and never close early.
proof fn lemma_left_open(done: Seq<Opcode>, rest: Seq<Opcode>)
    requires
        well_nested(done),
        !closes_early(rest),
        depth(rest) >= 0,
    ensures
        !closes_early(done + seq![Opcode::OpenBracket] + rest),
        depth(done + seq![Opcode::OpenBracket] + rest) > 0,
{
    let open = seq![Opcode::OpenBracket];
    lemma_dips_single(Opcode::OpenBracket, 0);
    lemma_dips_concat(done, open, 0);
    lemma_depth_concat(done, open);
    lemma_dips_concat(done + open, rest, 0);
    lemma_depth_concat(done + open, rest);
    if dips_below(rest, -1) {
        let n = choose|n: int| 0 <= n <= rest.len() && #[trigger] depth(rest.take(n)) < -1;
        assert(depth(rest.take(n)) < 0);
    }
}

/// A well-nested prefix followed by a closing bracket closes early.
proof fn lemma_stray_close(done: Seq<Opcode>, rest: Seq<Opcode>)
    requires
        well_nested(done),
        rest.len() > 0,
        rest[0] == Opcode::CloseBracket,
    ensures
        closes_early(done + rest),
{
    let close = seq![Opcode::CloseBracket];
    assert((done + rest).take(done.len() as int + 1) =~= done + close);
    lemma_depth_concat(done, close);
    lemma_dips_single(Opcode::CloseBracket, 0);
}

/// Parses one block: nodes up to the end of the input or to a closing
/// bracket that no loop of this block opened, which is left in the queue.
pub fn generate_ast_vec(tokens: &mut VecDeque<Opcode>) -> (r: Result<Ast, ParseError>)
    ensures
        match r {
            Ok(ast) => {
                &&& old(tokens)@ == block_tokens(ast.0@) + final(tokens)@
                &&& well_nested(block_tokens(ast.0@))
                &&& final(tokens)@.len() > 0 ==> final(tokens)@[0] == Opcode::CloseBracket
            },
            Err(e) => {
                &&& e == ParseError::UnmatchedOpenBracket
                &&& !closes_early(old(tokens)@)
                &&& depth(old(tokens)@) > 0
                &&& final(tokens)@.len() == 0
            },
        },
    decreases old(tokens)@.len(),
{
    let ghost start = tokens@;
    let mut ast: Vec<Expression> = Vec::new();
    proof {
        lemma_dips_empty(0);
        assert(start =~= block_tokens(ast@) + tokens@);
    }
    loop
        invariant
            start == block_tokens(ast@) + tokens@,
            start == old(tokens)@,
            well_nested(block_tokens(ast@)),
        decreases tokens@.len(),
    {
        let ghost done = ast@;
        let ghost before = tokens@;
        let expr = match tokens.pop_front() {
            None => {
                assert(start =~= block_tokens(ast@));
                return Ok(Ast(ast));
            },
            Some(opcode) => match opcode {
                Opcode::Plus => Expression::Plus,
                Opcode::Minus => Expression::Minus,
                Opcode::Rigth => Expression::Rigth,
                Opcode::Left => Expression::Left,
                Opcode::Comma => Expression::Comma,
                Opcode::Dot => Expression::Dot,
                Opcode::OpenBracket => {
                    let ghost rest = tokens@;
                    assert(start =~= block_tokens(done) + seq![Opcode::OpenBracket] + rest);
                    match generate_ast_vec(tokens) {
                        Err(e) => {
                            proof {
                                lemma_left_open(block_tokens(done), rest);
                            }
                            return Err(e);
                        },
                        Ok(inner) => {
                            let ghost body = block_tokens(inner.0@);
                            let ghost after = tokens@;
                            match tokens.pop_front() {
                                Some(Opcode::CloseBracket) => {
                                    let e = Expression::Conditional(inner);
                                    proof {
                                        lemma_push_loop(done, e, body);
                                        assert(start =~= block_tokens(done.push(e)) + tokens@);
                                    }
                                    e
                                },
                                _ => {
                                    proof {
                                        assert(after.len() == 0);
                                        assert(rest =~= body);
                                        lemma_left_open(block_tokens(done), rest);
                                    }
                                    return Err(ParseError::UnmatchedOpenBracket);
                                },
                            }
                        },
                    }
                },
                Opcode::CloseBracket => {
                    tokens.push_front(Opcode::CloseBracket);
                    assert(tokens@ =~= before);
                    return Ok(Ast(ast));
                },
            },
        };
        proof {
            if expr_tokens(expr).len() == 1 {
                let o = expr_tokens(expr)[0];
                assert(expr_tokens(expr) =~= seq![o]);
                lemma_push_leaf(done, expr, o);
                assert(start =~= block_tokens(done.push(expr)) + tokens@);
            }
        }
        ast.push(expr);
    }
}

/// Parses a whole program. It succeeds exactly on the well-nested token
/// streams, and the tree it returns is written with exactly those tokens.
/// A closing bracket where no loop is open is `TrailingCloseBracket`, found
/// at the first such bracket, which stays at the front of the queue; input
/// that ends inside a loop is `UnmatchedOpenBracket`.
pub fn generate_ast(tokens: &mut VecDeque<Opcode>) -> (r: Result<Ast, ParseError>)
    ensures
        match r {
            Ok(ast) => {
                &&& block_tokens(ast.0@) == old(tokens)@
                &&& well_nested(old(tokens)@)
                &&& final(tokens)@.len() == 0
            },
            Err(ParseError::TrailingCloseBracket) => {
                &&& closes_early(old(tokens)@)
                &&& 0 < final(tokens)@.len() <= old(tokens)@.len()
                &&& final(tokens)@ == old(tokens)@.skip(old(tokens)@.len() - final(tokens)@.len())
                &&& final(tokens)@[0] == Opcode::CloseBracket
                &&& well_nested(old(tokens)@.take(old(tokens)@.len() - final(tokens)@.len()))
            },
            Err(ParseError::UnmatchedOpenBracket) => {
                &&& !closes_early(old(tokens)@)
                &&& depth(old(tokens)@) > 0
                &&& final(tokens)@.len() == 0
            },
        },
{
    match generate_ast_vec(tokens) {
        Err(e) => Err(e),
        Ok(block) => {
            if tokens.len() == 0 {
                assert(old(tokens)@ =~= block_tokens(block.0@));
                Ok(block)
            } else {
                proof {
                    let done = block_tokens(block.0@);
                    lemma_stray_close(done, tokens@);
                    assert(old(tokens)@.skip(old(tokens)@.len() - tokens@.len()) =~= tokens@);
                    assert(old(tokens)@.take(old(tokens)@.len() - tokens@.len()) =~= done);
                }
                Err(ParseError::TrailingCloseBracket)
            }
        },
    }
}

} // verus!

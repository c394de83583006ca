//! Tokenizer: one source character to at most one opcode.

use vstd::prelude::*;

verus! {

/// The eight operators of the source language: `+ - > < , . [ ]`.
#[derive(Debug, Clone, Copy, PartialEq, Eq, Structural)]
pub enum Opcode {
    Plus,
    Minus,
    Rigth,
    Left,
    Comma,
    Dot,
    OpenBracket,
    CloseBracket,
}

/// The opcode a character stands for, if any. Every other character is a
/// comment and stands for nothing.
pub open spec fn opcode_of(character: char) -> Option<Opcode> {
    if character == '+' {
        Some(Opcode::Plus)
    } else if character == '-' {
        Some(Opcode::Minus)
    } else if character == '>' {
        Some(Opcode::Rigth)
    } else if character == '<' {
        Some(Opcode::Left)
    } else if character == ',' {
        Some(Opcode::Comma)
    } else if character == '.' {
        Some(Opcode::Dot)
    } else if character == '[' {
        Some(Opcode::OpenBracket)
    } else if character == ']' {
        Some(Opcode::CloseBracket)
    } else {
        None
    }
}

/// Maps a source character to its opcode.
pub fn parse(character: char) -> (r: Option<Opcode>)
    ensures
        r == opcode_of(character),
{
    match character {
        '+' => Some(Opcode::Plus),
        '-' => Some(Opcode::Minus),
        '>' => Some(Opcode::Rigth),
        '<' => Some(Opcode::Left),
        ',' => Some(Opcode::Comma),
        '.' => Some(Opcode::Dot),
        '[' => Some(Opcode::OpenBracket),
        ']' => Some(Opcode::CloseBracket),
        _ => None,
    }
}

} // verus!

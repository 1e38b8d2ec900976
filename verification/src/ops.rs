//! The operator alphabet and the compiled instruction form.

use vstd::prelude::*;

verus! {

/// The eight primitive operators, one per source character: pointer moves,
/// cell arithmetic, byte I/O, and the two loop jumps.
#[derive(Clone, Copy, PartialEq, Eq, Structural, Debug)]
pub enum OpType {
    /// `<` — move the data pointer left
    OpShl,
    /// `>` — move the data pointer right
    OpShr,
    /// `+` — increment the current cell
    OpInc,
    /// `-` — decrement the current cell
    OpDec,
    /// `.` — write the current cell to the output
    OpOut,
    /// `,` — read a byte into the current cell
    OpIn,
    /// `[` — jump forward past the loop when the current cell is zero
    OpJz,
    /// `]` — jump back to the loop body when the current cell is non-zero
    OpJnz,
}

/// The operator denoted by a source character, if any; every other character
/// is a comment.
pub open spec fn op_of_char(ch: char) -> Option<OpType> {
    if ch == '<' {
        Some(OpType::OpShl)
    } else if ch == '>' {
        Some(OpType::OpShr)
    } else if ch == '+' {
        Some(OpType::OpInc)
    } else if ch == '-' {
        Some(OpType::OpDec)
    } else if ch == '.' {
        Some(OpType::OpOut)
    } else if ch == ',' {
        Some(OpType::OpIn)
    } else if ch == '[' {
        Some(OpType::OpJz)
    } else if ch == ']' {
        Some(OpType::OpJnz)
    } else {
        None
    }
}

/// Whether a character denotes an operator.
pub open spec fn is_op_char(ch: char) -> bool {
    op_of_char(ch) is Some
}

/// Whether a character denotes one of the six non-loop operators, whose
/// consecutive repetitions the compiler folds into one instruction.
pub open spec fn is_fold_char(ch: char) -> bool {
    is_op_char(ch) && ch != '[' && ch != ']'
}

impl OpType {
    /// The mnemonic this operator prints as.
    pub open spec fn spec_name(self) -> Seq<char> {
        match self {
            OpType::OpShl => "OP_SHL"@,
            OpType::OpShr => "OP_SHR"@,
            OpType::OpInc => "OP_INC"@,
            OpType::OpDec => "OP_DEC"@,
            OpType::OpOut => "OP_OUT"@,
            OpType::OpIn => "OP_IN"@,
            OpType::OpJz => "OP_JZ"@,
            OpType::OpJnz => "OP_JNZ"@,
        }
    }

    /// The operator denoted by a source character; `None` on a comment character.
    pub fn from_char(ch: char) -> (r: Option<OpType>)
        ensures
            r == op_of_char(ch),
    {
        if ch == '<' {
            Some(OpType::OpShl)
        } else if ch == '>' {
            Some(OpType::OpShr)
        } else if ch == '+' {
            Some(OpType::OpInc)
        } else if ch == '-' {
            Some(OpType::OpDec)
        } else if ch == '.' {
            Some(OpType::OpOut)
        } else if ch == ',' {
            Some(OpType::OpIn)
        } else if ch == '[' {
            Some(OpType::OpJz)
        } else if ch == ']' {
            Some(OpType::OpJnz)
        } else {
            None
        }
    }

    /// The operator's mnemonic.
    pub fn to_string(&self) -> (r: String)
        ensures
            r@ == self.spec_name(),
    {
        match self {
            OpType::OpShl => "OP_SHL".to_owned(),
            OpType::OpShr => "OP_SHR".to_owned(),
            OpType::OpInc => "OP_INC".to_owned(),
            OpType::OpDec => "OP_DEC".to_owned(),
            OpType::OpOut => "OP_OUT".to_owned(),
            OpType::OpIn => "OP_IN".to_owned(),
            OpType::OpJz => "OP_JZ".to_owned(),
            OpType::OpJnz => "OP_JNZ".to_owned(),
        }
    }
}

/// One compiled instruction. For the six non-loop operators the operand is the
/// length of the source run folded into it (always at least 1); for the two
/// jumps it is the absolute instruction index to jump to.
#[derive(Clone, Copy, PartialEq, Eq, Structural, Debug)]
pub struct Instruction {
    pub opcode: OpType,
    pub operand: usize,
}

} // verus!

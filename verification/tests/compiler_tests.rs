use bfvm::compiler::{generate_ir, UnbalancedLoopError};
use bfvm::ops::{Instruction, OpType};

fn chars(src: &str) -> Vec<char> {
    src.chars().collect()
}

fn inst(opcode: OpType, operand: usize) -> Instruction {
    Instruction { opcode, operand }
}

#[test]
fn from_char_maps_the_eight_operators() {
    assert_eq!(OpType::from_char('<'), Some(OpType::OpShl));
    assert_eq!(OpType::from_char('>'), Some(OpType::OpShr));
    assert_eq!(OpType::from_char('+'), Some(OpType::OpInc));
    assert_eq!(OpType::from_char('-'), Some(OpType::OpDec));
    assert_eq!(OpType::from_char('.'), Some(OpType::OpOut));
    assert_eq!(OpType::from_char(','), Some(OpType::OpIn));
    assert_eq!(OpType::from_char('['), Some(OpType::OpJz));
    assert_eq!(OpType::from_char(']'), Some(OpType::OpJnz));
    assert_eq!(OpType::from_char('x'), None);
    assert_eq!(OpType::from_char(' '), None);
    assert_eq!(OpType::from_char('\n'), None);
}

#[test]
fn to_string_gives_the_mnemonics() {
    assert_eq!(OpType::OpShl.to_string(), "OP_SHL");
    assert_eq!(OpType::OpShr.to_string(), "OP_SHR");
    assert_eq!(OpType::OpInc.to_string(), "OP_INC");
    assert_eq!(OpType::OpDec.to_string(), "OP_DEC");
    assert_eq!(OpType::OpOut.to_string(), "OP_OUT");
    assert_eq!(OpType::OpIn.to_string(), "OP_IN");
    assert_eq!(OpType::OpJz.to_string(), "OP_JZ");
    assert_eq!(OpType::OpJnz.to_string(), "OP_JNZ");
}

#[test]
fn empty_source_compiles_to_nothing() {
    let insts = generate_ir(&chars("")).unwrap();
    assert!(insts.is_empty());
}

#[test]
fn comments_contribute_no_instructions() {
    let insts = generate_ir(&chars("hello world\n\t 123")).unwrap();
    assert!(insts.is_empty());
}

#[test]
fn a_run_folds_into_one_instruction() {
    let insts = generate_ir(&chars("+++")).unwrap();
    assert_eq!(insts, vec![inst(OpType::OpInc, 3)]);

    let insts = generate_ir(&chars(">>><<<")).unwrap();
    assert_eq!(insts, vec![inst(OpType::OpShr, 3), inst(OpType::OpShl, 3)]);

    let insts = generate_ir(&chars("++--..,,")).unwrap();
    assert_eq!(
        insts,
        vec![
            inst(OpType::OpInc, 2),
            inst(OpType::OpDec, 2),
            inst(OpType::OpOut, 2),
            inst(OpType::OpIn, 2),
        ]
    );
}

#[test]
fn a_comment_splits_a_run() {
    // the two '+' are not adjacent in the source, so they do not fold
    let insts = generate_ir(&chars("+a+")).unwrap();
    assert_eq!(insts, vec![inst(OpType::OpInc, 1), inst(OpType::OpInc, 1)]);
}

#[test]
fn a_long_run_keeps_its_exact_length() {
    let src: String = "+".repeat(300);
    let insts = generate_ir(&src.chars().collect()).unwrap();
    assert_eq!(insts, vec![inst(OpType::OpInc, 300)]);
}

#[test]
fn loop_jumps_are_backpatched() {
    // "+[-]": index 1 jumps past the loop (to 4), index 3 jumps to the body (2)
    let insts = generate_ir(&chars("+[-]")).unwrap();
    assert_eq!(
        insts,
        vec![
            inst(OpType::OpInc, 1),
            inst(OpType::OpJz, 4),
            inst(OpType::OpDec, 1),
            inst(OpType::OpJnz, 2),
        ]
    );
}

#[test]
fn nested_loops_resolve_to_their_own_partners() {
    let insts = generate_ir(&chars("[[]]")).unwrap();
    assert_eq!(
        insts,
        vec![
            inst(OpType::OpJz, 4),
            inst(OpType::OpJz, 3),
            inst(OpType::OpJnz, 2),
            inst(OpType::OpJnz, 1),
        ]
    );
}

#[test]
fn unmatched_closing_bracket_is_rejected() {
    assert_eq!(
        generate_ir(&chars("]")),
        Err(UnbalancedLoopError::UnmatchedClosingBracket)
    );
    assert_eq!(
        generate_ir(&chars("][")),
        Err(UnbalancedLoopError::UnmatchedClosingBracket)
    );
    assert_eq!(
        generate_ir(&chars("+[-]]")),
        Err(UnbalancedLoopError::UnmatchedClosingBracket)
    );
}

#[test]
fn unmatched_opening_bracket_is_rejected() {
    assert_eq!(
        generate_ir(&chars("[")),
        Err(UnbalancedLoopError::UnmatchedOpeningBracket)
    );
    assert_eq!(
        generate_ir(&chars("[[]")),
        Err(UnbalancedLoopError::UnmatchedOpeningBracket)
    );
    assert_eq!(
        generate_ir(&chars("+[->+<")),
        Err(UnbalancedLoopError::UnmatchedOpeningBracket)
    );
}

#[test]
fn balanced_brackets_are_accepted() {
    assert!(generate_ir(&chars("[]")).is_ok());
    assert!(generate_ir(&chars("[[][]]")).is_ok());
    assert!(generate_ir(&chars("+[->+<]")).is_ok());
}

#[test]
fn compile_errors_carry_their_diagnostics() {
    assert_eq!(
        UnbalancedLoopError::UnmatchedOpeningBracket.message(),
        "unmatched opening bracket"
    );
    assert_eq!(
        UnbalancedLoopError::UnmatchedClosingBracket.message(),
        "unmatched closing bracket"
    );
}

#[test]
fn compiling_twice_gives_identical_sequences() {
    let src = chars("+++[->>++.<<]x,");
    let first = generate_ir(&src).unwrap();
    let second = generate_ir(&src).unwrap();
    assert_eq!(first, second);
}

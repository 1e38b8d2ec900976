use bfvm::compiler::{generate_ir, UnbalancedLoopError};
use bfvm::vm::{interpret, step_once, BfVm, RunStatus, VmError, DEFAULT_TAPE_SIZE};

const STEPS: u64 = 1_000_000;

fn run(src: &str, tape_size: usize, input: Vec<u8>) -> (BfVm, Result<RunStatus, VmError>) {
    let codes: Vec<char> = src.chars().collect();
    let insts = generate_ir(&codes).unwrap();
    let mut vm = BfVm::new(insts, tape_size, input);
    let r = interpret(&mut vm, STEPS);
    (vm, r)
}

#[test]
fn default_machine_is_idle_and_zeroed() {
    let mut vm = BfVm::default();
    assert_eq!(vm.memory.len(), DEFAULT_TAPE_SIZE);
    assert!(vm.memory.iter().all(|c| *c == 0));
    assert_eq!(vm.dp, 0);
    assert_eq!(vm.pc, 0);
    assert!(vm.insts.is_empty());
    assert_eq!(interpret(&mut vm, STEPS), Ok(RunStatus::Halted));
    assert!(vm.output.is_empty());
}

#[test]
fn scenario_two_increments_then_output() {
    // "++." writes one byte with value 2
    let (vm, r) = run("++.", DEFAULT_TAPE_SIZE, vec![]);
    assert_eq!(r, Ok(RunStatus::Halted));
    assert_eq!(vm.output, vec![2]);
}

#[test]
fn scenario_loop_clears_the_cell() {
    // "+[-]" terminates with tape[0] == 0 and no output
    let (vm, r) = run("+[-]", DEFAULT_TAPE_SIZE, vec![]);
    assert_eq!(r, Ok(RunStatus::Halted));
    assert!(vm.output.is_empty());
    assert_eq!(vm.memory[0], 0);
    assert_eq!(vm.pc, 4);
}

#[test]
fn scenario_lone_closer_fails_to_compile() {
    let codes: Vec<char> = "]".chars().collect();
    assert_eq!(
        generate_ir(&codes),
        Err(UnbalancedLoopError::UnmatchedClosingBracket)
    );
}

#[test]
fn scenario_multiply_five_by_five() {
    // computes 5*5 = 25 into the next cell and outputs it; spaces are comments
    let (vm, r) = run("+++++ [ - > +++++ < ] > .", DEFAULT_TAPE_SIZE, vec![]);
    assert_eq!(r, Ok(RunStatus::Halted));
    assert_eq!(vm.output, vec![25]);
    assert_eq!(vm.memory[0], 0);
    assert_eq!(vm.memory[1], 25);
}

#[test]
fn increment_wraps_past_255_to_zero() {
    let src: String = "+".repeat(256);
    let (vm, r) = run(&src, DEFAULT_TAPE_SIZE, vec![]);
    assert_eq!(r, Ok(RunStatus::Halted));
    assert_eq!(vm.memory[0], 0);

    let src: String = "+".repeat(300);
    let (vm, _) = run(&src, DEFAULT_TAPE_SIZE, vec![]);
    assert_eq!(vm.memory[0], 44); // 300 mod 256
}

#[test]
fn decrement_wraps_below_zero_to_255() {
    let (vm, r) = run("-.", DEFAULT_TAPE_SIZE, vec![]);
    assert_eq!(r, Ok(RunStatus::Halted));
    assert_eq!(vm.output, vec![255]);

    let src: String = "-".repeat(300);
    let (vm, _) = run(&src, DEFAULT_TAPE_SIZE, vec![]);
    assert_eq!(vm.memory[0], 212); // -300 mod 256
}

#[test]
fn moving_left_of_the_tape_underflows() {
    let (vm, r) = run("<", DEFAULT_TAPE_SIZE, vec![]);
    assert_eq!(r, Err(VmError::TapeUnderflow));
    // the failing move corrupts nothing
    assert_eq!(vm.dp, 0);
    assert!(vm.memory.iter().all(|c| *c == 0));
}

#[test]
fn moving_past_the_tape_end_overflows() {
    let (vm, r) = run("+>>", 2, vec![]);
    assert_eq!(r, Err(VmError::TapeOverflow));
    assert_eq!(vm.dp, 0);
    assert_eq!(vm.memory[0], 1);
    assert_eq!(vm.memory[1], 0);
}

#[test]
fn landing_on_the_last_cell_is_allowed() {
    let (vm, r) = run(">+.", 2, vec![]);
    assert_eq!(r, Ok(RunStatus::Halted));
    assert_eq!(vm.dp, 1);
    assert_eq!(vm.output, vec![1]);
}

#[test]
fn input_byte_lands_in_the_current_cell() {
    let (vm, r) = run(",.", DEFAULT_TAPE_SIZE, vec![65]);
    assert_eq!(r, Ok(RunStatus::Halted));
    assert_eq!(vm.output, vec![65]);
    assert_eq!(vm.in_pos, 1);
}

#[test]
fn folded_input_keeps_the_last_byte() {
    // ",," reads two bytes; the last one wins
    let (vm, r) = run(",,.", DEFAULT_TAPE_SIZE, vec![7, 9]);
    assert_eq!(r, Ok(RunStatus::Halted));
    assert_eq!(vm.output, vec![9]);
    assert_eq!(vm.in_pos, 2);
}

#[test]
fn reading_past_the_input_fails() {
    let (_, r) = run(",", DEFAULT_TAPE_SIZE, vec![]);
    assert_eq!(r, Err(VmError::EndOfInput));

    let (vm, r) = run(",,", DEFAULT_TAPE_SIZE, vec![1]);
    assert_eq!(r, Err(VmError::EndOfInput));
    // the failing read applies no effect
    assert_eq!(vm.in_pos, 0);
    assert_eq!(vm.memory[0], 0);
}

#[test]
fn folded_output_repeats_the_cell() {
    let (vm, r) = run("+..", DEFAULT_TAPE_SIZE, vec![]);
    assert_eq!(r, Ok(RunStatus::Halted));
    assert_eq!(vm.output, vec![1, 1]);
}

#[test]
fn an_endless_loop_runs_out_of_steps() {
    let codes: Vec<char> = "+[]".chars().collect();
    let insts = generate_ir(&codes).unwrap();
    let mut vm = BfVm::new(insts, DEFAULT_TAPE_SIZE, vec![]);
    assert_eq!(interpret(&mut vm, 100), Ok(RunStatus::OutOfSteps));
    // the machine's state carries over; resuming changes nothing observable
    assert_eq!(interpret(&mut vm, 100), Ok(RunStatus::OutOfSteps));
    assert_eq!(vm.memory[0], 1);
}

#[test]
fn stepping_once_applies_one_instruction() {
    let codes: Vec<char> = "+.".chars().collect();
    let insts = generate_ir(&codes).unwrap();
    let mut vm = BfVm::new(insts, 8, vec![]);
    assert_eq!(step_once(&mut vm), Ok(()));
    assert_eq!(vm.memory[0], 1);
    assert_eq!(vm.pc, 1);
    assert!(vm.output.is_empty());
    assert_eq!(step_once(&mut vm), Ok(()));
    assert_eq!(vm.output, vec![1]);
    assert_eq!(vm.pc, 2);
}

#[test]
fn run_errors_carry_their_diagnostics() {
    assert_eq!(VmError::TapeUnderflow.message(), "data pointer underflow");
    assert_eq!(VmError::TapeOverflow.message(), "data pointer overflow");
    assert_eq!(VmError::EndOfInput.message(), "no input left");
}

#[test]
fn a_loop_entered_with_zero_is_skipped() {
    let (vm, r) = run("[+++.]", DEFAULT_TAPE_SIZE, vec![]);
    assert_eq!(r, Ok(RunStatus::Halted));
    assert!(vm.output.is_empty());
    assert_eq!(vm.memory[0], 0);
}

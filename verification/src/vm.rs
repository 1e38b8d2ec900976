//! The bytecode virtual machine: a fixed-size byte tape, a data pointer, a
//! program counter, wraparound cell arithmetic, and checked pointer moves.
//!
//! Input is a byte buffer consumed left to right; running out of it during an
//! Input operation is fatal (`EndOfInput`), and the failing instruction applies
//! no effect. Output is collected as a byte sequence.

use vstd::arithmetic::div_mod::{
    lemma_add_mod_noop, lemma_mod_add_multiples_vanish, lemma_mod_bound, lemma_small_mod,
    lemma_sub_mod_noop,
};
use vstd::prelude::*;

use crate::ops::{Instruction, OpType};

verus! {

/// A run-time failure of the virtual machine.
#[derive(Clone, Copy, PartialEq, Eq, Structural, Debug)]
pub enum VmError {
    /// the data pointer would move below cell 0
    TapeUnderflow,
    /// the data pointer would move to or past the end of the tape
    TapeOverflow,
    /// an Input operation found no byte left in the input buffer
    EndOfInput,
}

impl VmError {
    /// The diagnostic this error prints as.
    pub open spec fn spec_message(self) -> Seq<char> {
        match self {
            VmError::TapeUnderflow => "data pointer underflow"@,
            VmError::TapeOverflow => "data pointer overflow"@,
            VmError::EndOfInput => "no input left"@,
        }
    }

    /// The diagnostic this error prints as.
    pub fn message(&self) -> (r: String)
        ensures
            r@ == self.spec_message(),
    {
        match self {
            VmError::TapeUnderflow => "data pointer underflow".to_owned(),
            VmError::TapeOverflow => "data pointer overflow".to_owned(),
            VmError::EndOfInput => "no input left".to_owned(),
        }
    }
}

/// How a bounded run ended when no failure occurred.
#[derive(Clone, Copy, PartialEq, Eq, Structural, Debug)]
pub enum RunStatus {
    /// the program counter reached the end of the instruction sequence
    Halted,
    /// the step budget ran out before the program halted
    OutOfSteps,
}

/// The machine's mathematical state: tape contents, data pointer, program
/// counter, how much input has been consumed, and the output written so far.
pub struct VmState {
    pub tape: Seq<u8>,
    pub dp: int,
    pub pc: int,
    pub in_pos: int,
    pub output: Seq<u8>,
}

/// The effect of the single instruction at `s.pc`. The six folded operators
/// apply their whole run at once: a move of `n` shifts the data pointer by
/// `n` with a bounds check, arithmetic adds or subtracts `n` modulo 256,
/// Output writes the current cell `n` times, and Input consumes `n` bytes of
/// which the last one lands in the current cell. The two jumps set the
/// program counter; everything else advances it by one.
pub open spec fn step(insts: Seq<Instruction>, input: Seq<u8>, s: VmState) -> Result<
    VmState,
    VmError,
>
    recommends
        0 <= s.pc < insts.len(),
        0 <= s.dp < s.tape.len(),
{
    let inst = insts[s.pc];
    let n = inst.operand as int;
    match inst.opcode {
        OpType::OpShl => if s.dp < n {
            Err(VmError::TapeUnderflow)
        } else {
            Ok(VmState { tape: s.tape, dp: s.dp - n, pc: s.pc + 1, in_pos: s.in_pos, output: s.output })
        },
        OpType::OpShr => if s.dp + n >= s.tape.len() {
            Err(VmError::TapeOverflow)
        } else {
            Ok(VmState { tape: s.tape, dp: s.dp + n, pc: s.pc + 1, in_pos: s.in_pos, output: s.output })
        },
        OpType::OpInc => Ok(
            VmState {
                tape: s.tape.update(s.dp, (((s.tape[s.dp] + n) % 256) as u8)),
                dp: s.dp,
                pc: s.pc + 1,
                in_pos: s.in_pos,
                output: s.output,
            },
        ),
        OpType::OpDec => Ok(
            VmState {
                tape: s.tape.update(s.dp, (((s.tape[s.dp] - n) % 256) as u8)),
                dp: s.dp,
                pc: s.pc + 1,
                in_pos: s.in_pos,
                output: s.output,
            },
        ),
        OpType::OpOut => Ok(
            VmState {
                tape: s.tape,
                dp: s.dp,
                pc: s.pc + 1,
                in_pos: s.in_pos,
                output: s.output + Seq::new(n as nat, |t: int| s.tape[s.dp]),
            },
        ),
        OpType::OpIn => if s.in_pos + n > input.len() {
            Err(VmError::EndOfInput)
        } else if n == 0 {
            Ok(VmState { tape: s.tape, dp: s.dp, pc: s.pc + 1, in_pos: s.in_pos, output: s.output })
        } else {
            Ok(
                VmState {
                    tape: s.tape.update(s.dp, input[s.in_pos + n - 1]),
                    dp: s.dp,
                    pc: s.pc + 1,
                    in_pos: s.in_pos + n,
                    output: s.output,
                },
            )
        },
        OpType::OpJz => Ok(
            VmState {
                tape: s.tape,
                dp: s.dp,
                pc: if s.tape[s.dp] == 0 {
                    n
                } else {
                    s.pc + 1
                },
                in_pos: s.in_pos,
                output: s.output,
            },
        ),
        OpType::OpJnz => Ok(
            VmState {
                tape: s.tape,
                dp: s.dp,
                pc: if s.tape[s.dp] != 0 {
                    n
                } else {
                    s.pc + 1
                },
                in_pos: s.in_pos,
                output: s.output,
            },
        ),
    }
}

/// The outcome of running for some number of steps: still going, halted
/// because the program counter left the instruction sequence, or failed.
pub enum Outcome {
    Running(VmState),
    Done(VmState),
    Failed(VmError, VmState),
}

/// One dispatch: halt when the program counter is outside the instruction
/// sequence, otherwise apply the instruction under it. A failing instruction
/// leaves the state exactly as it was.
pub open spec fn run_one(insts: Seq<Instruction>, input: Seq<u8>, s: VmState) -> Outcome {
    if !(0 <= s.pc < insts.len()) {
        Outcome::Done(s)
    } else {
        match step(insts, input, s) {
            Ok(s2) => Outcome::Running(s2),
            Err(e) => Outcome::Failed(e, s),
        }
    }
}

/// The machine after exactly `n` dispatches from `s`; halting and failure are
/// final, so a `Done` or `Failed` outcome persists however large `n` grows.
pub open spec fn run_n(insts: Seq<Instruction>, input: Seq<u8>, s: VmState, n: nat) -> Outcome
    decreases n,
{
    if n == 0 {
        Outcome::Running(s)
    } else {
        match run_n(insts, input, s, (n - 1) as nat) {
            Outcome::Running(s2) => run_one(insts, input, s2),
            o => o,
        }
    }
}

proof fn lemma_run_step_ok(
    insts: Seq<Instruction>,
    input: Seq<u8>,
    init: VmState,
    pre: VmState,
    post: VmState,
    n: nat,
)
    requires
        run_n(insts, input, init, n) == Outcome::Running(pre),
        0 <= pre.pc < insts.len(),
        step(insts, input, pre) == Result::<VmState, VmError>::Ok(post),
    ensures
        run_n(insts, input, init, n + 1) == Outcome::Running(post),
{
}

proof fn lemma_run_step_err(
    insts: Seq<Instruction>,
    input: Seq<u8>,
    init: VmState,
    pre: VmState,
    e: VmError,
    n: nat,
)
    requires
        run_n(insts, input, init, n) == Outcome::Running(pre),
        0 <= pre.pc < insts.len(),
        step(insts, input, pre) == Result::<VmState, VmError>::Err(e),
    ensures
        run_n(insts, input, init, n + 1) == Outcome::Failed(e, pre),
{
}

proof fn lemma_run_done(insts: Seq<Instruction>, input: Seq<u8>, init: VmState, s: VmState, n: nat)
    requires
        run_n(insts, input, init, n) == Outcome::Running(s),
        !(0 <= s.pc < insts.len()),
    ensures
        run_n(insts, input, init, n + 1) == Outcome::Done(s),
{
}

/// Halting and failure are final: once a run is `Done` or `Failed` after `n`
/// dispatches, every longer run ends the same way.
pub proof fn lemma_run_absorbs(insts: Seq<Instruction>, input: Seq<u8>, s: VmState, n: nat, m: nat)
    requires
        n <= m,
        !(run_n(insts, input, s, n) is Running),
    ensures
        run_n(insts, input, s, m) == run_n(insts, input, s, n),
    decreases m,
{
    if n < m {
        lemma_run_absorbs(insts, input, s, n, (m - 1) as nat);
    }
}

/// The default tape length, in cells.
pub const DEFAULT_TAPE_SIZE: usize = 30000;

/// A virtual machine instance: the compiled program, the tape, both cursors,
/// the input buffer with its read position, and the output written so far.
pub struct BfVm {
    pub insts: Vec<Instruction>,
    pub dp: usize,
    pub pc: usize,
    pub memory: Vec<u8>,
    pub input: Vec<u8>,
    pub in_pos: usize,
    pub output: Vec<u8>,
}

impl BfVm {
    /// The machine's registers, tape, and streams as a mathematical state.
    pub open spec fn state(self) -> VmState {
        VmState {
            tape: self.memory@,
            dp: self.dp as int,
            pc: self.pc as int,
            in_pos: self.in_pos as int,
            output: self.output@,
        }
    }

    /// The data pointer addresses a tape cell and the read position has not
    /// run past the input buffer.
    pub open spec fn wf(self) -> bool {
        &&& self.dp < self.memory.len()
        &&& self.in_pos <= self.input.len()
    }

    /// A machine over `insts` with a zeroed tape of `tape_size` cells, the
    /// given input buffer, and both cursors at 0.
    pub fn new(insts: Vec<Instruction>, tape_size: usize, input: Vec<u8>) -> (vm: BfVm)
        requires
            1 <= tape_size,
        ensures
            vm.insts == insts,
            vm.input == input,
            vm.dp == 0,
            vm.pc == 0,
            vm.in_pos == 0,
            vm.output@ == Seq::<u8>::empty(),
            vm.memory@ == Seq::new(tape_size as nat, |t: int| 0u8),
            vm.wf(),
    {
        let mut memory: Vec<u8> = Vec::new();
        proof {
            assert(memory@ =~= Seq::new(0, |t: int| 0u8));
        }
        let mut t: usize = 0;
        while t < tape_size
            invariant
                t <= tape_size,
                memory@ == Seq::new(t as nat, |q: int| 0u8),
            decreases tape_size - t,
        {
            memory.push(0);
            t += 1;
            proof {
                assert(Seq::new(t as nat, |q: int| 0u8) =~= Seq::new(
                    (t - 1) as nat,
                    |q: int| 0u8,
                ).push(0u8));
            }
        }
        BfVm { insts, dp: 0, pc: 0, memory, input, in_pos: 0, output: Vec::new() }
    }
}

impl Default for BfVm {
    /// An idle machine: no program, no input, a zeroed tape of
    /// `DEFAULT_TAPE_SIZE` cells.
    fn default() -> (vm: BfVm)
        ensures
            vm.insts@ == Seq::<Instruction>::empty(),
            vm.input@ == Seq::<u8>::empty(),
            vm.dp == 0,
            vm.pc == 0,
            vm.in_pos == 0,
            vm.output@ == Seq::<u8>::empty(),
            vm.memory@ == Seq::new(DEFAULT_TAPE_SIZE as nat, |t: int| 0u8),
            vm.wf(),
    {
        BfVm::new(Vec::new(), DEFAULT_TAPE_SIZE, Vec::new())
    }
}

proof fn lemma_wrap_add(cell: u8, n: int)
    requires
        0 <= n,
    ensures
        vstd::wrapping::u8_specs::wrapping_add(cell, (n % 256) as u8) == ((cell + n) % 256) as u8,
{
    let delta = (n % 256) as int;
    lemma_mod_bound(n, 256);
    lemma_small_mod(cell as nat, 256);
    lemma_add_mod_noop(cell as int, n, 256);
    assert((cell + delta) % 256 == (cell + n) % 256);
    if cell + delta < 256 {
        lemma_small_mod((cell + delta) as nat, 256);
    } else {
        lemma_mod_add_multiples_vanish(cell + delta - 256, 256);
        lemma_small_mod((cell + delta - 256) as nat, 256);
    }
}

proof fn lemma_wrap_sub(cell: u8, n: int)
    requires
        0 <= n,
    ensures
        vstd::wrapping::u8_specs::wrapping_sub(cell, (n % 256) as u8) == ((cell - n) % 256) as u8,
{
    let delta = (n % 256) as int;
    lemma_mod_bound(n, 256);
    lemma_small_mod(cell as nat, 256);
    lemma_sub_mod_noop(cell as int, n, 256);
    assert((cell - delta) % 256 == (cell - n) % 256);
    if cell - delta >= 0 {
        lemma_small_mod((cell - delta) as nat, 256);
    } else {
        lemma_mod_add_multiples_vanish(cell - delta, 256);
        lemma_small_mod((cell - delta + 256) as nat, 256);
    }
}

/// Dispatches the single instruction under the program counter. On failure the
/// machine is left exactly as it was.
pub fn step_once(vm: &mut BfVm) -> (r: Result<(), VmError>)
    requires
        old(vm).wf(),
        old(vm).pc < old(vm).insts.len(),
    ensures
        final(vm).wf(),
        final(vm).insts == old(vm).insts,
        final(vm).input == old(vm).input,
        final(vm).memory@.len() == old(vm).memory@.len(),
        match r {
            Ok(()) => step(old(vm).insts@, old(vm).input@, old(vm).state()) == Result::<
                VmState,
                VmError,
            >::Ok(final(vm).state()),
            Err(e) => step(old(vm).insts@, old(vm).input@, old(vm).state()) == Result::<
                VmState,
                VmError,
            >::Err(e) && final(vm).state() == old(vm).state(),
        },
{
    let ghost pre = old(vm).state();
    let inst = vm.insts[vm.pc];
    match inst.opcode {
        OpType::OpShl => {
            if vm.dp < inst.operand {
                return Err(VmError::TapeUnderflow);
            }
            vm.dp = vm.dp - inst.operand;
            vm.pc = vm.pc + 1;
        },
        OpType::OpShr => {
            if inst.operand >= vm.memory.len() - vm.dp {
                return Err(VmError::TapeOverflow);
            }
            vm.dp = vm.dp + inst.operand;
            vm.pc = vm.pc + 1;
        },
        OpType::OpInc => {
            let cell = vm.memory[vm.dp];
            let delta = (inst.operand % 256) as u8;
            vm.memory[vm.dp] = cell.wrapping_add(delta);
            vm.pc = vm.pc + 1;
            proof {
                lemma_wrap_add(cell, inst.operand as int);
            }
        },
        OpType::OpDec => {
            let cell = vm.memory[vm.dp];
            let delta = (inst.operand % 256) as u8;
            vm.memory[vm.dp] = cell.wrapping_sub(delta);
            vm.pc = vm.pc + 1;
            proof {
                lemma_wrap_sub(cell, inst.operand as int);
            }
        },
        OpType::OpOut => {
            let byte = vm.memory[vm.dp];
            let ghost pre_out = vm.output@;
            let mut t: usize = 0;
            while t < inst.operand
                invariant
                    t <= inst.operand,
                    vm.insts == old(vm).insts,
                    vm.input == old(vm).input,
                    vm.memory@ == pre.tape,
                    vm.dp == pre.dp,
                    vm.pc == pre.pc,
                    vm.in_pos == pre.in_pos,
                    byte == pre.tape[pre.dp],
                    vm.output@ == pre_out + Seq::new(t as nat, |q: int| byte),
                decreases inst.operand - t,
            {
                vm.output.push(byte);
                t += 1;
                proof {
                    assert(Seq::new(t as nat, |q: int| byte) =~= Seq::new(
                        (t - 1) as nat,
                        |q: int| byte,
                    ).push(byte));
                }
            }
            vm.pc = vm.pc + 1;
            proof {
                assert(Seq::new(inst.operand as nat, |q: int| byte) =~= Seq::new(
                    inst.operand as nat,
                    |q: int| pre.tape[pre.dp],
                ));
                assert(vm.output@ =~= pre.output + Seq::new(
                    inst.operand as nat,
                    |q: int| pre.tape[pre.dp],
                ));
            }
        },
        OpType::OpIn => {
            if inst.operand > vm.input.len() - vm.in_pos {
                return Err(VmError::EndOfInput);
            }
            if inst.operand > 0 {
                let byte = vm.input[vm.in_pos + inst.operand - 1];
                vm.memory[vm.dp] = byte;
                vm.in_pos = vm.in_pos + inst.operand;
            }
            vm.pc = vm.pc + 1;
        },
        OpType::OpJz => {
            if vm.memory[vm.dp] == 0 {
                vm.pc = inst.operand;
            } else {
                vm.pc = vm.pc + 1;
            }
        },
        OpType::OpJnz => {
            if vm.memory[vm.dp] != 0 {
                vm.pc = inst.operand;
            } else {
                vm.pc = vm.pc + 1;
            }
        },
    }
    proof {
        assert(step(old(vm).insts@, old(vm).input@, pre) == Result::<VmState, VmError>::Ok(
            vm.state(),
        ));
    }
    Ok(())
}

/// Runs the machine until it halts, fails, or has dispatched `max_steps`
/// instructions. The budget is the embedding hook the resource model allows:
/// it is checked once per dispatch and changes no other semantics, and a
/// caller wanting unbounded execution re-invokes on the same machine, whose
/// state carries over. Running out of input during an Input operation is
/// fatal; the failing instruction applies no effect.
pub fn interpret(vm: &mut BfVm, max_steps: u64) -> (r: Result<RunStatus, VmError>)
    requires
        old(vm).wf(),
    ensures
        final(vm).wf(),
        final(vm).insts == old(vm).insts,
        final(vm).input == old(vm).input,
        final(vm).memory@.len() == old(vm).memory@.len(),
        match r {
            Ok(RunStatus::Halted) => run_n(
                old(vm).insts@,
                old(vm).input@,
                old(vm).state(),
                (max_steps + 1) as nat,
            ) == Outcome::Done(final(vm).state()),
            Ok(RunStatus::OutOfSteps) => run_n(
                old(vm).insts@,
                old(vm).input@,
                old(vm).state(),
                max_steps as nat,
            ) == Outcome::Running(final(vm).state()),
            Err(e) => run_n(
                old(vm).insts@,
                old(vm).input@,
                old(vm).state(),
                (max_steps + 1) as nat,
            ) == Outcome::Failed(e, final(vm).state()),
        },
{
    let ghost insts_s = old(vm).insts@;
    let ghost input_s = old(vm).input@;
    let ghost init = old(vm).state();
    let mut steps: u64 = 0;
    while vm.pc < vm.insts.len() && steps < max_steps
        invariant
            vm.wf(),
            vm.insts == old(vm).insts,
            vm.input == old(vm).input,
            vm.memory@.len() == old(vm).memory@.len(),
            insts_s == old(vm).insts@,
            input_s == old(vm).input@,
            init == old(vm).state(),
            steps <= max_steps,
            run_n(insts_s, input_s, init, steps as nat) == Outcome::Running(vm.state()),
        decreases max_steps - steps,
    {
        let ghost pre = vm.state();
        match step_once(vm) {
            Ok(()) => {
                proof {
                    lemma_run_step_ok(insts_s, input_s, init, pre, vm.state(), steps as nat);
                }
            },
            Err(e) => {
                proof {
                    lemma_run_step_err(insts_s, input_s, init, pre, e, steps as nat);
                    lemma_run_absorbs(
                        insts_s,
                        input_s,
                        init,
                        (steps + 1) as nat,
                        (max_steps + 1) as nat,
                    );
                }
                return Err(e);
            },
        }
        steps = steps + 1;
    }
    if vm.pc >= vm.insts.len() {
        proof {
            lemma_run_done(insts_s, input_s, init, vm.state(), steps as nat);
            lemma_run_absorbs(insts_s, input_s, init, (steps + 1) as nat, (max_steps + 1) as nat);
        }
        Ok(RunStatus::Halted)
    } else {
        Ok(RunStatus::OutOfSteps)
    }
}

/// Wraparound law: Increment adds its operand to the current cell modulo 256
/// and never fails; in particular a cell pushed past 255 wraps around to 0.
pub proof fn lemma_increment_wraps(insts: Seq<Instruction>, input: Seq<u8>, s: VmState)
    requires
        0 <= s.pc < insts.len(),
        0 <= s.dp < s.tape.len(),
        insts[s.pc].opcode == OpType::OpInc,
    ensures
        step(insts, input, s) is Ok,
        step(insts, input, s)->Ok_0.tape[s.dp] == (s.tape[s.dp] + insts[s.pc].operand) % 256,
        s.tape[s.dp] + insts[s.pc].operand == 256 ==> step(insts, input, s)->Ok_0.tape[s.dp] == 0,
{
    lemma_mod_bound(s.tape[s.dp] + insts[s.pc].operand, 256);
}

/// Wraparound law: Decrement subtracts its operand from the current cell
/// modulo 256 and never fails; in particular a zero cell decremented once
/// wraps around to 255.
pub proof fn lemma_decrement_wraps(insts: Seq<Instruction>, input: Seq<u8>, s: VmState)
    requires
        0 <= s.pc < insts.len(),
        0 <= s.dp < s.tape.len(),
        insts[s.pc].opcode == OpType::OpDec,
    ensures
        step(insts, input, s) is Ok,
        step(insts, input, s)->Ok_0.tape[s.dp] == (s.tape[s.dp] - insts[s.pc].operand) % 256,
        s.tape[s.dp] == 0 && insts[s.pc].operand == 1 ==> step(insts, input, s)->Ok_0.tape[s.dp]
            == 255,
{
    lemma_mod_bound(s.tape[s.dp] - insts[s.pc].operand, 256);
}

/// Boundary law: a move that would take the data pointer below 0 or to or past
/// the end of the tape fails with the corresponding error, and the failing
/// dispatch leaves the machine — tape included — exactly as it was.
pub proof fn lemma_move_bounds(insts: Seq<Instruction>, input: Seq<u8>, s: VmState)
    requires
        0 <= s.pc < insts.len(),
        0 <= s.dp < s.tape.len(),
    ensures
        insts[s.pc].opcode == OpType::OpShl && s.dp < insts[s.pc].operand ==> step(insts, input, s)
            == Result::<VmState, VmError>::Err(VmError::TapeUnderflow),
        insts[s.pc].opcode == OpType::OpShr && s.dp + insts[s.pc].operand >= s.tape.len() ==> step(
            insts,
            input,
            s,
        ) == Result::<VmState, VmError>::Err(VmError::TapeOverflow),
        (step(insts, input, s) is Err) ==> run_one(insts, input, s) == Outcome::Failed(
            step(insts, input, s)->Err_0,
            s,
        ),
{
}

} // verus!

//! Single-pass compiler: folds operator runs and backpatches loop jumps.

use vstd::prelude::*;

use crate::ops::{is_fold_char, op_of_char, Instruction, OpType};

verus! {

/// Compilation failure: the source's loop brackets do not pair up.
#[derive(Clone, Copy, PartialEq, Eq, Structural, Debug)]
pub enum UnbalancedLoopError {
    /// a `[` was never closed
    UnmatchedOpeningBracket,
    /// a `]` had no matching `[`
    UnmatchedClosingBracket,
}

impl UnbalancedLoopError {
    /// The diagnostic this error prints as.
    pub open spec fn spec_message(self) -> Seq<char> {
        match self {
            UnbalancedLoopError::UnmatchedOpeningBracket => "unmatched opening bracket"@,
            UnbalancedLoopError::UnmatchedClosingBracket => "unmatched closing bracket"@,
        }
    }

    /// The diagnostic this error prints as.
    pub fn message(&self) -> (r: String)
        ensures
            r@ == self.spec_message(),
    {
        match self {
            UnbalancedLoopError::UnmatchedOpeningBracket => "unmatched opening bracket".to_owned(),
            UnbalancedLoopError::UnmatchedClosingBracket => "unmatched closing bracket".to_owned(),
        }
    }
}

/// The first position at or after `i` that ends the run of `ch`: the least
/// `j >= i` with `j == codes.len()` or `codes[j] != ch`.
pub open spec fn run_end(codes: Seq<char>, ch: char, i: int) -> int
    decreases codes.len() - i
        when 0 <= i <= codes.len()
{
    if i < codes.len() && codes[i] == ch {
        run_end(codes, ch, i + 1)
    } else {
        i
    }
}

/// `run_end` stays within the source, the skipped positions all hold `ch`, and
/// the position it stops at does not.
pub proof fn lemma_run_end_props(codes: Seq<char>, ch: char, i: int)
    requires
        0 <= i <= codes.len(),
    ensures
        i <= run_end(codes, ch, i) <= codes.len(),
        forall|t: int| i <= t < run_end(codes, ch, i) ==> codes[t] == ch,
        run_end(codes, ch, i) < codes.len() ==> codes[run_end(codes, ch, i)] != ch,
    decreases codes.len() - i,
{
    if i < codes.len() && codes[i] == ch {
        lemma_run_end_props(codes, ch, i + 1);
    }
}

/// The compiler's single pass, from position `i` with the instructions emitted
/// and the loop openers still unmatched so far. On a non-loop operator it
/// emits one instruction carrying the whole run's length; on `[` it emits a
/// placeholder jump and remembers its address; on `]` it emits the backward
/// jump and backpatches the remembered opener; any other character is skipped.
pub open spec fn compile_from(
    codes: Seq<char>,
    i: int,
    insts: Seq<Instruction>,
    stack: Seq<usize>,
) -> Result<Seq<Instruction>, UnbalancedLoopError>
    decreases codes.len() - i
        when 0 <= i <= codes.len()
        via compile_from_decreases
{
    if i >= codes.len() {
        if stack.len() == 0 {
            Ok(insts)
        } else {
            Err(UnbalancedLoopError::UnmatchedOpeningBracket)
        }
    } else {
        let ch = codes[i];
        if is_fold_char(ch) {
            let j = run_end(codes, ch, i + 1);
            compile_from(
                codes,
                j,
                insts.push(Instruction { opcode: op_of_char(ch)->Some_0, operand: (j - i) as usize }),
                stack,
            )
        } else if ch == '[' {
            compile_from(
                codes,
                i + 1,
                insts.push(Instruction { opcode: OpType::OpJz, operand: 0 }),
                stack.push(insts.len() as usize),
            )
        } else if ch == ']' {
            if stack.len() == 0 {
                Err(UnbalancedLoopError::UnmatchedClosingBracket)
            } else {
                let open_addr = stack.last() as int;
                let with_jnz = insts.push(
                    Instruction { opcode: OpType::OpJnz, operand: (open_addr + 1) as usize },
                );
                let patched = with_jnz.update(
                    open_addr,
                    Instruction {
                        opcode: with_jnz[open_addr].opcode,
                        operand: with_jnz.len() as usize,
                    },
                );
                compile_from(codes, i + 1, patched, stack.drop_last())
            }
        } else {
            compile_from(codes, i + 1, insts, stack)
        }
    }
}

#[via_fn]
proof fn compile_from_decreases(codes: Seq<char>, i: int, insts: Seq<Instruction>, stack: Seq<usize>) {
    if 0 <= i < codes.len() {
        lemma_run_end_props(codes, codes[i], i + 1);
    }
}

/// What the whole source compiles to: the instruction sequence, or the
/// bracket-balance error.
pub open spec fn compile_spec(codes: Seq<char>) -> Result<Seq<Instruction>, UnbalancedLoopError> {
    compile_from(codes, 0, Seq::empty(), Seq::empty())
}

/// Compiles the source characters into an instruction sequence, or fails when
/// the loop brackets do not pair up. Characters outside the operator alphabet
/// are skipped as comments.
pub fn generate_ir(codes: &Vec<char>) -> (r: Result<Vec<Instruction>, UnbalancedLoopError>)
    ensures
        match r {
            Ok(insts) => compile_spec(codes@) == Result::<
                Seq<Instruction>,
                UnbalancedLoopError,
            >::Ok(insts@),
            Err(e) => compile_spec(codes@) == Result::<
                Seq<Instruction>,
                UnbalancedLoopError,
            >::Err(e),
        },
{
    let mut insts: Vec<Instruction> = Vec::new();
    let mut stack: Vec<usize> = Vec::new();
    let mut ptr: usize = 0;

    while ptr < codes.len()
        invariant
            ptr <= codes.len(),
            forall|t: int| 0 <= t < stack@.len() ==> #[trigger] stack@[t] < insts@.len(),
            compile_from(codes@, ptr as int, insts@, stack@) == compile_spec(codes@),
        decreases codes.len() - ptr,
    {
        let ch = codes[ptr];
        match OpType::from_char(ch) {
            None => {
                ptr += 1;
            },
            Some(OpType::OpJz) => {
                let ghost pre_insts = insts@;
                let ghost pre_stack = stack@;
                stack.push(insts.len());
                insts.push(Instruction { opcode: OpType::OpJz, operand: 0 });
                ptr += 1;
                proof {
                    assert(insts@ == pre_insts.push(
                        Instruction { opcode: OpType::OpJz, operand: 0 },
                    ));
                    assert(stack@ == pre_stack.push(pre_insts.len() as usize));
                }
            },
            Some(OpType::OpJnz) => {
                let open_addr = match stack.pop() {
                    Some(a) => a,
                    None => {
                        return Err(UnbalancedLoopError::UnmatchedClosingBracket);
                    },
                };
                let ghost pre_insts = insts@;
                let cur_len = insts.len();
                assert(open_addr < cur_len);
                insts.push(Instruction { opcode: OpType::OpJnz, operand: open_addr + 1 });
                let target = insts.len();
                let opcode_there = insts[open_addr].opcode;
                insts[open_addr] = Instruction { opcode: opcode_there, operand: target };
                ptr += 1;
                proof {
                    let with_jnz = pre_insts.push(
                        Instruction { opcode: OpType::OpJnz, operand: (open_addr + 1) as usize },
                    );
                    assert(insts@ == with_jnz.update(
                        open_addr as int,
                        Instruction {
                            opcode: with_jnz[open_addr as int].opcode,
                            operand: with_jnz.len() as usize,
                        },
                    ));
                }
            },
            Some(op) => {
                // a non-loop operator: measure the whole run
                let ghost pre_insts = insts@;
                let start = ptr;
                ptr += 1;
                while ptr < codes.len() && codes[ptr] == ch
                    invariant
                        start < ptr <= codes.len(),
                        ch == codes@[start as int],
                        forall|t: int| start <= t < ptr ==> codes@[t] == ch,
                        run_end(codes@, ch, ptr as int) == run_end(codes@, ch, start as int + 1),
                    decreases codes.len() - ptr,
                {
                    ptr += 1;
                }
                proof {
                    lemma_run_end_props(codes@, ch, ptr as int);
                    assert(run_end(codes@, ch, ptr as int) == ptr as int);
                }
                let count = ptr - start;
                insts.push(Instruction { opcode: op, operand: count });
                proof {
                    assert(is_fold_char(ch));
                    assert(insts@ == pre_insts.push(
                        Instruction { opcode: op_of_char(ch)->Some_0, operand: count },
                    ));
                }
            },
        }
    }

    if stack.len() > 0 {
        return Err(UnbalancedLoopError::UnmatchedOpeningBracket);
    }
    Ok(insts)
}

/// Whether the brackets of `codes` from position `i` on nest correctly, given
/// `depth` loops already open: every `]` closes an open loop, and no loop is
/// left open at the end.
pub open spec fn balanced_from(codes: Seq<char>, i: int, depth: int) -> bool
    decreases codes.len() - i
        when 0 <= i <= codes.len()
{
    if i >= codes.len() {
        depth == 0
    } else if codes[i] == '[' {
        balanced_from(codes, i + 1, depth + 1)
    } else if codes[i] == ']' {
        depth > 0 && balanced_from(codes, i + 1, depth - 1)
    } else {
        balanced_from(codes, i + 1, depth)
    }
}

/// Whether the loop brackets of `codes` pair up correctly.
pub open spec fn balanced(codes: Seq<char>) -> bool {
    balanced_from(codes, 0, 0)
}

proof fn lemma_balanced_skip_run(codes: Seq<char>, ch: char, i: int, depth: int)
    requires
        0 <= i <= codes.len(),
        ch != '[',
        ch != ']',
    ensures
        balanced_from(codes, i, depth) == balanced_from(codes, run_end(codes, ch, i), depth),
    decreases codes.len() - i,
{
    if i < codes.len() && codes[i] == ch {
        lemma_balanced_skip_run(codes, ch, i + 1, depth);
    }
}

proof fn lemma_compile_from_balanced(
    codes: Seq<char>,
    i: int,
    insts: Seq<Instruction>,
    stack: Seq<usize>,
)
    requires
        0 <= i <= codes.len(),
    ensures
        (compile_from(codes, i, insts, stack) is Ok) <==> balanced_from(
            codes,
            i,
            stack.len() as int,
        ),
    decreases codes.len() - i,
{
    if i < codes.len() {
        let ch = codes[i];
        if is_fold_char(ch) {
            lemma_run_end_props(codes, ch, i + 1);
            let j = run_end(codes, ch, i + 1);
            lemma_balanced_skip_run(codes, ch, i, stack.len() as int);
            lemma_compile_from_balanced(
                codes,
                j,
                insts.push(
                    Instruction { opcode: op_of_char(ch)->Some_0, operand: (j - i) as usize },
                ),
                stack,
            );
        } else if ch == '[' {
            lemma_compile_from_balanced(
                codes,
                i + 1,
                insts.push(Instruction { opcode: OpType::OpJz, operand: 0 }),
                stack.push(insts.len() as usize),
            );
        } else if ch == ']' {
            if stack.len() > 0 {
                let open_addr = stack.last() as int;
                let with_jnz = insts.push(
                    Instruction { opcode: OpType::OpJnz, operand: (open_addr + 1) as usize },
                );
                let patched = with_jnz.update(
                    open_addr,
                    Instruction {
                        opcode: with_jnz[open_addr].opcode,
                        operand: with_jnz.len() as usize,
                    },
                );
                lemma_compile_from_balanced(codes, i + 1, patched, stack.drop_last());
            }
        } else {
            lemma_compile_from_balanced(codes, i + 1, insts, stack);
        }
    }
}

/// Balance law: compilation succeeds exactly on sources whose loop brackets
/// nest correctly; a source with an unmatched `[` or `]` is rejected.
pub proof fn lemma_compile_balanced(codes: Seq<char>)
    ensures
        (compile_spec(codes) is Ok) <==> balanced(codes),
{
    lemma_compile_from_balanced(codes, 0, Seq::empty(), Seq::empty());
}

/// Purity law: compilation is a function of the source characters alone, so
/// compiling the same source twice yields identical instruction sequences.
pub proof fn lemma_compile_deterministic(a: Seq<char>, b: Seq<char>)
    requires
        a == b,
    ensures
        compile_spec(a) == compile_spec(b),
{
}

/// Folding law: at a non-loop operator, compilation emits exactly one
/// instruction whose operand is the length of the maximal run of that
/// character, and resumes right past the run.
pub proof fn lemma_fold_step(codes: Seq<char>, i: int, insts: Seq<Instruction>, stack: Seq<usize>)
    requires
        0 <= i < codes.len(),
        is_fold_char(codes[i]),
    ensures
        ({
            let ch = codes[i];
            let j = run_end(codes, ch, i + 1);
            &&& i < j <= codes.len()
            &&& forall|t: int| i <= t < j ==> codes[t] == ch
            &&& (j == codes.len() || codes[j] != ch)
            &&& compile_from(codes, i, insts, stack) == compile_from(
                codes,
                j,
                insts.push(
                    Instruction { opcode: op_of_char(ch)->Some_0, operand: (j - i) as usize },
                ),
                stack,
            )
        }),
{
    lemma_run_end_props(codes, codes[i], i + 1);
}

/// Folding law, whole-source form: a source that is one run of `k` identical
/// non-loop operator characters compiles to exactly one instruction with
/// operand `k`, for every `k >= 1`.
pub proof fn lemma_single_run(ch: char, k: nat)
    requires
        is_fold_char(ch),
        1 <= k <= usize::MAX,
    ensures
        compile_spec(Seq::new(k, |t: int| ch)) == Result::<
            Seq<Instruction>,
            UnbalancedLoopError,
        >::Ok(seq![Instruction { opcode: op_of_char(ch)->Some_0, operand: k as usize }]),
{
    let codes = Seq::new(k, |t: int| ch);
    lemma_fold_step(codes, 0, Seq::empty(), Seq::empty());
    let j = run_end(codes, ch, 1);
    assert(j == k as int);
    assert(Seq::<Instruction>::empty().push(
        Instruction { opcode: op_of_char(ch)->Some_0, operand: k as usize },
    ) =~= seq![Instruction { opcode: op_of_char(ch)->Some_0, operand: k as usize }]);
}

/// The source, token by token: one entry per maximal run of a non-loop
/// operator character, carrying the run's length, and one entry per bracket,
/// carrying a zero placeholder where the compiler will put the jump target.
pub open spec fn tokens_from(codes: Seq<char>, i: int) -> Seq<Instruction>
    decreases codes.len() - i
        when 0 <= i <= codes.len()
        via tokens_from_decreases
{
    if i >= codes.len() {
        Seq::empty()
    } else {
        let ch = codes[i];
        if is_fold_char(ch) {
            let j = run_end(codes, ch, i + 1);
            seq![Instruction { opcode: op_of_char(ch)->Some_0, operand: (j - i) as usize }]
                + tokens_from(codes, j)
        } else if ch == '[' {
            seq![Instruction { opcode: OpType::OpJz, operand: 0 }] + tokens_from(codes, i + 1)
        } else if ch == ']' {
            seq![Instruction { opcode: OpType::OpJnz, operand: 0 }] + tokens_from(codes, i + 1)
        } else {
            tokens_from(codes, i + 1)
        }
    }
}

#[via_fn]
proof fn tokens_from_decreases(codes: Seq<char>, i: int) {
    if 0 <= i < codes.len() {
        lemma_run_end_props(codes, codes[i], i + 1);
    }
}

/// The token decomposition of the whole source.
pub open spec fn source_tokens(codes: Seq<char>) -> Seq<Instruction> {
    tokens_from(codes, 0)
}

proof fn lemma_compile_shape(codes: Seq<char>, i: int, insts: Seq<Instruction>, stack: Seq<usize>)
    requires
        0 <= i <= codes.len(),
        insts.len() + (codes.len() - i) <= usize::MAX,
        forall|t: int| 0 <= t < stack.len() ==> (#[trigger] stack[t]) < insts.len(),
        forall|t: int|
            0 <= t < stack.len() ==> insts[(#[trigger] stack[t]) as int].opcode == OpType::OpJz,
        compile_from(codes, i, insts, stack) is Ok,
    ensures
        ({
            let out = compile_from(codes, i, insts, stack)->Ok_0;
            let toks = tokens_from(codes, i);
            &&& out.len() == insts.len() + toks.len()
            &&& forall|m: int| 0 <= m < insts.len() ==> out[m].opcode == insts[m].opcode
            &&& forall|m: int|
                0 <= m < insts.len() && insts[m].opcode != OpType::OpJz ==> out[m] == insts[m]
            &&& forall|m: int|
                insts.len() <= m < out.len() ==> out[m].opcode == toks[m - insts.len()].opcode
            &&& forall|m: int|
                insts.len() <= m < out.len() && toks[m - insts.len()].opcode != OpType::OpJz
                    && toks[m - insts.len()].opcode != OpType::OpJnz ==> out[m] == toks[m
                    - insts.len()]
        }),
    decreases codes.len() - i,
{
    if i < codes.len() {
        let ch = codes[i];
        if is_fold_char(ch) {
            lemma_run_end_props(codes, ch, i + 1);
            let j = run_end(codes, ch, i + 1);
            let tok = Instruction { opcode: op_of_char(ch)->Some_0, operand: (j - i) as usize };
            lemma_compile_shape(codes, j, insts.push(tok), stack);
        } else if ch == '[' {
            let insts2 = insts.push(Instruction { opcode: OpType::OpJz, operand: 0 });
            let stack2 = stack.push(insts.len() as usize);
            assert forall|t: int|
                0 <= t < stack2.len() implies insts2[(#[trigger] stack2[t]) as int].opcode
                == OpType::OpJz by {
                if t < stack.len() {
                    assert(stack2[t] == stack[t]);
                }
            };
            lemma_compile_shape(codes, i + 1, insts2, stack2);
        } else if ch == ']' {
            let a = stack.last() as int;
            let with_jnz = insts.push(
                Instruction { opcode: OpType::OpJnz, operand: (a + 1) as usize },
            );
            let patched = with_jnz.update(
                a,
                Instruction { opcode: with_jnz[a].opcode, operand: with_jnz.len() as usize },
            );
            let stack2 = stack.drop_last();
            assert(insts[a].opcode == OpType::OpJz);
            assert(patched[a].opcode == OpType::OpJz);
            assert forall|t: int|
                0 <= t < stack2.len() implies patched[(#[trigger] stack2[t]) as int].opcode
                == OpType::OpJz by {
                assert(stack2[t] == stack[t]);
                if stack[t] as int != a {
                    assert(patched[stack[t] as int] == insts[stack[t] as int]);
                }
            };
            lemma_compile_shape(codes, i + 1, patched, stack2);
            assert forall|m: int|
                0 <= m < insts.len() && insts[m].opcode != OpType::OpJz implies compile_from(
                codes,
                i,
                insts,
                stack,
            )->Ok_0[m] == insts[m] by {
                assert(m != a);
                assert(patched[m] == insts[m]);
            };
        } else {
            lemma_compile_shape(codes, i + 1, insts, stack);
        }
    }
}

/// Folding law, whole-program form: a successful compilation emits exactly one
/// instruction per source token, in source order — for each maximal run of
/// identical non-loop operator characters exactly one instruction carrying
/// that operator and the run's length, and for each bracket one jump.
pub proof fn lemma_compile_emits_tokens(codes: Seq<char>, out: Seq<Instruction>)
    requires
        codes.len() <= usize::MAX,
        compile_spec(codes) == Result::<Seq<Instruction>, UnbalancedLoopError>::Ok(out),
    ensures
        out.len() == source_tokens(codes).len(),
        forall|m: int|
            0 <= m < out.len() ==> out[m].opcode == (#[trigger] source_tokens(codes)[m]).opcode,
        forall|m: int|
            0 <= m < out.len() && (#[trigger] source_tokens(codes)[m]).opcode != OpType::OpJz
                && source_tokens(codes)[m].opcode != OpType::OpJnz ==> out[m]
                == source_tokens(codes)[m],
{
    lemma_compile_shape(codes, 0, Seq::empty(), Seq::empty());
}

/// The backward jump at index `b` is resolved: its target is one past its
/// loop's JumpIfZero, which in turn points one past `b`.
pub open spec fn jnz_linked(insts: Seq<Instruction>, b: int) -> bool {
    let a = insts[b].operand - 1;
    &&& 0 <= a < b
    &&& insts[a].opcode == OpType::OpJz
    &&& insts[a].operand == b + 1
}

/// The forward jump at index `a` is resolved: its target is one past its
/// loop's JumpIfNonZero, which in turn points back to the loop body at `a + 1`.
pub open spec fn jz_linked(insts: Seq<Instruction>, a: int) -> bool {
    let b = insts[a].operand - 1;
    &&& a < b < insts.len()
    &&& insts[b].opcode == OpType::OpJnz
    &&& insts[b].operand == a + 1
}

/// Every loop jump in the program is resolved to its partner.
pub open spec fn jumps_resolved(insts: Seq<Instruction>) -> bool {
    &&& forall|b: int|
        0 <= b < insts.len() && (#[trigger] insts[b]).opcode == OpType::OpJnz ==> jnz_linked(
            insts,
            b,
        )
    &&& forall|a: int|
        0 <= a < insts.len() && (#[trigger] insts[a]).opcode == OpType::OpJz ==> jz_linked(
            insts,
            a,
        )
}

spec fn stack_has(stack: Seq<usize>, a: int) -> bool {
    exists|t: int| 0 <= t < stack.len() && (#[trigger] stack[t]) as int == a
}

/// The compiler's mid-pass invariant: the stack holds, in increasing order,
/// the indices of the still-open JumpIfZero placeholders (operand 0), and
/// every other jump already emitted is fully resolved.
spec fn comp_inv(insts: Seq<Instruction>, stack: Seq<usize>) -> bool {
    &&& forall|t: int| 0 <= t < stack.len() ==> (#[trigger] stack[t]) < insts.len()
    &&& forall|t1: int, t2: int|
        0 <= t1 < t2 < stack.len() ==> #[trigger] stack[t1] < #[trigger] stack[t2]
    &&& forall|t: int|
        0 <= t < stack.len() ==> insts[(#[trigger] stack[t]) as int] == (Instruction {
            opcode: OpType::OpJz,
            operand: 0,
        })
    &&& forall|b: int|
        0 <= b < insts.len() && (#[trigger] insts[b]).opcode == OpType::OpJnz ==> jnz_linked(
            insts,
            b,
        )
    &&& forall|a: int|
        0 <= a < insts.len() && (#[trigger] insts[a]).opcode == OpType::OpJz
            && insts[a].operand != 0 ==> jz_linked(insts, a)
    &&& forall|a: int|
        0 <= a < insts.len() && (#[trigger] insts[a]).opcode == OpType::OpJz
            && insts[a].operand == 0 ==> stack_has(stack, a)
}

proof fn lemma_comp_inv_push_plain(insts: Seq<Instruction>, stack: Seq<usize>, inst: Instruction)
    requires
        comp_inv(insts, stack),
        inst.opcode != OpType::OpJz,
        inst.opcode != OpType::OpJnz,
    ensures
        comp_inv(insts.push(inst), stack),
{
    let insts2 = insts.push(inst);
    assert forall|b: int|
        0 <= b < insts2.len() && (#[trigger] insts2[b]).opcode == OpType::OpJnz implies jnz_linked(
        insts2,
        b,
    ) by {
        assert(insts2[b] == insts[b]);
        assert(jnz_linked(insts, b));
        assert(insts2[insts[b].operand - 1] == insts[insts[b].operand - 1]);
    };
    assert forall|a: int|
        0 <= a < insts2.len() && (#[trigger] insts2[a]).opcode == OpType::OpJz
            && insts2[a].operand != 0 implies jz_linked(insts2, a) by {
        assert(insts2[a] == insts[a]);
        assert(jz_linked(insts, a));
        assert(insts2[insts[a].operand - 1] == insts[insts[a].operand - 1]);
    };
    assert forall|a: int|
        0 <= a < insts2.len() && (#[trigger] insts2[a]).opcode == OpType::OpJz
            && insts2[a].operand == 0 implies stack_has(stack, a) by {
        assert(insts2[a] == insts[a]);
    };
}

proof fn lemma_comp_inv_push_open(insts: Seq<Instruction>, stack: Seq<usize>)
    requires
        comp_inv(insts, stack),
        insts.len() < usize::MAX,
    ensures
        comp_inv(
            insts.push(Instruction { opcode: OpType::OpJz, operand: 0 }),
            stack.push(insts.len() as usize),
        ),
{
    let insts2 = insts.push(Instruction { opcode: OpType::OpJz, operand: 0 });
    let stack2 = stack.push(insts.len() as usize);
    assert forall|t: int|
        0 <= t < stack2.len() implies insts2[(#[trigger] stack2[t]) as int] == (Instruction {
        opcode: OpType::OpJz,
        operand: 0,
    }) by {
        if t < stack.len() {
            assert(stack2[t] == stack[t]);
            assert(insts2[stack[t] as int] == insts[stack[t] as int]);
        }
    };
    assert forall|b: int|
        0 <= b < insts2.len() && (#[trigger] insts2[b]).opcode == OpType::OpJnz implies jnz_linked(
        insts2,
        b,
    ) by {
        assert(insts2[b] == insts[b]);
        assert(jnz_linked(insts, b));
        assert(insts2[insts[b].operand - 1] == insts[insts[b].operand - 1]);
    };
    assert forall|a: int|
        0 <= a < insts2.len() && (#[trigger] insts2[a]).opcode == OpType::OpJz
            && insts2[a].operand != 0 implies jz_linked(insts2, a) by {
        assert(insts2[a] == insts[a]);
        assert(jz_linked(insts, a));
        assert(insts2[insts[a].operand - 1] == insts[insts[a].operand - 1]);
    };
    assert forall|a: int|
        0 <= a < insts2.len() && (#[trigger] insts2[a]).opcode == OpType::OpJz
            && insts2[a].operand == 0 implies stack_has(stack2, a) by {
        if a < insts.len() {
            assert(insts2[a] == insts[a]);
            assert(stack_has(stack, a));
            let t = choose|t: int| 0 <= t < stack.len() && (#[trigger] stack[t]) as int == a;
            assert(stack2[t] as int == a);
        } else {
            assert(stack2[stack.len() as int] as int == a);
        }
    };
}

proof fn lemma_comp_inv_close(insts: Seq<Instruction>, stack: Seq<usize>)
    requires
        comp_inv(insts, stack),
        stack.len() > 0,
        insts.len() + 1 <= usize::MAX,
    ensures
        ({
            let open_addr = stack.last() as int;
            let with_jnz = insts.push(
                Instruction { opcode: OpType::OpJnz, operand: (open_addr + 1) as usize },
            );
            let patched = with_jnz.update(
                open_addr,
                Instruction { opcode: with_jnz[open_addr].opcode, operand: with_jnz.len() as usize },
            );
            comp_inv(patched, stack.drop_last())
        }),
{
    let a = stack.last() as int;
    let b = insts.len() as int;
    let with_jnz = insts.push(Instruction { opcode: OpType::OpJnz, operand: (a + 1) as usize });
    let patched = with_jnz.update(
        a,
        Instruction { opcode: with_jnz[a].opcode, operand: with_jnz.len() as usize },
    );
    let stack2 = stack.drop_last();
    assert(insts[a] == (Instruction { opcode: OpType::OpJz, operand: 0 }));
    assert(0 <= a < b);
    assert(patched[a] == (Instruction { opcode: OpType::OpJz, operand: (b + 1) as usize }));
    assert(patched[b] == (Instruction { opcode: OpType::OpJnz, operand: (a + 1) as usize }));
    assert forall|t: int| 0 <= t < stack2.len() implies (#[trigger] stack2[t]) < a by {
        assert(stack2[t] == stack[t]);
        assert(stack[t] < stack[stack.len() - 1]);
    };
    assert forall|t: int|
        0 <= t < stack2.len() implies insts[(#[trigger] stack2[t]) as int] == (Instruction {
        opcode: OpType::OpJz,
        operand: 0,
    }) by {
        assert(stack2[t] == stack[t]);
    };
    assert forall|t: int|
        0 <= t < stack2.len() implies patched[(#[trigger] stack2[t]) as int] == (Instruction {
        opcode: OpType::OpJz,
        operand: 0,
    }) by {
        assert(stack2[t] < a);
        assert(patched[stack2[t] as int] == insts[stack2[t] as int]);
    };
    assert forall|bb: int|
        0 <= bb < patched.len() && (#[trigger] patched[bb]).opcode == OpType::OpJnz
            implies jnz_linked(patched, bb) by {
        if bb == b {
            assert(patched[b].operand - 1 == a);
        } else {
            assert(bb != a && bb < b);
            assert(patched[bb] == insts[bb]);
            assert(jnz_linked(insts, bb));
            let aa = insts[bb].operand - 1;
            assert(insts[aa].operand == bb + 1);
            assert(aa != a);
            assert(patched[aa] == insts[aa]);
        }
    };
    assert forall|aa: int|
        0 <= aa < patched.len() && (#[trigger] patched[aa]).opcode == OpType::OpJz
            && patched[aa].operand != 0 implies jz_linked(patched, aa) by {
        if aa == a {
            assert(patched[a].operand - 1 == b);
        } else {
            assert(aa != b);
            assert(patched[aa] == insts[aa]);
            assert(jz_linked(insts, aa));
            let bb = insts[aa].operand - 1;
            assert(insts[bb].opcode == OpType::OpJnz);
            assert(bb != a);
            assert(patched[bb] == insts[bb]);
        }
    };
    assert forall|aa: int|
        0 <= aa < patched.len() && (#[trigger] patched[aa]).opcode == OpType::OpJz
            && patched[aa].operand == 0 implies stack_has(stack2, aa) by {
        assert(aa != a && aa != b);
        assert(patched[aa] == insts[aa]);
        assert(stack_has(stack, aa));
        let t = choose|t: int| 0 <= t < stack.len() && (#[trigger] stack[t]) as int == aa;
        assert(t < stack.len() - 1);
        assert(stack2[t] as int == aa);
    };
}

proof fn lemma_compile_from_resolved(
    codes: Seq<char>,
    i: int,
    insts: Seq<Instruction>,
    stack: Seq<usize>,
)
    requires
        0 <= i <= codes.len(),
        insts.len() + (codes.len() - i) <= usize::MAX,
        comp_inv(insts, stack),
        compile_from(codes, i, insts, stack) is Ok,
    ensures
        jumps_resolved(compile_from(codes, i, insts, stack)->Ok_0),
    decreases codes.len() - i,
{
    if i >= codes.len() {
        assert(stack.len() == 0);
        assert forall|a: int|
            0 <= a < insts.len() && (#[trigger] insts[a]).opcode == OpType::OpJz
                implies jz_linked(insts, a) by {
            if insts[a].operand == 0 {
                assert(stack_has(stack, a));
                assert(false);
            }
        };
    } else {
        let ch = codes[i];
        if is_fold_char(ch) {
            lemma_run_end_props(codes, ch, i + 1);
            let j = run_end(codes, ch, i + 1);
            let inst = Instruction { opcode: op_of_char(ch)->Some_0, operand: (j - i) as usize };
            lemma_comp_inv_push_plain(insts, stack, inst);
            lemma_compile_from_resolved(codes, j, insts.push(inst), stack);
        } else if ch == '[' {
            lemma_comp_inv_push_open(insts, stack);
            lemma_compile_from_resolved(
                codes,
                i + 1,
                insts.push(Instruction { opcode: OpType::OpJz, operand: 0 }),
                stack.push(insts.len() as usize),
            );
        } else if ch == ']' {
            assert(stack.len() > 0);
            let open_addr = stack.last() as int;
            let with_jnz = insts.push(
                Instruction { opcode: OpType::OpJnz, operand: (open_addr + 1) as usize },
            );
            let patched = with_jnz.update(
                open_addr,
                Instruction { opcode: with_jnz[open_addr].opcode, operand: with_jnz.len() as usize },
            );
            lemma_comp_inv_close(insts, stack);
            lemma_compile_from_resolved(codes, i + 1, patched, stack.drop_last());
        } else {
            lemma_compile_from_resolved(codes, i + 1, insts, stack);
        }
    }
}

spec fn is_linked_jz(insts: Seq<Instruction>, a: int) -> bool {
    &&& insts[a].opcode == OpType::OpJz
    &&& insts[a].operand != 0
}

/// No two resolved loops cross: their extents are disjoint or properly nested.
spec fn no_cross(insts: Seq<Instruction>) -> bool {
    forall|a1: int, a2: int|
        0 <= a1 < a2 < insts.len() && #[trigger] is_linked_jz(insts, a1) && #[trigger] is_linked_jz(
            insts,
            a2,
        ) ==> insts[a1].operand - 1 < a2 || insts[a2].operand < insts[a1].operand
}

/// No resolved loop reaches over a still-open one.
spec fn pending_outside(insts: Seq<Instruction>, stack: Seq<usize>) -> bool {
    forall|a: int, t: int|
        0 <= a < insts.len() && #[trigger] is_linked_jz(insts, a) && 0 <= t < stack.len() ==> !(a
            < (#[trigger] stack[t]) < insts[a].operand - 1)
}

proof fn lemma_compile_from_nested(
    codes: Seq<char>,
    i: int,
    insts: Seq<Instruction>,
    stack: Seq<usize>,
)
    requires
        0 <= i <= codes.len(),
        insts.len() + (codes.len() - i) <= usize::MAX,
        comp_inv(insts, stack),
        pending_outside(insts, stack),
        no_cross(insts),
        compile_from(codes, i, insts, stack) is Ok,
    ensures
        no_cross(compile_from(codes, i, insts, stack)->Ok_0),
    decreases codes.len() - i,
{
    if i >= codes.len() {
    } else {
        let ch = codes[i];
        if is_fold_char(ch) {
            lemma_run_end_props(codes, ch, i + 1);
            let j = run_end(codes, ch, i + 1);
            let inst = Instruction { opcode: op_of_char(ch)->Some_0, operand: (j - i) as usize };
            let insts2 = insts.push(inst);
            lemma_comp_inv_push_plain(insts, stack, inst);
            assert forall|a: int| 0 <= a < insts2.len() && #[trigger] is_linked_jz(insts2, a)
                implies a < insts.len() && is_linked_jz(insts, a) by {
                assert(insts2[insts.len() as int] == inst);
            };
            lemma_compile_from_nested(codes, j, insts2, stack);
        } else if ch == '[' {
            let insts2 = insts.push(Instruction { opcode: OpType::OpJz, operand: 0 });
            let stack2 = stack.push(insts.len() as usize);
            lemma_comp_inv_push_open(insts, stack);
            assert forall|a: int| 0 <= a < insts2.len() && #[trigger] is_linked_jz(insts2, a)
                implies a < insts.len() && is_linked_jz(insts, a) by {}
            assert forall|a: int, t: int|
                0 <= a < insts2.len() && #[trigger] is_linked_jz(insts2, a) && 0 <= t
                    < stack2.len() implies !(a < (#[trigger] stack2[t]) < insts2[a].operand
                - 1) by {
                assert(is_linked_jz(insts, a));
                assert(jz_linked(insts, a));
                if t < stack.len() {
                    assert(stack2[t] == stack[t]);
                } else {
                    assert(stack2[t] == insts.len() as usize);
                    assert(insts[a].operand - 1 < insts.len());
                }
            };
            lemma_compile_from_nested(codes, i + 1, insts2, stack2);
        } else if ch == ']' {
            let a = stack.last() as int;
            let b = insts.len() as int;
            let with_jnz = insts.push(
                Instruction { opcode: OpType::OpJnz, operand: (a + 1) as usize },
            );
            let patched = with_jnz.update(
                a,
                Instruction { opcode: with_jnz[a].opcode, operand: with_jnz.len() as usize },
            );
            let stack2 = stack.drop_last();
            lemma_comp_inv_close(insts, stack);
            assert(insts[a] == (Instruction { opcode: OpType::OpJz, operand: 0 }));
            assert(patched[a] == (Instruction { opcode: OpType::OpJz, operand: (b + 1) as usize }));
            assert(patched[b].opcode == OpType::OpJnz);
            assert forall|m: int|
                0 <= m < patched.len() && #[trigger] is_linked_jz(patched, m) && m != a implies m
                < insts.len() && is_linked_jz(insts, m) && patched[m] == insts[m] by {}
            assert forall|a1: int, a2: int|
                0 <= a1 < a2 < patched.len() && #[trigger] is_linked_jz(patched, a1)
                    && #[trigger] is_linked_jz(patched, a2) implies patched[a1].operand - 1 < a2
                || patched[a2].operand < patched[a1].operand by {
                if a1 == a {
                    // the other loop lies inside this one and was closed earlier
                    assert(is_linked_jz(insts, a2));
                    assert(jz_linked(insts, a2));
                    assert(insts[a2].operand < b + 1);
                } else if a2 == a {
                    // a was still open when the other loop was closed
                    assert(is_linked_jz(insts, a1));
                    assert(jz_linked(insts, a1));
                    assert(stack[stack.len() - 1] as int == a);
                    assert(!(a1 < a < insts[a1].operand - 1));
                    assert(insts[a1].operand - 1 != a);
                    assert(insts[a1].operand - 1 < a);
                } else {
                    assert(is_linked_jz(insts, a1));
                    assert(is_linked_jz(insts, a2));
                }
            };
            assert forall|m: int, t: int|
                0 <= m < patched.len() && #[trigger] is_linked_jz(patched, m) && 0 <= t
                    < stack2.len() implies !(m < (#[trigger] stack2[t]) < patched[m].operand
                - 1) by {
                assert(stack2[t] == stack[t]);
                assert(stack[t] < stack[stack.len() - 1]);
                if m == a {
                    assert(stack2[t] < a);
                } else {
                    assert(is_linked_jz(insts, m));
                }
            };
            lemma_compile_from_nested(codes, i + 1, patched, stack2);
        } else {
            lemma_compile_from_nested(codes, i + 1, insts, stack);
        }
    }
}

/// Nesting law: in a successfully compiled program the extents of any two
/// loops — each from its JumpIfZero through its JumpIfNonZero — are either
/// disjoint or properly nested, never crossing; together with the resolution
/// law this is the shape bracket matching gives the source.
pub proof fn lemma_compile_loops_nest(codes: Seq<char>, out: Seq<Instruction>)
    requires
        codes.len() <= usize::MAX,
        compile_spec(codes) == Result::<Seq<Instruction>, UnbalancedLoopError>::Ok(out),
    ensures
        forall|a1: int, a2: int|
            0 <= a1 < a2 < out.len() && (#[trigger] out[a1]).opcode == OpType::OpJz && (
            #[trigger] out[a2]).opcode == OpType::OpJz ==> out[a1].operand - 1 < a2
                || out[a2].operand < out[a1].operand,
{
    lemma_compile_from_resolved(codes, 0, Seq::empty(), Seq::empty());
    lemma_compile_from_nested(codes, 0, Seq::empty(), Seq::empty());
    assert forall|a1: int, a2: int|
        0 <= a1 < a2 < out.len() && (#[trigger] out[a1]).opcode == OpType::OpJz && (
        #[trigger] out[a2]).opcode == OpType::OpJz implies out[a1].operand - 1 < a2
        || out[a2].operand < out[a1].operand by {
        assert(jz_linked(out, a1));
        assert(jz_linked(out, a2));
        assert(is_linked_jz(out, a1));
        assert(is_linked_jz(out, a2));
    };
}

/// Jump-resolution law: in a successfully compiled program every loop jump is
/// resolved to its partner — each JumpIfZero's operand is one past its
/// matching JumpIfNonZero, and that JumpIfNonZero's operand is the loop-body
/// start, one past the JumpIfZero.
pub proof fn lemma_compile_jumps_resolved(codes: Seq<char>, out: Seq<Instruction>)
    requires
        codes.len() <= usize::MAX,
        compile_spec(codes) == Result::<Seq<Instruction>, UnbalancedLoopError>::Ok(out),
    ensures
        jumps_resolved(out),
{
    lemma_compile_from_resolved(codes, 0, Seq::empty(), Seq::empty());
}

} // verus!

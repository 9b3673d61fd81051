//! The machine, and what a run of a program on an input is.

use crate::brackets::{
    balanced, boundary, lemma_balanced_closing, lemma_balanced_opening, lemma_unclosed_bracket,
    Bracket,
};
use crate::error::BrainLuckError;
use crate::std_specs::is_white_space;
use vstd::prelude::*;

verus! {

/// The number of cells on the tape.
pub const TAPE_SIZE: usize = 1000;

/// Whether `c` is one of the eight instructions.
pub open spec fn is_instruction(c: char) -> bool {
    c == '>' || c == '<' || c == '+' || c == '-' || c == '.' || c == ',' || c == '[' || c == ']'
}

/// The state of a run between two instructions.
pub struct Machine {
    /// The cells of the tape.
    pub tape: Seq<u8>,
    /// The memory pointer. It may leave the tape; a cell can be read or
    /// written only while it stands on the tape.
    pub mem_ptr: int,
    /// The instruction pointer: the position of the next instruction.
    pub ins_ptr: int,
    /// How many bytes of the input have been read.
    pub consumed: int,
    /// The bytes written so far.
    pub output: Seq<u8>,
}

/// Where a run stands.
pub enum Run {
    /// The machine is about to execute its next instruction.
    Running(Machine),
    /// The run is over: the instruction pointer left the program, with the
    /// bytes written, or an instruction failed.
    Ended(Result<Seq<u8>, BrainLuckError>),
    /// An instruction needed the current cell while the memory pointer stood
    /// outside the tape. Nothing is defined from here on.
    OffTape,
}

impl Machine {
    /// The machine before the first instruction: every cell zero, both
    /// pointers at zero, nothing read and nothing written.
    pub open spec fn start() -> Machine {
        Machine {
            tape: Seq::new(TAPE_SIZE as nat, |i: int| 0u8),
            mem_ptr: 0,
            ins_ptr: 0,
            consumed: 0,
            output: Seq::empty(),
        }
    }

    /// The memory pointer stands on a cell of the tape.
    pub open spec fn on_tape(self) -> bool {
        0 <= self.mem_ptr < self.tape.len()
    }

    /// The value of the current cell.
    pub open spec fn cell(self) -> u8
        recommends
            self.on_tape(),
    {
        self.tape[self.mem_ptr]
    }

    /// This machine with `value` in the current cell.
    pub open spec fn store(self, value: u8) -> Machine
        recommends
            self.on_tape(),
    {
        Machine { tape: self.tape.update(self.mem_ptr, value), ..self }
    }

    /// This machine with the instruction pointer at `ins_ptr`.
    pub open spec fn jump(self, ins_ptr: int) -> Machine {
        Machine { ins_ptr, ..self }
    }
}

/// Executes the instruction under the instruction pointer of `m`.
///
/// A character that is neither an instruction nor white space fails only
/// when the instruction pointer reaches it, and a bracket looks for its
/// partner only when its jump is taken.
pub open spec fn execute(program: Seq<char>, input: Seq<u8>, m: Machine) -> Run {
    if !(0 <= m.ins_ptr < program.len()) {
        Run::Ended(Ok(m.output))
    } else {
        let c = program[m.ins_ptr];
        let next = m.jump(m.ins_ptr + 1);
        if c == '>' {
            Run::Running(Machine { mem_ptr: m.mem_ptr + 1, ..next })
        } else if c == '<' {
            Run::Running(Machine { mem_ptr: m.mem_ptr - 1, ..next })
        } else if c == ',' && m.consumed >= input.len() {
            Run::Ended(Err(BrainLuckError::UnexpectedEndOfInput))
        } else if is_instruction(c) && !m.on_tape() {
            Run::OffTape
        } else if c == '+' {
            Run::Running(next.store(((m.cell() + 1) % 256) as u8))
        } else if c == '-' {
            Run::Running(next.store(((m.cell() - 1) % 256) as u8))
        } else if c == '.' {
            Run::Running(Machine { output: m.output.push(m.cell()), ..next })
        } else if c == ',' {
            Run::Running(Machine { consumed: m.consumed + 1, ..next.store(input[m.consumed]) })
        } else if c == '[' {
            if m.cell() != 0 {
                Run::Running(next)
            } else {
                match boundary(program, Bracket::LBracket, m.ins_ptr) {
                    Some(at) => Run::Running(m.jump(at + 1)),
                    None => Run::Ended(Err(BrainLuckError::UnbalancedBrackets)),
                }
            }
        } else if c == ']' {
            if m.cell() == 0 {
                Run::Running(next)
            } else {
                match boundary(program, Bracket::RBracket, m.ins_ptr) {
                    Some(at) => Run::Running(m.jump(at + 1)),
                    None => Run::Ended(Err(BrainLuckError::UnbalancedBrackets)),
                }
            }
        } else if is_white_space(c) {
            Run::Running(next)
        } else {
            Run::Ended(Err(BrainLuckError::UnexpectedCharInCode(c)))
        }
    }
}

/// Where `r` stands one instruction later. A run that is over stays as it is.
pub open spec fn advance(program: Seq<char>, input: Seq<u8>, r: Run) -> Run {
    match r {
        Run::Running(m) => execute(program, input, m),
        _ => r,
    }
}

/// Where `r` stands `n` instructions later.
pub open spec fn advance_by(program: Seq<char>, input: Seq<u8>, r: Run, n: nat) -> Run
    decreases n,
{
    if n == 0 {
        r
    } else {
        advance(program, input, advance_by(program, input, r, (n - 1) as nat))
    }
}

/// Where the run of `program` on `input` stands after `n` instructions.
pub open spec fn run(program: Seq<char>, input: Seq<u8>, n: nat) -> Run {
    advance_by(program, input, Run::Running(Machine::start()), n)
}

/// The run of `program` on `input` comes to an end, and no instruction of it
/// needs a cell outside the tape.
pub open spec fn halts(program: Seq<char>, input: Seq<u8>) -> bool {
    exists|n: nat| run(program, input, n) is Ended
}

/// What the run of `program` on `input` ends with: the bytes written, or the
/// first failure.
pub open spec fn outcome(program: Seq<char>, input: Seq<u8>) -> Result<Seq<u8>, BrainLuckError>
    recommends
        halts(program, input),
{
    run(program, input, choose|n: nat| run(program, input, n) is Ended)->Ended_0
}

/// Advancing by `a + b` instructions is advancing by `a` and then by `b`.
pub proof fn lemma_advance_split(program: Seq<char>, input: Seq<u8>, r: Run, a: nat, b: nat)
    ensures
        advance_by(program, input, r, a + b) == advance_by(
            program,
            input,
            advance_by(program, input, r, a),
            b,
        ),
    decreases b,
{
    if b > 0 {
        lemma_advance_split(program, input, r, a, (b - 1) as nat);
        assert(a + b - 1 == a + (b - 1));
    }
}

/// A run that is over stays where it is.
pub proof fn lemma_advance_over(program: Seq<char>, input: Seq<u8>, r: Run, n: nat)
    requires
        !(r is Running),
    ensures
        advance_by(program, input, r, n) == r,
    decreases n,
{
    if n > 0 {
        lemma_advance_over(program, input, r, (n - 1) as nat);
    }
}

/// Once the run is over after `a` instructions, it stands there after any
/// greater number of them.
pub proof fn lemma_run_settles(program: Seq<char>, input: Seq<u8>, a: nat, b: nat)
    requires
        a <= b,
        !(run(program, input, a) is Running),
    ensures
        run(program, input, b) == run(program, input, a),
{
    lemma_advance_split(program, input, Run::Running(Machine::start()), a, (b - a) as nat);
    lemma_advance_over(program, input, run(program, input, a), (b - a) as nat);
}

/// A run that has ended after `n` instructions halts, and what it ended with
/// is its outcome.
pub proof fn lemma_outcome(program: Seq<char>, input: Seq<u8>, n: nat)
    requires
        run(program, input, n) is Ended,
    ensures
        halts(program, input),
        run(program, input, n) == Run::Ended(outcome(program, input)),
{
    let k = choose|k: nat| run(program, input, k) is Ended;
    if k <= n {
        lemma_run_settles(program, input, k, n);
    } else {
        lemma_run_settles(program, input, n, k);
    }
}

/// While a run goes on, the tape keeps its length, the instruction pointer
/// is in the program or just behind it, no more input is read than there is,
/// and the memory pointer is no further from the tape than the instruction
/// pointer is from the start of the program.
pub proof fn lemma_run_in_bounds(program: Seq<char>, input: Seq<u8>, n: nat, m: Machine)
    requires
        run(program, input, n) == Run::Running(m),
    ensures
        m.tape.len() == TAPE_SIZE,
        0 <= m.ins_ptr <= program.len(),
        0 <= m.consumed <= input.len(),
        -m.ins_ptr <= m.mem_ptr <= TAPE_SIZE - 1 + m.ins_ptr,
    decreases n,
{
    if n > 0 {
        let before = run(program, input, (n - 1) as nat);
        lemma_run_in_bounds(program, input, (n - 1) as nat, before->Running_0);
    }
}

/// A run only reads on and only appends: what is read and written after
/// `a` instructions is still read and written after `b >= a` of them.
pub proof fn lemma_run_only_appends(
    program: Seq<char>,
    input: Seq<u8>,
    a: nat,
    b: nat,
    early: Machine,
    late: Machine,
)
    requires
        a <= b,
        run(program, input, a) == Run::Running(early),
        run(program, input, b) == Run::Running(late),
    ensures
        early.consumed <= late.consumed,
        early.output.is_prefix_of(late.output),
    decreases b - a,
{
    if a < b {
        let before = run(program, input, (b - 1) as nat);
        lemma_run_only_appends(program, input, a, (b - 1) as nat, early, before->Running_0);
    }
}

/// A run that reaches a character which is neither an instruction nor white
/// space ends there, with that character as its failure.
pub proof fn lemma_unexpected_char(program: Seq<char>, input: Seq<u8>, n: nat, m: Machine)
    requires
        run(program, input, n) == Run::Running(m),
        0 <= m.ins_ptr < program.len(),
        !is_instruction(program[m.ins_ptr]),
        !is_white_space(program[m.ins_ptr]),
    ensures
        halts(program, input),
        outcome(program, input) == Err::<Seq<u8>, BrainLuckError>(
            BrainLuckError::UnexpectedCharInCode(program[m.ins_ptr]),
        ),
{
    assert(run(program, input, n + 1) == execute(program, input, m));
    lemma_outcome(program, input, n + 1);
}

/// A run that reaches a `,` with the whole input read ends there with
/// `UnexpectedEndOfInput`, whatever it has written before.
pub proof fn lemma_input_exhausted(program: Seq<char>, input: Seq<u8>, n: nat, m: Machine)
    requires
        run(program, input, n) == Run::Running(m),
        0 <= m.ins_ptr < program.len(),
        program[m.ins_ptr] == ',',
        m.consumed >= input.len(),
    ensures
        halts(program, input),
        outcome(program, input) == Err::<Seq<u8>, BrainLuckError>(
            BrainLuckError::UnexpectedEndOfInput,
        ),
{
    assert(run(program, input, n + 1) == execute(program, input, m));
    lemma_outcome(program, input, n + 1);
}

/// In a program without any `]`, a run that reaches a `[` on a zero cell
/// ends there with `UnbalancedBrackets`.
pub proof fn lemma_unclosed_loop(program: Seq<char>, input: Seq<u8>, n: nat, m: Machine)
    requires
        forall|i: int| 0 <= i < program.len() ==> program[i] != ']',
        run(program, input, n) == Run::Running(m),
        0 <= m.ins_ptr < program.len(),
        program[m.ins_ptr] == '[',
        m.on_tape(),
        m.cell() == 0,
    ensures
        halts(program, input),
        outcome(program, input) == Err::<Seq<u8>, BrainLuckError>(
            BrainLuckError::UnbalancedBrackets,
        ),
{
    lemma_unclosed_bracket(program, m.ins_ptr);
    assert(run(program, input, n + 1) == execute(program, input, m));
    lemma_outcome(program, input, n + 1);
}

/// A program that begins with `[` and holds no `]` ends with
/// `UnbalancedBrackets` on every input.
pub proof fn lemma_unclosed_first_loop(program: Seq<char>, input: Seq<u8>)
    requires
        program.len() > 0,
        program[0] == '[',
        forall|i: int| 0 <= i < program.len() ==> program[i] != ']',
    ensures
        halts(program, input),
        outcome(program, input) == Err::<Seq<u8>, BrainLuckError>(
            BrainLuckError::UnbalancedBrackets,
        ),
{
    lemma_unclosed_loop(program, input, 0, Machine::start());
}

/// What `result` needs of the program to come about: a failure has its
/// cause there.
pub open spec fn has_cause(program: Seq<char>, result: Result<Seq<u8>, BrainLuckError>) -> bool {
    match result {
        Ok(_) => true,
        Err(BrainLuckError::UnexpectedCharInCode(c)) => program.contains(c) && !is_instruction(c)
            && !is_white_space(c),
        Err(BrainLuckError::UnexpectedEndOfInput) => program.contains(','),
        Err(BrainLuckError::UnbalancedBrackets) => !balanced(program),
    }
}

/// Where a run has ended after `n` instructions, what it ended with has its
/// cause in the program.
proof fn lemma_end_has_cause(program: Seq<char>, input: Seq<u8>, n: nat)
    requires
        run(program, input, n) is Ended,
    ensures
        has_cause(program, run(program, input, n)->Ended_0),
    decreases n,
{
    let before = run(program, input, (n - 1) as nat);
    if before is Ended {
        lemma_end_has_cause(program, input, (n - 1) as nat);
    } else {
        let m = before->Running_0;
        if 0 <= m.ins_ptr < program.len() && balanced(program) {
            if program[m.ins_ptr] == '[' {
                lemma_balanced_opening(program, m.ins_ptr);
            } else if program[m.ins_ptr] == ']' {
                lemma_balanced_closing(program, m.ins_ptr);
            }
        }
    }
}

/// No failure without its cause: a run fails with `UnexpectedCharInCode`
/// only for a character of the program that is neither an instruction nor
/// white space, with `UnexpectedEndOfInput` only where the program holds a
/// `,`, and with `UnbalancedBrackets` only where the program is not balanced.
pub proof fn lemma_failure_has_cause(program: Seq<char>, input: Seq<u8>)
    requires
        halts(program, input),
    ensures
        has_cause(program, outcome(program, input)),
{
    lemma_end_has_cause(program, input, choose|n: nat| run(program, input, n) is Ended);
}

/// What `count` times `+` make of the cell value `value`, or, where `c` is
/// `-`, what `count` times `-` make of it.
pub open spec fn shifted(value: u8, c: char, count: nat) -> u8 {
    if c == '+' {
        ((value + count) % 256) as u8
    } else {
        ((value - count) % 256) as u8
    }
}

/// One more `+` or `-` after `count - 1` of them makes `count` of them.
proof fn lemma_shifted_once_more(value: u8, c: char, count: nat)
    requires
        count > 0,
    ensures
        c == '+' ==> ((shifted(value, c, (count - 1) as nat) + 1) % 256) as u8 == shifted(
            value,
            c,
            count,
        ),
        c != '+' ==> ((shifted(value, c, (count - 1) as nat) - 1) % 256) as u8 == shifted(
            value,
            c,
            count,
        ),
{
    vstd::arithmetic::div_mod::lemma_add_mod_noop(value + count - 1, 1, 256);
    vstd::arithmetic::div_mod::lemma_sub_mod_noop(value - (count - 1), 1, 256);
}

/// A row of `count` times `+`, or of `count` times `-`, changes the current
/// cell by `count` modulo 256 and nothing else.
pub proof fn lemma_row(
    program: Seq<char>,
    input: Seq<u8>,
    n: nat,
    m: Machine,
    c: char,
    count: nat,
)
    requires
        c == '+' || c == '-',
        run(program, input, n) == Run::Running(m),
        m.on_tape(),
        0 <= m.ins_ptr,
        m.ins_ptr + count <= program.len(),
        forall|i: int| m.ins_ptr <= i < m.ins_ptr + count ==> program[i] == c,
    ensures
        run(program, input, n + count) == Run::Running(
            m.store(shifted(m.cell(), c, count)).jump(m.ins_ptr + count),
        ),
    decreases count,
{
    if count == 0 {
        assert(m.store(m.cell()).tape =~= m.tape);
    } else {
        let at = m.ins_ptr + count - 1;
        let old_value = shifted(m.cell(), c, (count - 1) as nat);
        let new_value = shifted(m.cell(), c, count);
        let before = m.store(old_value).jump(at);
        let after = m.store(new_value).jump(at + 1);
        lemma_row(program, input, n, m, c, (count - 1) as nat);
        assert(run(program, input, (n + count - 1) as nat) == Run::Running(before));
        assert(program[at] == c);
        assert(before.on_tape() && before.cell() == old_value);
        lemma_shifted_once_more(m.cell(), c, count);
        assert(before.jump(at + 1).store(new_value).tape =~= after.tape);
        assert(execute(program, input, before) == Run::Running(after));
    }
}

} // verus!

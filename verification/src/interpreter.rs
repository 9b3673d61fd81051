//! The interpreter: the machine in executable form.

use crate::brackets::{matching_closing_bracket_ptr, Bracket};
use crate::error::BrainLuckError;
use crate::machine::{
    execute, halts, lemma_outcome, lemma_run_settles, outcome, run, Machine, Run, TAPE_SIZE,
};
use vstd::pervasive::unreached;
use vstd::prelude::*;

verus! {

/// A program and its input, together with the machine that runs the one on
/// the other. It is run one instruction at a time.
#[derive(Debug)]
pub struct Interpreter {
    insts: Vec<char>,
    input: Vec<u8>,
    memory: Vec<u8>,
    // The pointer moves by one per instruction and no jump is taken while it
    // is off the tape, so it is never further from the tape than the program
    // is long: 128 bits hold that on every machine.
    mem_ptr: i128,
    ins_ptr: usize,
    consumed: usize,
    output: Vec<u8>,
}

/// What one instruction leaves behind.
#[derive(Debug)]
pub enum Step {
    /// The interpreter, ready for the next instruction.
    Running(Interpreter),
    /// The end of the run: the bytes written, or the failure.
    Ended(Result<Vec<u8>, BrainLuckError>),
    /// The instruction needed the current cell, and the memory pointer stood
    /// outside the tape.
    OffTape,
}

impl View for Interpreter {
    type V = Machine;

    closed spec fn view(&self) -> Machine {
        Machine {
            tape: self.memory@,
            mem_ptr: self.mem_ptr as int,
            ins_ptr: self.ins_ptr as int,
            consumed: self.consumed as int,
            output: self.output@,
        }
    }
}

impl View for Step {
    type V = Run;

    open spec fn view(&self) -> Run {
        match self {
            Step::Running(interpreter) => Run::Running(interpreter@),
            Step::Ended(Ok(output)) => Run::Ended(Ok(output@)),
            Step::Ended(Err(e)) => Run::Ended(Err(*e)),
            Step::OffTape => Run::OffTape,
        }
    }
}

/// The characters of `code`, in order.
fn instructions(code: &str) -> (insts: Vec<char>)
    ensures
        insts@ == code@,
{
    let mut insts: Vec<char> = Vec::new();
    for c in it: code.chars()
        invariant
            it.seq() == code@,
            insts@ == it.seq().take(it.index()),
    {
        insts.push(c);
        assert(insts@ =~= it.seq().take(it.index() + 1));
    }
    assert(insts@ =~= code@);
    insts
}

impl Interpreter {
    /// The tape has its full length, no more input is read than there is,
    /// and the memory pointer is no further from the tape than the
    /// instructions that lie before the instruction pointer can have moved it.
    #[verifier::type_invariant]
    spec fn well_formed(&self) -> bool {
        &&& self.memory.len() == TAPE_SIZE
        &&& self.consumed <= self.input.len()
        &&& self.ins_ptr <= self.insts.len()
        &&& -self.ins_ptr <= self.mem_ptr <= TAPE_SIZE - 1 + self.ins_ptr
    }

    /// The program that is run.
    pub closed spec fn program(&self) -> Seq<char> {
        self.insts@
    }

    /// The input that the program reads from.
    pub closed spec fn input(&self) -> Seq<u8> {
        self.input@
    }

    /// The interpreter of `code` on `input`, before the first instruction.
    pub fn new(code: &str, input: Vec<u8>) -> (interpreter: Interpreter)
        ensures
            interpreter.program() == code@,
            interpreter.input() == input@,
            interpreter@ == Machine::start(),
    {
        let memory: Vec<u8> = vec![0u8; TAPE_SIZE];
        assert(memory@ =~= Machine::start().tape);
        Interpreter {
            insts: instructions(code),
            input,
            memory,
            mem_ptr: 0,
            ins_ptr: 0,
            consumed: 0,
            output: Vec::new(),
        }
    }

    /// Executes the instruction under the instruction pointer, or ends the
    /// run where the instruction pointer has left the program.
    pub fn step(self) -> (next: Step)
        ensures
            next@ == execute(self.program(), self.input(), self@),
            next matches Step::Running(interpreter) ==> interpreter.program() == self.program()
                && interpreter.input() == self.input(),
    {
        proof {
            use_type_invariant(&self);
        }
        let Interpreter {
            insts,
            input,
            mut memory,
            mut mem_ptr,
            mut ins_ptr,
            mut consumed,
            mut output,
        } = self;
        if ins_ptr >= insts.len() {
            return Step::Ended(Ok(output));
        }
        let c: char = insts[ins_ptr];
        if c == ',' && consumed >= input.len() {
            return Step::Ended(Err(BrainLuckError::UnexpectedEndOfInput));
        }
        let needs_cell: bool = c == '+' || c == '-' || c == '.' || c == ',' || c == '[' || c == ']';
        if needs_cell && !(0 <= mem_ptr && mem_ptr < TAPE_SIZE as i128) {
            return Step::OffTape;
        }
        match c {
            '>' => {
                mem_ptr = mem_ptr + 1;
            },
            '<' => {
                mem_ptr = mem_ptr - 1;
            },
            '+' => {
                let value: u8 = memory[mem_ptr as usize].wrapping_add(1);
                memory.set(mem_ptr as usize, value);
            },
            '-' => {
                let value: u8 = memory[mem_ptr as usize].wrapping_sub(1);
                memory.set(mem_ptr as usize, value);
            },
            '.' => {
                output.push(memory[mem_ptr as usize]);
            },
            ',' => {
                memory.set(mem_ptr as usize, input[consumed]);
                consumed = consumed + 1;
            },
            '[' => {
                if memory[mem_ptr as usize] == 0 {
                    match matching_closing_bracket_ptr(
                        insts.as_slice(),
                        ins_ptr,
                        Bracket::LBracket,
                    ) {
                        Ok(at) => {
                            ins_ptr = at;
                        },
                        Err(e) => {
                            return Step::Ended(Err(e));
                        },
                    }
                }
            },
            ']' => {
                if memory[mem_ptr as usize] != 0 {
                    match matching_closing_bracket_ptr(
                        insts.as_slice(),
                        ins_ptr,
                        Bracket::RBracket,
                    ) {
                        Ok(at) => {
                            ins_ptr = at;
                        },
                        Err(e) => {
                            return Step::Ended(Err(e));
                        },
                    }
                }
            },
            _ => {
                if !c.is_whitespace() {
                    return Step::Ended(Err(BrainLuckError::UnexpectedCharInCode(c)));
                }
            },
        }
        ins_ptr = ins_ptr + 1;
        Step::Running(Interpreter { insts, input, memory, mem_ptr, ins_ptr, consumed, output })
    }
}

/// Runs `code` on `input` and returns the bytes that it wrote, or the first
/// failure. A failure leaves nothing of what was written before it.
///
/// Brackets are matched when a jump is taken and characters are looked at
/// when they are reached, so a bracket without a partner or a stray
/// character in a part of the program that is never executed does no harm.
///
/// A program may run forever, and it may ask for a cell while the memory
/// pointer stands outside the tape. This function is for the runs that do
/// neither; [`Interpreter::step`] takes any run as far as it goes.
pub fn brain_luck(code: &str, input: Vec<u8>) -> (res: Result<Vec<u8>, BrainLuckError>)
    requires
        halts(code@, input@),
    ensures
        match res {
            Ok(output) => outcome(code@, input@) == Ok::<Seq<u8>, BrainLuckError>(output@),
            Err(e) => outcome(code@, input@) == Err::<Seq<u8>, BrainLuckError>(e),
        },
{
    let ghost bytes = input@;
    let ghost total = choose|n: nat| run(code@, bytes, n) is Ended;
    let ghost mut steps: nat = 0;
    let mut interpreter = Interpreter::new(code, input);
    loop
        invariant
            bytes == input@,
            interpreter.program() == code@,
            interpreter.input() == bytes,
            run(code@, bytes, steps) == Run::Running(interpreter@),
            run(code@, bytes, total) is Ended,
        decreases total - steps,
    {
        proof {
            // The run is still going, so it has not yet taken the `total`
            // instructions after which it is over.
            if steps >= total {
                lemma_run_settles(code@, bytes, total, steps);
            }
            assert(run(code@, bytes, steps + 1) == execute(code@, bytes, interpreter@));
            // If this instruction ends it, it ends it as the whole run ends:
            // with the outcome, and not off the tape.
            if !(run(code@, bytes, steps + 1) is Running) {
                lemma_run_settles(code@, bytes, steps + 1, total);
                lemma_outcome(code@, bytes, total);
            }
        }
        match interpreter.step() {
            Step::Running(next) => {
                interpreter = next;
                proof {
                    steps = steps + 1;
                }
            },
            Step::Ended(res) => {
                return res;
            },
            Step::OffTape => {
                return unreached();
            },
        }
    }
}

} // verus!

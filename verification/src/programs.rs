//! What a few small programs compute, proved from the definition of a run.

use crate::brackets::{boundary, lemma_innermost_pair, Bracket};
use crate::error::BrainLuckError;
use crate::machine::{
    execute, halts, lemma_outcome, lemma_row, outcome, run, shifted, Machine, Run,
};
use vstd::prelude::*;

verus! {

/// One instruction on: the run stands at `from` after `n` instructions, and
/// the next one leads to a machine that agrees with `to` in every part.
proof fn lemma_next(program: Seq<char>, input: Seq<u8>, n: nat, from: Machine, to: Machine)
    requires
        run(program, input, n) == Run::Running(from),
        execute(program, input, from) matches Run::Running(next) && next.tape =~= to.tape
            && next.mem_ptr == to.mem_ptr && next.ins_ptr == to.ins_ptr && next.consumed
            == to.consumed && next.output =~= to.output,
    ensures
        run(program, input, n + 1) == Run::Running(to),
{
    assert(run(program, input, n + 1) == execute(program, input, from));
}

/// The program that holds `c` `count` times and then a `.`.
pub open spec fn repeated_then_print(c: char, count: nat) -> Seq<char> {
    Seq::new(count, |i: int| c).push('.')
}

/// The run of `repeated_then_print(c, count)`, where `c` is `+` or `-`,
/// writes what the row has made of the first cell, and ends.
proof fn lemma_row_is_printed(c: char, count: nat, input: Seq<u8>)
    requires
        c == '+' || c == '-',
    ensures
        halts(repeated_then_print(c, count), input),
        outcome(repeated_then_print(c, count), input) == Ok::<Seq<u8>, BrainLuckError>(
            seq![shifted(0, c, count)],
        ),
{
    let program = repeated_then_print(c, count);
    let counted = Machine::start().store(shifted(0, c, count)).jump(count as int);
    let printed = Machine { output: seq![shifted(0, c, count)], ..counted.jump(count as int + 1) };
    lemma_row(program, input, 0, Machine::start(), c, count);
    lemma_next(program, input, count, counted, printed);
    assert(run(program, input, count + 2) == execute(program, input, printed));
    lemma_outcome(program, input, count + 2);
}

/// A cell wraps past 255: `count` times `+` on a zero cell leave
/// `count % 256` in it.
pub proof fn lemma_increments_wrap(count: nat, input: Seq<u8>)
    ensures
        halts(repeated_then_print('+', count), input),
        outcome(repeated_then_print('+', count), input) == Ok::<Seq<u8>, BrainLuckError>(
            seq![(count % 256) as u8],
        ),
{
    lemma_row_is_printed('+', count, input);
}

/// A cell wraps below zero: `count` times `-` on a zero cell leave
/// `(0 - count) % 256` in it, which is 255 after the first of them.
pub proof fn lemma_decrements_wrap(count: nat, input: Seq<u8>)
    ensures
        halts(repeated_then_print('-', count), input),
        outcome(repeated_then_print('-', count), input) == Ok::<Seq<u8>, BrainLuckError>(
            seq![((0 - count) % 256) as u8],
        ),
{
    lemma_row_is_printed('-', count, input);
}

/// The program that reads two bytes and writes their sum.
pub open spec fn adder() -> Seq<char> {
    ",>,<[->+<]>."@
}

/// The adder's machine once both bytes are read: `x` and `y` in the first
/// two cells.
spec fn adder_machine(x: int, y: int, mem_ptr: int, ins_ptr: int) -> Machine {
    Machine {
        tape: Machine::start().tape.update(0, x as u8).update(1, y as u8),
        mem_ptr,
        ins_ptr,
        consumed: 2,
        output: Seq::empty(),
    }
}

/// The two brackets of the adder are each other's partners.
proof fn lemma_adder_brackets()
    ensures
        boundary(adder(), Bracket::LBracket, 4) == Some(9int),
        boundary(adder(), Bracket::RBracket, 9) == Some(4int),
{
    reveal_strlit(",>,<[->+<]>.");
    lemma_innermost_pair(adder(), 4, 9);
}

/// The adder reads two bytes into the first two cells and comes back to the
/// first.
proof fn lemma_adder_reads(input: Seq<u8>)
    requires
        input.len() >= 2,
    ensures
        run(adder(), input, 4) == Run::Running(
            adder_machine(input[0] as int, input[1] as int, 0, 4),
        ),
{
    reveal_strlit(",>,<[->+<]>.");
    let start = Machine::start();
    let m1 = Machine { consumed: 1, ..start.store(input[0]).jump(1) };
    let m2 = Machine { mem_ptr: 1, ..m1.jump(2) };
    let m3 = Machine { consumed: 2, ..m2.store(input[1]).jump(3) };
    lemma_next(adder(), input, 0, start, m1);
    lemma_next(adder(), input, 1, m1, m2);
    lemma_next(adder(), input, 2, m2, m3);
    lemma_next(adder(), input, 3, m3, adder_machine(input[0] as int, input[1] as int, 0, 4));
}

/// One turn of the adder's loop, from behind the `[`: it moves one unit from
/// the first cell to the second, and leaves the loop when the first cell is
/// empty.
proof fn lemma_adder_turn(input: Seq<u8>, n: nat, x: int, y: int)
    requires
        1 <= x <= 255,
        0 <= y <= 255,
        run(adder(), input, n) == Run::Running(adder_machine(x, y, 0, 5)),
    ensures
        run(adder(), input, n + 5) == Run::Running(
            adder_machine(x - 1, (y + 1) % 256, 0, if x == 1 { 10 } else { 5 }),
        ),
{
    reveal_strlit(",>,<[->+<]>.");
    lemma_adder_brackets();
    let z = (y + 1) % 256;
    lemma_next(adder(), input, n, adder_machine(x, y, 0, 5), adder_machine(x - 1, y, 0, 6));
    lemma_next(adder(), input, n + 1, adder_machine(x - 1, y, 0, 6), adder_machine(x - 1, y, 1, 7));
    lemma_next(adder(), input, n + 2, adder_machine(x - 1, y, 1, 7), adder_machine(x - 1, z, 1, 8));
    lemma_next(adder(), input, n + 3, adder_machine(x - 1, z, 1, 8), adder_machine(x - 1, z, 0, 9));
    lemma_next(
        adder(),
        input,
        n + 4,
        adder_machine(x - 1, z, 0, 9),
        adder_machine(x - 1, z, 0, if x == 1 { 10 } else { 5 }),
    );
}

/// Where the adder stands at the head of the turn after `i` full turns.
proof fn lemma_adder_turns(input: Seq<u8>, i: nat)
    requires
        input.len() >= 2,
        i < input[0],
    ensures
        run(adder(), input, 5 + 5 * i) == Run::Running(
            adder_machine(input[0] - i, (input[1] + i) % 256, 0, 5),
        ),
    decreases i,
{
    let a = input[0] as int;
    let b = input[1] as int;
    if i == 0 {
        reveal_strlit(",>,<[->+<]>.");
        lemma_adder_reads(input);
        lemma_next(adder(), input, 4, adder_machine(a, b, 0, 4), adder_machine(a, b, 0, 5));
    } else {
        lemma_adder_turns(input, (i - 1) as nat);
        lemma_adder_turn(input, (5 + 5 * (i - 1)) as nat, a - (i - 1), (b + (i - 1)) % 256);
    }
}

/// The adder writes the sum of the first two bytes of its input, modulo 256:
/// the sum itself where that is no more than 255.
pub proof fn lemma_adder_adds(input: Seq<u8>)
    requires
        input.len() >= 2,
    ensures
        halts(adder(), input),
        outcome(adder(), input) == Ok::<Seq<u8>, BrainLuckError>(
            seq![((input[0] + input[1]) % 256) as u8],
        ),
        input[0] + input[1] <= 255 ==> outcome(adder(), input) == Ok::<Seq<u8>, BrainLuckError>(
            seq![(input[0] + input[1]) as u8],
        ),
{
    reveal_strlit(",>,<[->+<]>.");
    let a = input[0] as int;
    let b = input[1] as int;
    let sum = (a + b) % 256;
    let n: nat = if a == 0 {
        5
    } else {
        (5 + 5 * a) as nat
    };
    assert(run(adder(), input, n) == Run::Running(adder_machine(0, sum, 0, 10))) by {
        if a == 0 {
            lemma_adder_reads(input);
            lemma_adder_brackets();
            lemma_next(adder(), input, 4, adder_machine(0, b, 0, 4), adder_machine(0, sum, 0, 10));
        } else {
            lemma_adder_turns(input, (a - 1) as nat);
            lemma_adder_turn(input, (5 * a) as nat, 1, (b + a - 1) % 256);
        }
    }
    let printed = Machine { output: seq![sum as u8], ..adder_machine(0, sum, 1, 12) };
    lemma_next(adder(), input, n, adder_machine(0, sum, 0, 10), adder_machine(0, sum, 1, 11));
    lemma_next(adder(), input, n + 1, adder_machine(0, sum, 1, 11), printed);
    assert(run(adder(), input, n + 3) == execute(adder(), input, printed));
    lemma_outcome(adder(), input, n + 3);
}

/// How many times `+` it takes to bring `sentinel` to zero.
pub open spec fn lift(sentinel: u8) -> nat {
    ((256 - sentinel) % 256) as nat
}

/// The program that writes each byte that it reads, until it reads
/// `sentinel`. It reads a byte, lifts it so that the sentinel becomes zero,
/// and, while the cell is not zero, takes the lift back, writes the byte,
/// reads the next and lifts that.
pub open spec fn echo_until(sentinel: u8) -> Seq<char> {
    let k = lift(sentinel);
    seq![','] + Seq::new(k, |i: int| '+') + seq!['['] + Seq::new(k, |i: int| '-') + seq!['.', ',']
        + Seq::new(k, |i: int| '+') + seq![']']
}

/// The characters of `echo_until(sentinel)`, by position.
proof fn lemma_echo_text(sentinel: u8)
    ensures
        ({
            let k = lift(sentinel) as int;
            let program = echo_until(sentinel);
            &&& program.len() == 3 * k + 5
            &&& program[0] == ','
            &&& forall|i: int| 1 <= i <= k ==> program[i] == '+'
            &&& program[k + 1] == '['
            &&& forall|i: int| k + 2 <= i <= 2 * k + 1 ==> program[i] == '-'
            &&& program[2 * k + 2] == '.'
            &&& program[2 * k + 3] == ','
            &&& forall|i: int| 2 * k + 4 <= i <= 3 * k + 3 ==> program[i] == '+'
            &&& program[3 * k + 4] == ']'
        }),
{
}

/// The machine of `echo_until`: it only ever uses the first cell.
spec fn echo_machine(cell: u8, ins_ptr: nat, consumed: nat, output: Seq<u8>) -> Machine {
    Machine {
        tape: Machine::start().tape.update(0, cell),
        mem_ptr: 0,
        ins_ptr: ins_ptr as int,
        consumed: consumed as int,
        output,
    }
}

/// The byte `value`, lifted.
spec fn lifted(sentinel: u8, value: u8) -> u8 {
    shifted(value, '+', lift(sentinel))
}

/// The two brackets of `echo_until` are each other's partners.
proof fn lemma_echo_brackets(sentinel: u8)
    ensures
        ({
            let k = lift(sentinel) as int;
            &&& boundary(echo_until(sentinel), Bracket::LBracket, k + 1) == Some(3 * k + 4)
            &&& boundary(echo_until(sentinel), Bracket::RBracket, 3 * k + 4) == Some(k + 1)
        }),
{
    let k = lift(sentinel) as int;
    lemma_echo_text(sentinel);
    lemma_innermost_pair(echo_until(sentinel), k + 1, 3 * k + 4);
}

/// A row of `lift(sentinel)` times `+` or `-` in `echo_until(sentinel)`,
/// on the machine of `echo_until`.
proof fn lemma_echo_row(
    sentinel: u8,
    input: Seq<u8>,
    n: nat,
    c: char,
    cell: u8,
    ins_ptr: nat,
    consumed: nat,
    output: Seq<u8>,
)
    requires
        c == '+' || c == '-',
        run(echo_until(sentinel), input, n) == Run::Running(
            echo_machine(cell, ins_ptr, consumed, output),
        ),
        ins_ptr + lift(sentinel) <= echo_until(sentinel).len(),
        forall|i: int| ins_ptr <= i < ins_ptr + lift(sentinel) ==> echo_until(sentinel)[i] == c,
    ensures
        run(echo_until(sentinel), input, n + lift(sentinel)) == Run::Running(
            echo_machine(
                shifted(cell, c, lift(sentinel)),
                ins_ptr + lift(sentinel),
                consumed,
                output,
            ),
        ),
{
    let from = echo_machine(cell, ins_ptr, consumed, output);
    let to = echo_machine(
        shifted(cell, c, lift(sentinel)),
        ins_ptr + lift(sentinel),
        consumed,
        output,
    );
    lemma_row(echo_until(sentinel), input, n, from, c, lift(sentinel));
    assert(from.store(shifted(cell, c, lift(sentinel))).tape =~= to.tape);
}

/// Where the run of `echo_until` stands once it has read its first byte and
/// lifted it.
proof fn lemma_echo_reads(sentinel: u8, input: Seq<u8>)
    requires
        input.len() > 0,
    ensures
        run(echo_until(sentinel), input, 1 + lift(sentinel)) == Run::Running(
            echo_machine(lifted(sentinel, input[0]), lift(sentinel) + 1, 1, Seq::empty()),
        ),
{
    lemma_echo_text(sentinel);
    let program = echo_until(sentinel);
    lemma_next(program, input, 0, Machine::start(), echo_machine(input[0], 1, 1, Seq::empty()));
    lemma_echo_row(sentinel, input, 1, '+', input[0], 1, 1, Seq::empty());
}

/// The first half of a turn of the loop of `echo_until`, from behind the
/// `[`: it takes the lift back, writes the byte and reads the next.
proof fn lemma_echo_writes(sentinel: u8, input: Seq<u8>, n: nat, j: nat)
    requires
        j + 1 < input.len(),
        run(echo_until(sentinel), input, n) == Run::Running(
            echo_machine(
                lifted(sentinel, input[j as int]),
                lift(sentinel) + 2,
                j + 1,
                input.take(j as int),
            ),
        ),
    ensures
        run(echo_until(sentinel), input, n + lift(sentinel) + 2) == Run::Running(
            echo_machine(
                input[j as int + 1],
                2 * lift(sentinel) + 4,
                j + 2,
                input.take(j as int + 1),
            ),
        ),
{
    lemma_echo_text(sentinel);
    let program = echo_until(sentinel);
    let k = lift(sentinel);
    let seen = input.take(j as int);
    let written = input.take(j as int + 1);
    let this = input[j as int];
    assert(seen.push(this) =~= written);
    assert(shifted(lifted(sentinel, this), '-', k) == this);
    lemma_echo_row(sentinel, input, n, '-', lifted(sentinel, this), k + 2, j + 1, seen);
    lemma_next(
        program,
        input,
        n + k,
        echo_machine(this, 2 * k + 2, j + 1, seen),
        echo_machine(this, 2 * k + 3, j + 1, written),
    );
    lemma_next(
        program,
        input,
        n + k + 1,
        echo_machine(this, 2 * k + 3, j + 1, written),
        echo_machine(input[j as int + 1], 2 * k + 4, j + 2, written),
    );
}

/// The second half of a turn: it lifts the byte just read, and leaves the
/// loop if that byte is the sentinel.
proof fn lemma_echo_lifts(
    sentinel: u8,
    input: Seq<u8>,
    n: nat,
    next: u8,
    consumed: nat,
    written: Seq<u8>,
)
    requires
        run(echo_until(sentinel), input, n) == Run::Running(
            echo_machine(next, 2 * lift(sentinel) + 4, consumed, written),
        ),
    ensures
        run(echo_until(sentinel), input, n + lift(sentinel) + 1) == Run::Running(
            echo_machine(
                lifted(sentinel, next),
                if next == sentinel {
                    3 * lift(sentinel) + 5
                } else {
                    lift(sentinel) + 2
                },
                consumed,
                written,
            ),
        ),
{
    lemma_echo_text(sentinel);
    lemma_echo_brackets(sentinel);
    let k = lift(sentinel);
    assert(lifted(sentinel, next) == 0 <==> next == sentinel);
    lemma_echo_row(sentinel, input, n, '+', next, 2 * k + 4, consumed, written);
    lemma_next(
        echo_until(sentinel),
        input,
        n + k,
        echo_machine(lifted(sentinel, next), 3 * k + 4, consumed, written),
        echo_machine(
            lifted(sentinel, next),
            if next == sentinel {
                3 * k + 5
            } else {
                k + 2
            },
            consumed,
            written,
        ),
    );
}

/// One turn of the loop of `echo_until`, from behind the `[`: it writes the
/// byte read last, reads the next, and leaves the loop if that one is the
/// sentinel.
proof fn lemma_echo_turn(sentinel: u8, input: Seq<u8>, n: nat, j: nat) -> (after: nat)
    requires
        j + 1 < input.len(),
        run(echo_until(sentinel), input, n) == Run::Running(
            echo_machine(
                lifted(sentinel, input[j as int]),
                lift(sentinel) + 2,
                j + 1,
                input.take(j as int),
            ),
        ),
    ensures
        run(echo_until(sentinel), input, after) == Run::Running(
            echo_machine(
                lifted(sentinel, input[j as int + 1]),
                if input[j as int + 1] == sentinel {
                    3 * lift(sentinel) + 5
                } else {
                    lift(sentinel) + 2
                },
                j + 2,
                input.take(j as int + 1),
            ),
        ),
{
    let k = lift(sentinel);
    lemma_echo_writes(sentinel, input, n, j);
    lemma_echo_lifts(sentinel, input, n + k + 2, input[j as int + 1], j + 2, input.take(j as int + 1));
    n + k + 2 + k + 1
}

/// Where the run of `echo_until` stands at the head of the turn that writes
/// `input[j]`.
proof fn lemma_echo_turns(sentinel: u8, input: Seq<u8>, j: nat) -> (n: nat)
    requires
        j < input.len(),
        forall|i: int| 0 <= i <= j ==> input[i] != sentinel,
    ensures
        run(echo_until(sentinel), input, n) == Run::Running(
            echo_machine(
                lifted(sentinel, input[j as int]),
                lift(sentinel) + 2,
                j + 1,
                input.take(j as int),
            ),
        ),
    decreases j,
{
    let k = lift(sentinel);
    if j == 0 {
        lemma_echo_text(sentinel);
        lemma_echo_reads(sentinel, input);
        assert(input.take(0) =~= Seq::empty());
        assert(lifted(sentinel, input[0]) != 0);
        lemma_next(
            echo_until(sentinel),
            input,
            1 + k,
            echo_machine(lifted(sentinel, input[0]), k + 1, 1, Seq::empty()),
            echo_machine(lifted(sentinel, input[0]), k + 2, 1, input.take(0)),
        );
        2 + k
    } else {
        let n = lemma_echo_turns(sentinel, input, (j - 1) as nat);
        lemma_echo_turn(sentinel, input, n, (j - 1) as nat)
    }
}

/// On an input that holds the sentinel, `echo_until` writes every byte
/// before the first sentinel, in order, and nothing else.
pub proof fn lemma_echo_until_sentinel(sentinel: u8, input: Seq<u8>, end: int)
    requires
        0 <= end < input.len(),
        input[end] == sentinel,
        forall|i: int| 0 <= i < end ==> input[i] != sentinel,
    ensures
        halts(echo_until(sentinel), input),
        outcome(echo_until(sentinel), input) == Ok::<Seq<u8>, BrainLuckError>(input.take(end)),
{
    lemma_echo_text(sentinel);
    let program = echo_until(sentinel);
    let k = lift(sentinel);
    let done = echo_machine(0, 3 * k + 5, (end + 1) as nat, input.take(end));
    assert(lifted(sentinel, input[end]) == 0);
    let n: nat = if end == 0 {
        lemma_echo_reads(sentinel, input);
        lemma_echo_brackets(sentinel);
        assert(input.take(0) =~= Seq::empty());
        lemma_next(program, input, 1 + k, echo_machine(0, k + 1, 1, Seq::empty()), done);
        2 + k
    } else {
        let head = lemma_echo_turns(sentinel, input, (end - 1) as nat);
        lemma_echo_turn(sentinel, input, head, (end - 1) as nat)
    };
    assert(run(program, input, n + 1) == execute(program, input, done));
    lemma_outcome(program, input, n + 1);
}

/// With 255 for the sentinel, `echo_until` is the program `,+[-.,+]`: on
/// an input that holds 255, that program writes every byte before the first
/// 255, in order, and nothing else.
pub proof fn lemma_echo_until_255(input: Seq<u8>, end: int)
    requires
        0 <= end < input.len(),
        input[end] == 255,
        forall|i: int| 0 <= i < end ==> input[i] != 255,
    ensures
        echo_until(255) == ",+[-.,+]"@,
        halts(",+[-.,+]"@, input),
        outcome(",+[-.,+]"@, input) == Ok::<Seq<u8>, BrainLuckError>(input.take(end)),
{
    reveal_strlit(",+[-.,+]");
    assert(echo_until(255) =~= ",+[-.,+]"@);
    lemma_echo_until_sentinel(255, input, end);
}

} // verus!

use brainfuck_rs::{brain_luck, BrainLuckError, Interpreter, Step};

// Steps `code` on `input` until the run is over, at most `limit` times.
fn run_within(code: &str, input: Vec<u8>, limit: usize) -> Option<Step> {
    let mut interpreter = Interpreter::new(code, input);
    for _ in 0..limit {
        match interpreter.step() {
            Step::Running(next) => interpreter = next,
            over => return Some(over),
        }
    }
    None
}

#[test]
fn stepping_ends_with_the_output() {
    assert!(matches!(
        run_within("+.+.", vec![], 100),
        Some(Step::Ended(Ok(output))) if output == vec![1, 2]
    ));
}

#[test]
fn stepping_an_empty_program_ends_at_once() {
    let interpreter = Interpreter::new("", vec![1]);
    assert!(matches!(interpreter.step(), Step::Ended(Ok(output)) if output.is_empty()));
}

#[test]
fn stepping_takes_one_instruction_at_a_time() {
    // Five instructions, and a sixth step that finds the end of the program.
    assert!(run_within(",+.>.", vec![7], 5).is_none());
    assert!(matches!(
        run_within(",+.>.", vec![7], 6),
        Some(Step::Ended(Ok(output))) if output == vec![8, 0]
    ));
}

#[test]
fn stepping_agrees_with_running() {
    let code = ",>,<[>[->+>+<<]>>[-<<+>>]<<<-]>>.";
    let stepped = run_within(code, vec![8, 9], 100_000);
    assert!(matches!(stepped, Some(Step::Ended(result)) if result == brain_luck(code, vec![8, 9])));
}

#[test]
fn stepping_ends_with_the_failure() {
    assert!(matches!(
        run_within("+.?", vec![], 100),
        Some(Step::Ended(Err(BrainLuckError::UnexpectedCharInCode('?'))))
    ));
    assert!(matches!(
        run_within(",,", vec![1], 100),
        Some(Step::Ended(Err(BrainLuckError::UnexpectedEndOfInput)))
    ));
    assert!(matches!(
        run_within("[", vec![], 100),
        Some(Step::Ended(Err(BrainLuckError::UnbalancedBrackets)))
    ));
}

#[test]
fn cell_left_of_the_tape_is_off_tape() {
    assert!(matches!(run_within("<+", vec![], 100), Some(Step::OffTape)));
    assert!(matches!(run_within("<.", vec![], 100), Some(Step::OffTape)));
    assert!(matches!(run_within("<,", vec![1], 100), Some(Step::OffTape)));
    assert!(matches!(run_within("<[", vec![], 100), Some(Step::OffTape)));
    assert!(matches!(run_within("<]", vec![], 100), Some(Step::OffTape)));
}

#[test]
fn cell_right_of_the_tape_is_off_tape() {
    let mut code = ">".repeat(1000);
    code.push('-');
    assert!(matches!(run_within(&code, vec![], 2000), Some(Step::OffTape)));
}

#[test]
fn endless_loop_keeps_running() {
    assert!(run_within("+[]", vec![], 10_000).is_none());
}

use brainfuck_rs::{brain_luck, BrainLuckError};

// The bytes of `s`, followed by the terminating byte `i`.
fn ez_vec(s: &str, i: u8) -> Vec<u8> {
    let mut v = s.to_string().into_bytes();
    v.push(i);
    v
}

#[test]
fn echo_until_byte_255_encountered() {
    assert!(
        String::from_utf8(brain_luck(",+[-.,+]", ez_vec("Codewars", 255)).unwrap()).unwrap()
            == "Codewars"
    );
}

#[test]
fn echo_until_byte_0_encountered() {
    assert!(
        String::from_utf8(brain_luck(",[.[-],]", ez_vec("Codewars", 0)).unwrap()).unwrap()
            == "Codewars"
    );
}

#[test]
fn multiply_two_numbers() {
    assert!(brain_luck(",>,<[>[->+>+<<]>>[-<<+>>]<<<-]>>.", vec![8, 9]).unwrap() == vec![72]);
}

#[test]
fn unexpected_char_in_code() {
    assert!(matches!(
        brain_luck(",[.[-]a,]", ez_vec("Hello", 0)),
        Err(BrainLuckError::UnexpectedCharInCode('a'))
    ));
}

#[test]
fn unbalanced_brackets() {
    assert!(brain_luck("[.[-],", ez_vec("Hello", 0)) == Err(BrainLuckError::UnbalancedBrackets));
}

#[test]
fn unexpected_end_of_input() {
    assert!(matches!(
        brain_luck(",[.[-],]", vec![72, 101, 108, 108]),
        Err(BrainLuckError::UnexpectedEndOfInput)
    ));
}

#[test]
fn add_two_numbers() {
    assert!(brain_luck(",>,<[->+<]>.", vec![5, 10]).unwrap() == vec![15]);
}

#[test]
fn subtract_two_numbers() {
    assert!(brain_luck(">,>,[<[->]<]>>[[<+>-]>>]<<<.", vec![10, 5]).unwrap() == vec![5]);
}

#[test]
fn empty_program_writes_nothing() {
    assert_eq!(brain_luck("", vec![1, 2, 3]), Ok(vec![]));
}

#[test]
fn echo_stops_at_the_first_sentinel() {
    assert_eq!(brain_luck(",+[-.,+]", vec![7, 255, 9, 255]), Ok(vec![7]));
    assert_eq!(brain_luck(",+[-.,+]", vec![255]), Ok(vec![]));
}

// The program that echoes until it reads `sentinel`: every byte is lifted by
// as much as takes the sentinel to zero.
fn echo_until(sentinel: u8) -> String {
    let lift = (256 - sentinel as usize) % 256;
    let mut code = String::from(",");
    code.push_str(&"+".repeat(lift));
    code.push('[');
    code.push_str(&"-".repeat(lift));
    code.push_str(".,");
    code.push_str(&"+".repeat(lift));
    code.push(']');
    code
}

#[test]
fn echo_until_any_sentinel() {
    assert_eq!(echo_until(255), ",+[-.,+]");
    assert_eq!(echo_until(0), ",[.,]");
    assert_eq!(brain_luck(&echo_until(0), vec![3, 255, 1, 0, 9]), Ok(vec![3, 255, 1]));
    assert_eq!(brain_luck(&echo_until(10), vec![0, 11, 255, 9, 10, 10]), Ok(vec![0, 11, 255, 9]));
    assert_eq!(brain_luck(&echo_until(128), vec![128, 1]), Ok(vec![]));
    assert_eq!(
        brain_luck(&echo_until(7), vec![1, 2]),
        Err(BrainLuckError::UnexpectedEndOfInput)
    );
}

#[test]
fn addition_wraps_past_255() {
    assert_eq!(brain_luck(",>,<[->+<]>.", vec![200, 100]), Ok(vec![44]));
    assert_eq!(brain_luck(",>,<[->+<]>.", vec![0, 0]), Ok(vec![0]));
    assert_eq!(brain_luck(",>,<[->+<]>.", vec![255, 0]), Ok(vec![255]));
}

#[test]
fn increment_wraps_to_zero() {
    let mut code = "+".repeat(256);
    code.push('.');
    assert_eq!(brain_luck(&code, vec![]), Ok(vec![0]));
    let mut code = "+".repeat(255);
    code.push('.');
    assert_eq!(brain_luck(&code, vec![]), Ok(vec![255]));
    let mut code = "+".repeat(300);
    code.push('.');
    assert_eq!(brain_luck(&code, vec![]), Ok(vec![44]));
}

#[test]
fn decrement_wraps_to_255() {
    assert_eq!(brain_luck("-.", vec![]), Ok(vec![255]));
    assert_eq!(brain_luck("--.", vec![]), Ok(vec![254]));
    let mut code = "-".repeat(256);
    code.push('.');
    assert_eq!(brain_luck(&code, vec![]), Ok(vec![0]));
}

#[test]
fn white_space_is_skipped() {
    assert_eq!(brain_luck(" +\t+\n+ .\r\n", vec![]), Ok(vec![3]));
    assert_eq!(brain_luck("+\u{a0}+\u{3000}.", vec![]), Ok(vec![2]));
}

#[test]
fn other_characters_fail_when_reached() {
    assert_eq!(brain_luck("a", vec![]), Err(BrainLuckError::UnexpectedCharInCode('a')));
    assert_eq!(brain_luck("+.x.", vec![]), Err(BrainLuckError::UnexpectedCharInCode('x')));
    assert_eq!(brain_luck("+_", vec![]), Err(BrainLuckError::UnexpectedCharInCode('_')));
}

#[test]
fn skipped_loop_body_is_not_inspected() {
    assert_eq!(brain_luck("[a]", vec![]), Ok(vec![]));
    assert_eq!(brain_luck("[a]+.", vec![]), Ok(vec![1]));
}

#[test]
fn first_failure_wins() {
    assert_eq!(brain_luck(",a", vec![]), Err(BrainLuckError::UnexpectedEndOfInput));
    assert_eq!(brain_luck("a,", vec![]), Err(BrainLuckError::UnexpectedCharInCode('a')));
}

#[test]
fn read_on_empty_input_fails_after_output() {
    assert_eq!(brain_luck("+.,", vec![]), Err(BrainLuckError::UnexpectedEndOfInput));
    assert_eq!(brain_luck(",.,", vec![65]), Err(BrainLuckError::UnexpectedEndOfInput));
}

#[test]
fn read_on_empty_input_fails_off_the_tape() {
    assert_eq!(brain_luck("<,", vec![]), Err(BrainLuckError::UnexpectedEndOfInput));
}

#[test]
fn opening_bracket_without_partner_fails_when_jumping() {
    assert_eq!(brain_luck("[", vec![]), Err(BrainLuckError::UnbalancedBrackets));
    assert_eq!(brain_luck("+.-[-.", vec![]), Err(BrainLuckError::UnbalancedBrackets));
    assert_eq!(brain_luck("[[]", vec![]), Err(BrainLuckError::UnbalancedBrackets));
}

#[test]
fn opening_bracket_without_partner_is_entered_on_nonzero_cell() {
    assert_eq!(brain_luck("+[", vec![]), Ok(vec![]));
    assert_eq!(brain_luck("+[.", vec![]), Ok(vec![1]));
    assert_eq!(brain_luck("+[-.", vec![]), Ok(vec![0]));
}

#[test]
fn closing_bracket_without_partner_fails_when_jumping() {
    assert_eq!(brain_luck("+]", vec![]), Err(BrainLuckError::UnbalancedBrackets));
    assert_eq!(brain_luck("+.]", vec![]), Err(BrainLuckError::UnbalancedBrackets));
    assert_eq!(brain_luck("]", vec![]), Ok(vec![]));
}

#[test]
fn pointer_may_leave_the_tape_between_accesses() {
    assert_eq!(brain_luck("<>+.", vec![]), Ok(vec![1]));
    assert_eq!(brain_luck("<<<>>>>+.<-.", vec![]), Ok(vec![1, 255]));
    let mut code = ">".repeat(1000);
    code.push_str("<+.");
    assert_eq!(brain_luck(&code, vec![]), Ok(vec![1]));
}

#[test]
fn last_cell_of_the_tape_is_usable() {
    let mut code = ">".repeat(999);
    code.push_str(",.");
    assert_eq!(brain_luck(&code, vec![42]), Ok(vec![42]));
}

#[test]
fn nested_loops_jump_to_their_own_partners() {
    // Clears two cells through nested loops, then prints both.
    assert_eq!(brain_luck("++>+++<[>[-]<-]>.<.", vec![]), Ok(vec![0, 0]));
    // The inner loop is skipped on its second visit.
    assert_eq!(brain_luck("++[>[-]+<-]>.", vec![]), Ok(vec![1]));
}

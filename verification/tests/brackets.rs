use brainfuck_rs::{matching_closing_bracket_ptr, Bracket, BrainLuckError};

#[test]
fn matching_closing_bracket_ptr_balanced() {
    let code = "++[--[++]]";
    let insts = code.chars().collect::<Vec<_>>();
    assert!(matching_closing_bracket_ptr(&insts, 2, Bracket::LBracket).unwrap() == 9);
    assert!(matching_closing_bracket_ptr(&insts, 9, Bracket::RBracket).unwrap() == 2);
}

#[test]
fn matching_closing_bracket_ptr_unbalanced_left() {
    let code = "++[--[++]";
    let insts = code.chars().collect::<Vec<_>>();
    assert!(matches!(
        matching_closing_bracket_ptr(&insts, 2, Bracket::LBracket),
        Err(BrainLuckError::UnbalancedBrackets)
    ));
}

#[test]
fn matching_closing_bracket_ptr_unbalanced_right() {
    let code = "++[--[++]]]";
    let insts = code.chars().collect::<Vec<_>>();
    assert!(matches!(
        matching_closing_bracket_ptr(&insts, 10, Bracket::RBracket),
        Err(BrainLuckError::UnbalancedBrackets)
    ));
}

#[test]
fn inner_brackets_match_each_other() {
    let insts = "++[--[++]]".chars().collect::<Vec<_>>();
    assert_eq!(matching_closing_bracket_ptr(&insts, 5, Bracket::LBracket), Ok(8));
    assert_eq!(matching_closing_bracket_ptr(&insts, 8, Bracket::RBracket), Ok(5));
}

#[test]
fn forward_and_backward_scans_agree_on_every_pair() {
    let insts = "[[][[]]][]".chars().collect::<Vec<_>>();
    let pairs = [(0usize, 7usize), (1, 2), (3, 6), (4, 5), (8, 9)];
    for (open, close) in pairs {
        assert_eq!(matching_closing_bracket_ptr(&insts, open, Bracket::LBracket), Ok(close));
        assert_eq!(matching_closing_bracket_ptr(&insts, close, Bracket::RBracket), Ok(open));
    }
}

#[test]
fn scan_from_a_plain_character_stays_there() {
    let insts = "+[-]".chars().collect::<Vec<_>>();
    assert_eq!(matching_closing_bracket_ptr(&insts, 0, Bracket::LBracket), Ok(0));
    assert_eq!(matching_closing_bracket_ptr(&insts, 2, Bracket::RBracket), Ok(2));
}

#[test]
fn scan_from_the_wrong_bracket_fails() {
    let insts = "[]".chars().collect::<Vec<_>>();
    assert_eq!(
        matching_closing_bracket_ptr(&insts, 1, Bracket::LBracket),
        Err(BrainLuckError::UnbalancedBrackets)
    );
    assert_eq!(
        matching_closing_bracket_ptr(&insts, 0, Bracket::RBracket),
        Err(BrainLuckError::UnbalancedBrackets)
    );
}

#[test]
fn scan_from_outside_the_program_fails() {
    let insts = "[]".chars().collect::<Vec<_>>();
    assert_eq!(
        matching_closing_bracket_ptr(&insts, 2, Bracket::LBracket),
        Err(BrainLuckError::UnbalancedBrackets)
    );
    assert_eq!(
        matching_closing_bracket_ptr(&insts, 7, Bracket::RBracket),
        Err(BrainLuckError::UnbalancedBrackets)
    );
    assert_eq!(
        matching_closing_bracket_ptr(&[], 0, Bracket::LBracket),
        Err(BrainLuckError::UnbalancedBrackets)
    );
}

#[test]
fn backward_scan_that_reaches_the_start_fails() {
    let insts = "+]".chars().collect::<Vec<_>>();
    assert_eq!(
        matching_closing_bracket_ptr(&insts, 1, Bracket::RBracket),
        Err(BrainLuckError::UnbalancedBrackets)
    );
}

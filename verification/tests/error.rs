use brainfuck_rs::BrainLuckError;

#[test]
fn message_names_the_unexpected_character() {
    assert_eq!(
        BrainLuckError::UnexpectedCharInCode('a').message(),
        "unexpected char a occured in code."
    );
    assert_eq!(
        BrainLuckError::UnexpectedCharInCode('é').message(),
        "unexpected char é occured in code."
    );
}

#[test]
fn message_of_the_other_errors() {
    assert_eq!(BrainLuckError::UnexpectedEndOfInput.message(), "unexpected end of input.");
    assert_eq!(BrainLuckError::UnbalancedBrackets.message(), "unbalanced brackets.");
}

#[test]
fn errors_compare_by_variant_and_character() {
    let a = BrainLuckError::UnexpectedCharInCode('a');
    assert_eq!(a, BrainLuckError::UnexpectedCharInCode('a'));
    assert_ne!(a, BrainLuckError::UnexpectedCharInCode('b'));
    assert_ne!(BrainLuckError::UnexpectedEndOfInput, BrainLuckError::UnbalancedBrackets);
    assert!(BrainLuckError::UnexpectedCharInCode('z') < BrainLuckError::UnexpectedEndOfInput);
    assert!(BrainLuckError::UnexpectedEndOfInput < BrainLuckError::UnbalancedBrackets);
}

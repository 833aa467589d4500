use brainf::compiler::{compile, is_command_char, validate};
use brainf::types::BrainCommand::{
    Decrement, Increment, Input, JumpBackward, JumpForward, MoveLeft, MoveRight, Noop, Output,
};
use brainf::types::BrainError;

#[test]
fn source_without_instructions_is_parse_error() {
    assert_eq!(compile("hello world"), Err(BrainError::ParseError));
    assert_eq!(compile(""), Err(BrainError::ParseError));
    assert_eq!(compile("   \n\t"), Err(BrainError::ParseError));
}

#[test]
fn unmatched_close_is_parse_error() {
    assert_eq!(compile("]"), Err(BrainError::ParseError));
    assert_eq!(compile("+]"), Err(BrainError::ParseError));
    assert_eq!(compile("[]]["), Err(BrainError::ParseError));
}

#[test]
fn unclosed_open_is_parse_error() {
    assert_eq!(compile("["), Err(BrainError::ParseError));
    assert_eq!(compile("+[[-]"), Err(BrainError::ParseError));
}

#[test]
fn balanced_source_compiles_and_validates() {
    for src in ["[]", "+[-[+]>]<", "[[[]]][]", "a[b]c."] {
        let program = compile(src).unwrap();
        assert!(validate(&program));
    }
}

#[test]
fn simple_commands_compile_in_order() {
    assert_eq!(
        compile("+>+<").unwrap(),
        vec![Increment, MoveRight, Increment, MoveLeft]
    );
    assert_eq!(
        compile("><+-.,").unwrap(),
        vec![MoveRight, MoveLeft, Increment, Decrement, Output, Input]
    );
}

#[test]
fn comments_are_ignored() {
    assert_eq!(compile("a+ b\n-c").unwrap(), vec![Increment, Decrement]);
}

#[test]
fn jumps_point_at_their_partner() {
    assert_eq!(
        compile("[+]").unwrap(),
        vec![JumpForward(Some(2)), Increment, JumpBackward(Some(0))]
    );
    assert_eq!(
        compile("[[]-]").unwrap(),
        vec![
            JumpForward(Some(4)),
            JumpForward(Some(2)),
            JumpBackward(Some(1)),
            Decrement,
            JumpBackward(Some(0)),
        ]
    );
}

#[test]
fn compiling_twice_gives_the_same_program() {
    for src in ["+[->+<]>.", "+>+<", ",[.,]"] {
        assert_eq!(compile(src), compile(src));
    }
    assert_eq!(compile("]"), compile("]"));
}

#[test]
fn validate_rejects_unresolved_jumps() {
    assert!(!validate(&vec![Increment, JumpForward(None)]));
    assert!(!validate(&vec![JumpBackward(None), Output]));
    assert!(validate(&vec![Noop, JumpForward(Some(0)), Input]));
    assert!(validate(&vec![]));
}

#[test]
fn command_characters() {
    for c in ['>', '<', '+', '-', '.', ',', '[', ']'] {
        assert!(is_command_char(c));
    }
    for c in ['a', ' ', '\n', '{', 'é'] {
        assert!(!is_command_char(c));
    }
}

#[test]
fn sources_with_same_instructions_compile_alike() {
    assert_eq!(compile("a+b[c-]d"), compile("+[-]"));
    assert_eq!(compile("x]y"), compile("]"));
}

use bf::compiler::{compact, compile, CompileError};
use bf::instruction::Instruction;
use bf::scanner::Scanner;

#[test]
fn run_of_five_becomes_one_instruction() {
    assert_eq!(compile("+++++"), Ok(vec![Instruction::Increment(5)]));
    assert_eq!(compile("---"), Ok(vec![Instruction::Decrement(3)]));
    assert_eq!(compile("<<"), Ok(vec![Instruction::MoveLeft(2)]));
    assert_eq!(compile(">>>>"), Ok(vec![Instruction::MoveRight(4)]));
    assert_eq!(compile("."), Ok(vec![Instruction::WriteOutput(1)]));
}

#[test]
fn long_run_carries_its_length() {
    let source = "+".repeat(1000);
    assert_eq!(compile(&source), Ok(vec![Instruction::Increment(1000)]));
}

#[test]
fn different_operators_end_a_run() {
    assert_eq!(
        compile("++--+"),
        Ok(vec![
            Instruction::Increment(2),
            Instruction::Decrement(2),
            Instruction::Increment(1),
        ])
    );
}

#[test]
fn other_characters_end_a_run() {
    assert_eq!(
        compile("+ +"),
        Ok(vec![Instruction::Increment(1), Instruction::Increment(1)])
    );
    assert_eq!(
        compile("..\n."),
        Ok(vec![Instruction::WriteOutput(2), Instruction::WriteOutput(1)])
    );
}

#[test]
fn brackets_are_never_merged() {
    assert_eq!(
        compile("[[]]"),
        Ok(vec![
            Instruction::JumpIfZero(4),
            Instruction::JumpIfZero(3),
            Instruction::JumpIfNonZero(2),
            Instruction::JumpIfNonZero(1),
        ])
    );
}

#[test]
fn simple_loop_is_paired() {
    let code = compile("[->+<]").unwrap();
    assert_eq!(
        code,
        vec![
            Instruction::JumpIfZero(6),
            Instruction::Decrement(1),
            Instruction::MoveRight(1),
            Instruction::Increment(1),
            Instruction::MoveLeft(1),
            Instruction::JumpIfNonZero(1),
        ]
    );
    let open = 0;
    let close = code.len() - 1;
    assert_eq!(code[open], Instruction::JumpIfZero(close + 1));
    assert_eq!(code[close], Instruction::JumpIfNonZero(open + 1));
}

#[test]
fn loops_side_by_side_and_nested() {
    assert_eq!(
        compile("+[>[-]<-]>[.]"),
        Ok(vec![
            Instruction::Increment(1),
            Instruction::JumpIfZero(9),
            Instruction::MoveRight(1),
            Instruction::JumpIfZero(6),
            Instruction::Decrement(1),
            Instruction::JumpIfNonZero(4),
            Instruction::MoveLeft(1),
            Instruction::Decrement(1),
            Instruction::JumpIfNonZero(2),
            Instruction::MoveRight(1),
            Instruction::JumpIfZero(13),
            Instruction::WriteOutput(1),
            Instruction::JumpIfNonZero(11),
        ])
    );
}

#[test]
fn lone_open_bracket_is_unmatched_open() {
    assert_eq!(compile("["), Err(CompileError::UnmatchedOpen));
}

#[test]
fn lone_close_bracket_is_bracket_mismatch() {
    assert_eq!(compile("]"), Err(CompileError::BracketMismatch));
}

#[test]
fn first_bracket_error_wins() {
    assert_eq!(compile("]["), Err(CompileError::BracketMismatch));
    assert_eq!(compile("[]]"), Err(CompileError::BracketMismatch));
    assert_eq!(compile("[]]["), Err(CompileError::BracketMismatch));
    assert_eq!(compile("[[]"), Err(CompileError::UnmatchedOpen));
    assert_eq!(compile("+[+[+]+"), Err(CompileError::UnmatchedOpen));
}

#[test]
fn commentary_compiles_to_nothing() {
    assert_eq!(compile(""), Ok(vec![]));
    assert_eq!(compile("  a comment, with a newline\n\tand a tab "), Ok(vec![]));
    assert_eq!(compile("h\u{e9}llo w\u{f6}rld \u{1f600}"), Ok(vec![]));
}

#[test]
fn comma_is_not_an_operator() {
    assert_eq!(compile(","), Ok(vec![]));
    assert_eq!(
        compile("+,+"),
        Ok(vec![Instruction::Increment(1), Instruction::Increment(1)])
    );
}

#[test]
fn wide_characters_between_operators() {
    assert_eq!(
        compile("+\u{e9}+\u{1f600}[-]"),
        Ok(vec![
            Instruction::Increment(1),
            Instruction::Increment(1),
            Instruction::JumpIfZero(5),
            Instruction::Decrement(1),
            Instruction::JumpIfNonZero(3),
        ])
    );
}

#[test]
fn compact_counts_the_consumed_character_too() {
    let mut chars = Scanner::new("+++-");
    assert_eq!(chars.next(), Some('+'));
    assert_eq!(compact('+', &mut chars), 3);
    assert_eq!(chars.peek(), Some('-'));
}

#[test]
fn compact_stops_at_the_end() {
    let mut chars = Scanner::new("..");
    assert_eq!(chars.next(), Some('.'));
    assert_eq!(compact('.', &mut chars), 2);
    assert_eq!(chars.peek(), None);
    assert_eq!(chars.next(), None);
}

#[test]
fn compact_of_a_single_character_is_one() {
    let mut chars = Scanner::new("<>");
    assert_eq!(chars.next(), Some('<'));
    assert_eq!(compact('<', &mut chars), 1);
    assert_eq!(chars.next(), Some('>'));
    assert_eq!(compact('>', &mut chars), 1);
    assert_eq!(chars.next(), None);
}

#[test]
fn scanner_peek_leaves_the_character() {
    let mut chars = Scanner::new("ab");
    assert_eq!(chars.peek(), Some('a'));
    assert_eq!(chars.peek(), Some('a'));
    assert_eq!(chars.next(), Some('a'));
    assert_eq!(chars.peek(), Some('b'));
    assert_eq!(chars.next(), Some('b'));
    assert_eq!(chars.peek(), None);
    assert_eq!(chars.next(), None);
    assert_eq!(chars.next(), None);
}

#[test]
fn scanner_of_empty_text() {
    let mut chars = Scanner::new("");
    assert_eq!(chars.peek(), None);
    assert_eq!(chars.next(), None);
}

#[test]
fn compile_error_messages() {
    assert_eq!(CompileError::BracketMismatch.message(), "Loop mismatch");
    assert_eq!(CompileError::UnmatchedOpen.message(), "Loop never closed");
}

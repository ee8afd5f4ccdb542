use stacklang::engine::{run, Machine, RunError, Status};
use stacklang::lexer::{is_whitespace, keyword_of, parse_int_word, tokenize};
use stacklang::resolver::{crossref_blocks, ResolveError};
use stacklang::token::{StackValue, TokenType};

fn compile(src: &str) -> Vec<TokenType> {
    crossref_blocks(tokenize(src.to_string())).unwrap()
}

fn printed(src: &str) -> Vec<String> {
    let out = run(&compile(src), 10_000);
    assert_eq!(out.status, Status::Halted);
    out.output.iter().map(|v| v.render()).collect()
}

fn chars(s: &str) -> Vec<char> {
    s.chars().collect()
}

#[test]
fn tokenize_push_push_add() {
    assert_eq!(
        tokenize("1 2 +".to_string()),
        vec![TokenType::PushInt(1), TokenType::PushInt(2), TokenType::Add]
    );
}

#[test]
fn tokenize_last_word_without_trailing_whitespace() {
    assert_eq!(tokenize("print".to_string()), vec![TokenType::Print]);
    assert_eq!(tokenize("  7\n".to_string()), vec![TokenType::PushInt(7)]);
}

#[test]
fn tokenize_empty_and_blank() {
    assert_eq!(tokenize(String::new()), vec![]);
    assert_eq!(tokenize(" \t\n ".to_string()), vec![]);
}

#[test]
fn tokenize_unicode_whitespace_and_text() {
    assert_eq!(
        tokenize("1\u{3000}é\u{a0}dup".to_string()),
        vec![
            TokenType::PushInt(1),
            TokenType::UserDefinedWord("é".to_string()),
            TokenType::Dup
        ]
    );
}

#[test]
fn tokenize_every_keyword() {
    assert_eq!(
        tokenize("+ - * / % = > < if while do wend end dup print".to_string()),
        vec![
            TokenType::Add,
            TokenType::Sub,
            TokenType::Mul,
            TokenType::Div,
            TokenType::Mod,
            TokenType::Eq,
            TokenType::Lt,
            TokenType::Mt,
            TokenType::If(0),
            TokenType::While,
            TokenType::Do(0),
            TokenType::WEnd(0),
            TokenType::End,
            TokenType::Dup,
            TokenType::Print
        ]
    );
}

#[test]
fn tokenize_unknown_word() {
    assert_eq!(
        tokenize("square".to_string()),
        vec![TokenType::UserDefinedWord("square".to_string())]
    );
}

#[test]
fn integer_words() {
    assert_eq!(parse_int_word(&chars("2147483647")), Some(2147483647));
    assert_eq!(parse_int_word(&chars("-2147483648")), Some(-2147483648));
    assert_eq!(parse_int_word(&chars("2147483648")), None);
    assert_eq!(parse_int_word(&chars("+5")), Some(5));
    assert_eq!(parse_int_word(&chars("007")), Some(7));
    assert_eq!(parse_int_word(&chars("-")), None);
    assert_eq!(parse_int_word(&chars("12a")), None);
    assert_eq!(
        tokenize("-3 - 99999999999".to_string()),
        vec![
            TokenType::PushInt(-3),
            TokenType::Sub,
            TokenType::UserDefinedWord("99999999999".to_string())
        ]
    );
}

#[test]
fn keyword_table() {
    assert_eq!(keyword_of(&chars("wend")), Some(TokenType::WEnd(0)));
    assert_eq!(keyword_of(&chars("whilst")), None);
    assert!(is_whitespace('\u{2028}'));
    assert!(!is_whitespace('x'));
}

#[test]
fn add_and_print() {
    assert_eq!(printed("1 2 + print"), vec!["3"]);
}

#[test]
fn subtract_second_minus_first() {
    assert_eq!(printed("5 3 - print"), vec!["2"]);
}

#[test]
fn if_taken_and_skipped() {
    assert_eq!(printed("1 if 10 print end"), vec!["10"]);
    assert_eq!(printed("0 if 10 print end"), Vec::<String>::new());
}

#[test]
fn countdown_loop() {
    assert_eq!(printed("3 while dup 0 > do dup print 1 - wend"), vec!["3", "2", "1"]);
}

#[test]
fn loop_that_never_enters() {
    assert_eq!(printed("0 while dup 0 > do dup print 1 - wend print"), vec!["0"]);
}

#[test]
fn arithmetic_results() {
    assert_eq!(printed("6 7 * print"), vec!["42"]);
    assert_eq!(printed("-7 2 / print"), vec!["-3"]);
    assert_eq!(printed("-7 2 % print"), vec!["-1"]);
    assert_eq!(printed("7 -2 % print"), vec!["1"]);
}

#[test]
fn comparisons_as_labelled() {
    assert_eq!(printed("2 1 > print"), vec!["1"]);
    assert_eq!(printed("1 2 > print"), vec!["0"]);
    assert_eq!(printed("1 2 < print"), vec!["1"]);
    assert_eq!(printed("3 3 = print 3 4 = print"), vec!["1", "0"]);
}

#[test]
fn dup_and_unknown_word() {
    assert_eq!(printed("4 dup frob print print"), vec!["4", "4"]);
}

#[test]
fn division_by_zero_fails() {
    let out = run(&compile("1 0 /"), 100);
    assert_eq!(out.status, Status::Failed(RunError::DivisionByZero(2)));
    let out = run(&compile("1 0 %"), 100);
    assert_eq!(out.status, Status::Failed(RunError::DivisionByZero(2)));
}

#[test]
fn overflow_fails() {
    let out = run(&compile("2147483647 1 +"), 100);
    assert_eq!(out.status, Status::Failed(RunError::Overflow(2)));
    let out = run(&compile("-2147483648 -1 /"), 100);
    assert_eq!(out.status, Status::Failed(RunError::Overflow(2)));
}

#[test]
fn underflow_fails_after_earlier_output() {
    let out = run(&compile("5 print +"), 100);
    assert_eq!(out.output, vec![StackValue::Number(5)]);
    assert_eq!(out.status, Status::Failed(RunError::StackUnderflow(2)));
    let out = run(&compile("print"), 100);
    assert_eq!(out.status, Status::Failed(RunError::StackUnderflow(0)));
}

#[test]
fn endless_loop_runs_out_of_steps() {
    let out = run(&compile("while 1 do wend"), 50);
    assert_eq!(out.status, Status::OutOfSteps);
    assert!(out.output.is_empty());
}

#[test]
fn lone_end_is_rejected() {
    assert_eq!(crossref_blocks(tokenize("end".to_string())), Err(ResolveError::UnmatchedEnd));
}

#[test]
fn lone_wend_is_rejected() {
    assert_eq!(crossref_blocks(tokenize("wend".to_string())), Err(ResolveError::UnmatchedWEnd));
}

#[test]
fn nested_blocks_resolve_to_matching_positions() {
    // 0:while 1:1 2:do 3:1 4:if 5:end 6:wend
    assert_eq!(
        compile("while 1 do 1 if end wend"),
        vec![
            TokenType::While,
            TokenType::PushInt(1),
            TokenType::Do(6),
            TokenType::PushInt(1),
            TokenType::If(5),
            TokenType::End,
            TokenType::WEnd(0)
        ]
    );
}

#[test]
fn resolving_twice_gives_the_same_program() {
    let once = compile("3 while dup 0 > do 1 if 5 print end 1 - wend");
    let twice = crossref_blocks(once.clone()).unwrap();
    assert_eq!(once, twice);
}

#[test]
fn step_by_step() {
    let program = compile("2 print");
    let mut m = Machine::new();
    assert_eq!(m.step(&program), Ok(None));
    assert_eq!(m.ip, 1);
    assert_eq!(m.step(&program), Ok(Some(StackValue::Number(2))));
    assert!(m.halted(&program));
    assert!(m.stack.is_empty());
}

#[test]
fn render_values() {
    assert_eq!(StackValue::Number(-42).render(), "-42");
    assert_eq!(StackValue::Number(0).render(), "0");
    assert_eq!(StackValue::Number(-2147483648).render(), "-2147483648");
    assert_eq!(StackValue::Text("hi".to_string()).render(), "hi");
}

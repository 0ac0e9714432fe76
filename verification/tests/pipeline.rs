use esolang::lexical_analysis;
use esolang::parse;
use esolang::render;
use esolang::run_interpreter;
use esolang::run_program;
use esolang::syntax_analysis;
use esolang::Command;
use esolang::RunResult;
use esolang::Token;

const FUEL: u64 = 10_000_000;

fn lex(s: &str) -> Vec<Token> {
    lexical_analysis(s)
}

fn run(source: &str, input: &[u8]) -> RunResult {
    run_program(source, input, FUEL)
}

fn output_of(source: &str, input: &[u8]) -> Vec<u8> {
    match run(source, input) {
        RunResult::Output(out) => out,
        other => panic!("expected output, got {:?}", other),
    }
}

#[test]
fn lexing_keeps_instruction_order_and_drops_comments() {
    let tokens = lex("a >b< c+! -.\n,[x]");
    assert_eq!(
        tokens,
        vec![
            Token::Right,
            Token::Left,
            Token::Inc,
            Token::Dec,
            Token::Out,
            Token::In,
            Token::Begin,
            Token::End,
        ]
    );
}

#[test]
fn lexing_is_idempotent_across_rendering() {
    let tokens = lex("comment + [ loop - ] . , < > end");
    let rendered: String = render(&tokens).into_iter().collect();
    let again = lex(&rendered);
    assert_eq!(again, tokens);
}

#[test]
fn rendering_tokens_spells_the_symbols() {
    let tokens = lex("+-<>.,[]");
    let rendered: String = render(&tokens).into_iter().collect();
    assert_eq!(rendered, "+-<>.,[]");
}

#[test]
fn validator_accepts_matched_brackets() {
    assert!(syntax_analysis(&lex("[]")));
    assert!(syntax_analysis(&lex("[[]]")));
    assert!(syntax_analysis(&lex("")));
}

#[test]
fn validator_rejects_unmatched_brackets() {
    assert!(!syntax_analysis(&lex("]")));
    assert!(!syntax_analysis(&lex("[")));
    assert!(!syntax_analysis(&lex("[[]")));
}

#[test]
fn parser_builds_primitives_in_order() {
    let tokens = lex("+-<>.,");
    let commands = parse(&tokens, 0, tokens.len());
    assert_eq!(
        commands,
        vec![
            Command::Inc,
            Command::Dec,
            Command::Left,
            Command::Right,
            Command::Out,
            Command::In,
        ]
    );
}

#[test]
fn parser_top_level_count_matches_non_nested_tokens() {
    let tokens = lex("+[->+<]+");
    let commands = parse(&tokens, 0, tokens.len());
    // three non-nested groups: `+`, the bracket pair, `+`
    assert_eq!(commands.len(), 3);
    match &commands[1] {
        Command::Loop { commands: body } => {
            // four instructions strictly between the matching brackets
            assert_eq!(body.len(), 4);
        }
        other => panic!("expected a loop, got {:?}", other),
    }
}

#[test]
fn parser_accepts_empty_loop_body() {
    let tokens = lex("[]");
    let commands = parse(&tokens, 0, tokens.len());
    assert_eq!(commands, vec![Command::Loop { commands: vec![] }]);
}

#[test]
fn parser_nests_loops_recursively() {
    let tokens = lex("[[-]]");
    let commands = parse(&tokens, 0, tokens.len());
    assert_eq!(
        commands,
        vec![Command::Loop {
            commands: vec![Command::Loop { commands: vec![Command::Dec] }],
        }]
    );
}

#[test]
fn interpreter_is_deterministic_across_runs() {
    let source = "++[->+++<]>.";
    let first = output_of(source, &[]);
    let second = output_of(source, &[]);
    assert_eq!(first, second);
    assert_eq!(first, vec![6]);
}

#[test]
fn incrementing_a_cell_256_times_wraps_to_zero() {
    let mut source = String::new();
    for _ in 0..256 {
        source.push('+');
    }
    source.push('.');
    assert_eq!(output_of(&source, &[]), vec![0]);
}

#[test]
fn decrementing_a_zero_cell_wraps_to_255() {
    assert_eq!(output_of("-.", &[]), vec![255]);
}

#[test]
fn pointer_wraps_at_both_tape_ends() {
    // moving left from cell 0 lands on cell 255; moving right from there
    // lands back on cell 0
    assert_eq!(output_of("<+>.<.", &[]), vec![0, 1]);
}

#[test]
fn three_increments_output_byte_three() {
    assert_eq!(output_of("+++.", &[]), vec![3]);
}

#[test]
fn echo_copies_one_input_byte_to_output() {
    assert_eq!(output_of(",.", &[65]), vec![65]);
}

#[test]
fn zeroing_loop_clears_a_nonzero_cell() {
    assert_eq!(output_of("+++[-].", &[]), vec![0]);
}

#[test]
fn zeroing_loop_is_a_no_op_on_a_zero_cell() {
    assert_eq!(output_of("[-].", &[]), vec![0]);
}

#[test]
fn unbalanced_program_is_rejected_before_any_output() {
    assert_eq!(run("[+", &[]), RunResult::SyntaxError);
    assert_eq!(run("].", &[]), RunResult::SyntaxError);
}

#[test]
fn exhausted_input_leaves_the_cell_unchanged() {
    assert_eq!(output_of("+++++,.", &[]), vec![5]);
}

#[test]
fn input_bytes_are_consumed_in_order() {
    assert_eq!(output_of(",.,.,.", &[1, 2, 3]), vec![1, 2, 3]);
}

#[test]
fn empty_program_outputs_nothing() {
    assert_eq!(output_of("", &[]), Vec::<u8>::new());
}

#[test]
fn non_terminating_program_reports_an_exhausted_budget() {
    assert_eq!(run_program("+[]", &[], 1000), RunResult::OutOfFuel);
}

#[test]
fn run_interpreter_executes_a_prebuilt_tree() {
    let tokens = lex("++.");
    let commands = parse(&tokens, 0, tokens.len());
    let output = run_interpreter(&commands, &[], FUEL);
    assert_eq!(output, Some(vec![2]));
}

use tapelang::Node;
use tapelang::ParseError;
use tapelang::Parser;
use tapelang::RunError;
use tapelang::Token;
use tapelang::interpret;
use tapelang::lex;
use tapelang::parse;

#[test]
fn test() {
    assert_eq!(
        lex("<>+-[].,".to_string()),
        vec![
            Token::Left,
            Token::Right,
            Token::Plus,
            Token::Minus,
            Token::LeftBracket,
            Token::RightBracket,
            Token::Dot,
            Token::Comma,
        ]
    );
}

#[test]
fn lex_skips_comment_characters() {
    assert_eq!(lex("a<b>c".to_string()), vec![Token::Left, Token::Right]);
}

#[test]
fn lex_empty_and_all_comments() {
    assert_eq!(lex(String::new()), vec![]);
    assert_eq!(lex("hello world 123".to_string()), vec![]);
}

#[test]
fn parse_fuses_adjacent_runs() {
    let nodes = parse(lex("++>>--<".to_string())).unwrap();
    assert_eq!(
        nodes,
        vec![Node::Add(2), Node::Shift(2), Node::Add(-2), Node::Shift(-1)]
    );
}

#[test]
fn parse_long_move_run_is_one_shift() {
    let nodes = parse(lex(">".repeat(100))).unwrap();
    assert_eq!(nodes, vec![Node::Shift(100)]);
}

#[test]
fn parse_empty_loop() {
    let nodes = parse(lex("[]".to_string())).unwrap();
    assert_eq!(nodes, vec![Node::Loop(vec![])]);
}

#[test]
fn parse_nested_loops() {
    let nodes = parse(lex("[[-]]".to_string())).unwrap();
    assert_eq!(
        nodes,
        vec![Node::Loop(vec![Node::Loop(vec![Node::Add(-1)])])]
    );
}

#[test]
fn parse_unmatched_open_bracket() {
    assert_eq!(
        parse(lex("[".to_string())),
        Err(ParseError::UnmatchedBracket)
    );
}

#[test]
fn parse_unmatched_close_bracket() {
    assert_eq!(
        parse(lex("]".to_string())),
        Err(ParseError::UnmatchedBracket)
    );
}

#[test]
fn parse_unmatched_nested_bracket() {
    assert_eq!(
        parse(lex("+[[-]".to_string())),
        Err(ParseError::UnmatchedBracket)
    );
}

#[test]
fn parser_cursor_basics() {
    let mut p = Parser::new(lex("+-".to_string()));
    assert!(p.is_valid());
    assert_eq!(p.current_token(), Token::Plus);
    p.advance();
    assert_eq!(p.current_token(), Token::Minus);
    p.advance();
    assert!(!p.is_valid());
}

#[test]
fn parser_shift_sequence_sums_signed() {
    let mut p = Parser::new(lex("><<+".to_string()));
    assert_eq!(p.parse_shift_sequence(), Node::Shift(-1));
    assert_eq!(p.parse_add_sequence(), Node::Add(1));
}

#[test]
fn subparse_reports_depth_errors() {
    let mut p = Parser::new(lex("]".to_string()));
    assert_eq!(p.subparse(), Err(ParseError::UnmatchedBracket));
}

#[test]
fn run_empty_program() {
    let nodes = parse(lex(String::new())).unwrap();
    assert_eq!(interpret(nodes, 0), Ok(vec![]));
}

#[test]
fn run_prints_cell_values_not_characters() {
    let nodes = parse(lex("++.".to_string())).unwrap();
    assert_eq!(interpret(nodes, 0), Ok(vec![2]));
}

#[test]
fn run_wraparound_below_zero() {
    let nodes = parse(lex("-.".to_string())).unwrap();
    assert_eq!(interpret(nodes, 0), Ok(vec![255]));
}

#[test]
fn run_wraparound_above_max() {
    // The two changes sit apart so the parser cannot fuse them away:
    // 0 - 1 wraps to 255, then 255 + 1 wraps back to 0.
    let nodes = parse(lex("-><+.".to_string())).unwrap();
    assert_eq!(interpret(nodes, 0), Ok(vec![0]));
}

#[test]
fn run_large_add_wraps_modulo_256() {
    let nodes = parse(lex(format!("{}.", "+".repeat(300)))).unwrap();
    assert_eq!(nodes.len(), 2);
    assert_eq!(interpret(nodes, 0), Ok(vec![44]));
}

#[test]
fn run_loop_exactly_k_passes() {
    // Three passes of a body that prints, then decrements to zero.
    let nodes = parse(lex("+++[.-]".to_string())).unwrap();
    assert_eq!(interpret(nodes, 10), Ok(vec![3, 2, 1]));
}

#[test]
fn run_loop_skipped_on_zero_cell() {
    let nodes = parse(lex("[.]".to_string())).unwrap();
    assert_eq!(interpret(nodes, 10), Ok(vec![]));
}

#[test]
fn run_multiply_program() {
    let nodes = parse(lex("++++[->++++<]>.".to_string())).unwrap();
    assert_eq!(interpret(nodes, 1000), Ok(vec![16]));
}

#[test]
fn run_nested_loop_program() {
    let nodes = parse(lex("++[>++[>+<-]<-]>>.".to_string())).unwrap();
    assert_eq!(interpret(nodes, 1000), Ok(vec![4]));
}

#[test]
fn run_fresh_cells_start_at_zero() {
    let nodes = parse(lex(">>>.".to_string())).unwrap();
    assert_eq!(interpret(nodes, 0), Ok(vec![0]));
}

#[test]
fn run_pointer_underflow() {
    let nodes = parse(lex("<".to_string())).unwrap();
    assert_eq!(interpret(nodes, 0), Err(RunError::PointerUnderflow));
}

#[test]
fn run_underflow_after_work() {
    let nodes = parse(lex("+.><<".to_string())).unwrap();
    assert_eq!(interpret(nodes, 0), Err(RunError::PointerUnderflow));
}

#[test]
fn run_out_of_fuel_on_infinite_loop() {
    let nodes = parse(lex("+[]".to_string())).unwrap();
    assert_eq!(interpret(nodes, 5), Err(RunError::OutOfFuel));
}

#[test]
fn run_input_is_inert() {
    let nodes = parse(lex(",.".to_string())).unwrap();
    assert_eq!(nodes, vec![Node::Input, Node::Print]);
    assert_eq!(interpret(nodes, 0), Ok(vec![0]));
}

#[test]
fn run_handcrafted_shift_node_grows_tape() {
    // A Shift of 5 built directly: the tape grows cell by cell under it.
    let nodes = vec![Node::Shift(5), Node::Print];
    assert_eq!(interpret(nodes, 0), Ok(vec![0]));
}

#[test]
fn run_same_output_under_more_fuel() {
    let program = "++++[->++++<]>.";
    let a = interpret(parse(lex(program.to_string())).unwrap(), 100);
    let b = interpret(parse(lex(program.to_string())).unwrap(), 1_000_000);
    assert_eq!(a, Ok(vec![16]));
    assert_eq!(a, b);
}

use rust_insight::calc::line::{
    named_memory_operand_of, parse_binary_line, parse_named_memory_line, parse_single_memory_line,
    single_memory_operand_of, Command, Operand, Operator,
};
use rust_insight::calc::parser::{parse_additive_expression, parse_expression, parse_primary_expression, Expr};
use rust_insight::calc::text::{is_whitespace, split_whitespace};
use rust_insight::calc::token::Token;

fn num(s: &str) -> Expr {
    Expr::Number(s.to_string())
}

fn bx(e: Expr) -> Box<Expr> {
    Box::new(e)
}

#[test]
fn split_keeps_empty_pieces() {
    assert_eq!(split_whitespace("1 + 2"), vec!["1", "+", "2"]);
    assert_eq!(split_whitespace("a  b"), vec!["a", "", "b"]);
    assert_eq!(split_whitespace(""), vec![""]);
    assert_eq!(split_whitespace(" x\t"), vec!["", "x", ""]);
}

#[test]
fn whitespace_matches_std() {
    for c in ['\t', '\n', ' ', '\u{85}', '\u{a0}', '\u{2003}', '\u{3000}', 'a', '0', '+', '\u{200b}'] {
        assert_eq!(is_whitespace(c), c.is_whitespace(), "{:?}", c);
    }
}

#[test]
fn token_parse_reads_every_kind() {
    assert_eq!(Token::parse("+"), Token::Plus);
    assert_eq!(Token::parse("-"), Token::Minus);
    assert_eq!(Token::parse("*"), Token::Asterisk);
    assert_eq!(Token::parse("/"), Token::Slash);
    assert_eq!(Token::parse("("), Token::LParen);
    assert_eq!(Token::parse(")"), Token::RParen);
    assert_eq!(Token::parse("memA"), Token::MemoryRef("A".to_string()));
    assert_eq!(Token::parse("memA+"), Token::MemoryPlus("A".to_string()));
    assert_eq!(Token::parse("memB-"), Token::MemoryMinus("B".to_string()));
    assert_eq!(Token::parse("mem"), Token::MemoryRef("".to_string()));
    assert_eq!(Token::parse("1.5"), Token::Number("1.5".to_string()));
    assert_eq!(Token::parse("-3"), Token::Number("-3".to_string()));
}

#[test]
fn token_split_reads_a_line() {
    assert_eq!(
        Token::split("( 1 + memX ) * 2"),
        vec![
            Token::LParen,
            Token::Number("1".to_string()),
            Token::Plus,
            Token::MemoryRef("X".to_string()),
            Token::RParen,
            Token::Asterisk,
            Token::Number("2".to_string()),
        ]
    );
}

#[test]
fn multiplication_binds_tighter() {
    let tokens = Token::split("1 + 2 * 3");
    assert_eq!(
        parse_expression(&tokens),
        Some(Expr::Add(bx(num("1")), bx(Expr::Mul(bx(num("2")), bx(num("3"))))))
    );
}

#[test]
fn operators_group_from_the_left() {
    let tokens = Token::split("8 - 2 - 1");
    assert_eq!(
        parse_expression(&tokens),
        Some(Expr::Sub(bx(Expr::Sub(bx(num("8")), bx(num("2")))), bx(num("1"))))
    );
    let tokens = Token::split("8 / 2 * 4");
    assert_eq!(
        parse_expression(&tokens),
        Some(Expr::Mul(bx(Expr::Div(bx(num("8")), bx(num("2")))), bx(num("4"))))
    );
}

#[test]
fn parentheses_nest() {
    let tokens = Token::split("( 1 + 2 ) * memA");
    assert_eq!(
        parse_expression(&tokens),
        Some(Expr::Mul(bx(Expr::Add(bx(num("1")), bx(num("2")))), bx(Expr::Memory("A".to_string()))))
    );
}

#[test]
fn malformed_lines_give_none() {
    assert_eq!(parse_expression(&Token::split("1 +")), None);
    assert_eq!(parse_expression(&Token::split("( 1 + 2")), None);
    assert_eq!(parse_expression(&Token::split("1 2")), None);
    assert_eq!(parse_expression(&Token::split(") 1")), None);
    assert_eq!(parse_expression(&[]), None);
}

#[test]
fn partial_parsers_report_position() {
    let tokens = Token::split("1 * 2 + 3 )");
    assert_eq!(
        parse_additive_expression(&tokens, 0),
        Some((Expr::Add(bx(Expr::Mul(bx(num("1")), bx(num("2")))), bx(num("3"))), 5))
    );
    assert_eq!(parse_primary_expression(&tokens, 4), Some((num("3"), 5)));
    assert_eq!(parse_primary_expression(&tokens, 5), None);
    assert_eq!(parse_primary_expression(&tokens, 9), None);
}

#[test]
fn operator_parse() {
    assert_eq!(Operator::parse("+"), Some(Operator::Add));
    assert_eq!(Operator::parse("-"), Some(Operator::Sub));
    assert_eq!(Operator::parse("*"), Some(Operator::Mul));
    assert_eq!(Operator::parse("/"), Some(Operator::Div));
    assert_eq!(Operator::parse("%"), None);
    assert_eq!(Operator::parse("++"), None);
}

#[test]
fn binary_line() {
    assert_eq!(parse_binary_line("3 * 4"), Some(("3".to_string(), Operator::Mul, "4".to_string())));
    assert_eq!(parse_binary_line("3 * 4 junk"), Some(("3".to_string(), Operator::Mul, "4".to_string())));
    assert_eq!(parse_binary_line("3 ^ 4"), None);
    assert_eq!(parse_binary_line("3 +"), None);
}

#[test]
fn single_memory_line() {
    assert_eq!(parse_single_memory_line("mem+"), Some(Command::MemoryPlus(String::new())));
    assert_eq!(parse_single_memory_line("mem-"), Some(Command::MemoryMinus(String::new())));
    assert_eq!(
        parse_single_memory_line("mem / 2"),
        Some(Command::Calculate(Operand::Memory(String::new()), Operator::Div, Operand::Number("2".to_string())))
    );
    assert_eq!(parse_single_memory_line("memA+"), None);
    assert_eq!(single_memory_operand_of("memA"), Operand::Number("memA".to_string()));
}

#[test]
fn named_memory_line() {
    assert_eq!(parse_named_memory_line("memA+"), Some(Command::MemoryPlus("A".to_string())));
    assert_eq!(parse_named_memory_line("memBC-"), Some(Command::MemoryMinus("BC".to_string())));
    assert_eq!(
        parse_named_memory_line("memA - 1.5"),
        Some(Command::Calculate(Operand::Memory("A".to_string()), Operator::Sub, Operand::Number("1.5".to_string())))
    );
    assert_eq!(parse_named_memory_line("memA"), None);
    assert_eq!(named_memory_operand_of("mem"), Operand::Memory(String::new()));
    assert_eq!(named_memory_operand_of("7"), Operand::Number("7".to_string()));
}

#[test]
fn fully_parenthesized_line_parses_back() {
    let tokens = Token::split("( ( 1 + memB ) * ( 2 / 3 ) )");
    assert_eq!(
        parse_expression(&tokens),
        Some(Expr::Mul(
            bx(Expr::Add(bx(num("1")), bx(Expr::Memory("B".to_string())))),
            bx(Expr::Div(bx(num("2")), bx(num("3"))))
        ))
    );
}

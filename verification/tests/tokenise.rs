use tokeniser::Lexer;
use tokeniser::Token;
use tokeniser::TokenType;

fn toks_of(input: &str) -> Vec<Token> {
    Lexer::new(input.to_string()).tokenise()
}

fn assert_tok(t: &Token, text: &str, ty: TokenType) {
    assert_eq!(t.content, text);
    assert_eq!(t.token_type, ty);
}

#[test]
fn empty_input_gives_no_tokens() {
    let r = toks_of("");
    assert_eq!(r.len(), 0);
}

#[test]
fn single_digit_is_one_operand() {
    let r = toks_of("1");
    assert_eq!(r.len(), 1);
    assert_tok(&r[0], "1", TokenType::Operand);
}

#[test]
fn leading_minus_pair_collapses() {
    let r = toks_of("-1");
    assert_eq!(r.len(), 1);
    assert_tok(&r[0], "-1", TokenType::Operand);
}

#[test]
fn mixed_expression() {
    let r = toks_of("-5*244-2+234");
    assert_eq!(r.len(), 7);
    assert_tok(&r[0], "-5", TokenType::Operand);
    assert_tok(&r[1], "*", TokenType::Operator);
    assert_tok(&r[2], "244", TokenType::Operand);
    assert_tok(&r[3], "-", TokenType::Operator);
    assert_tok(&r[4], "2", TokenType::Operand);
    assert_tok(&r[5], "+", TokenType::Operator);
    assert_tok(&r[6], "234", TokenType::Operand);
}

#[test]
fn interior_unary_minus_and_trailing_text() {
    let r = toks_of("-11+-1*8xy");
    assert_eq!(r.len(), 6);
    assert_tok(&r[0], "-11", TokenType::Operand);
    assert_tok(&r[1], "+", TokenType::Operator);
    assert_tok(&r[2], "-1", TokenType::Operand);
    assert_tok(&r[3], "*", TokenType::Operator);
    assert_tok(&r[4], "8", TokenType::Operand);
    assert_tok(&r[5], "xy", TokenType::Other);
}

#[test]
fn second_dot_ends_the_number_run() {
    let r = toks_of("1.2.3");
    assert_eq!(r.len(), 3);
    assert_tok(&r[0], "1.2", TokenType::Operand);
    assert_tok(&r[1], ".", TokenType::Other);
    assert_tok(&r[2], "3", TokenType::Operand);
}

#[test]
fn other_characters_group_into_one_run() {
    let r = toks_of("a b");
    assert_eq!(r.len(), 1);
    assert_tok(&r[0], "a b", TokenType::Other);
}

#[test]
fn division_splits_operands() {
    let r = toks_of("1/2");
    assert_eq!(r.len(), 3);
    assert_tok(&r[0], "1", TokenType::Operand);
    assert_tok(&r[1], "/", TokenType::Operator);
    assert_tok(&r[2], "2", TokenType::Operand);
}

#[test]
fn even_interior_minus_run_cancels() {
    let r = toks_of("1+--2");
    assert_eq!(r.len(), 3);
    assert_tok(&r[0], "1", TokenType::Operand);
    assert_tok(&r[1], "+", TokenType::Operator);
    assert_tok(&r[2], "2", TokenType::Operand);
}

#[test]
fn odd_interior_minus_run_negates() {
    let r = toks_of("1+---2");
    assert_eq!(r.len(), 3);
    assert_tok(&r[0], "1", TokenType::Operand);
    assert_tok(&r[1], "+", TokenType::Operator);
    assert_tok(&r[2], "-2", TokenType::Operand);
}

#[test]
fn leading_double_minus_cancels() {
    let r = toks_of("--5*3");
    assert_eq!(r.len(), 3);
    assert_tok(&r[0], "5", TokenType::Operand);
    assert_tok(&r[1], "*", TokenType::Operator);
    assert_tok(&r[2], "3", TokenType::Operand);
}

fn tok(text: &str, ty: TokenType) -> Token {
    Token { content: text.to_string(), token_type: ty }
}

#[test]
fn normalizing_twice_changes_nothing() {
    let lexer = Lexer::new("-11+-1*8xy".to_string());
    let once = lexer.tokenise();
    let copies: Vec<Token> = once.iter().map(|t| t.duplicate()).collect();
    let twice = lexer.clean_negatives(copies);
    assert_eq!(once.len(), twice.len());
    for (a, b) in once.iter().zip(twice.iter()) {
        assert_eq!(a.content, b.content);
        assert_eq!(a.token_type, b.token_type);
    }
}

#[test]
fn pair_branch_prepends_the_sign() {
    let lexer = Lexer::new(String::new());
    let data = vec![tok("-", TokenType::Operator), tok("5", TokenType::Operand)];
    let r = lexer.clean_negatives(data);
    assert_eq!(r.len(), 1);
    assert_tok(&r[0], "-5", TokenType::Operand);
}

#[test]
fn synthetic_even_run_between_operator_and_operand() {
    let lexer = Lexer::new(String::new());
    let data = vec![
        tok("*", TokenType::Operator),
        tok("-", TokenType::Operator),
        tok("-", TokenType::Operator),
        tok("4", TokenType::Operand),
    ];
    let r = lexer.clean_negatives(data);
    assert_eq!(r.len(), 2);
    assert_tok(&r[0], "*", TokenType::Operator);
    assert_tok(&r[1], "4", TokenType::Operand);
}

#[test]
fn synthetic_odd_run_between_operator_and_operand() {
    let lexer = Lexer::new(String::new());
    let data = vec![
        tok("*", TokenType::Operator),
        tok("-", TokenType::Operator),
        tok("-", TokenType::Operator),
        tok("-", TokenType::Operator),
        tok("4", TokenType::Operand),
    ];
    let r = lexer.clean_negatives(data);
    assert_eq!(r.len(), 2);
    assert_tok(&r[0], "*", TokenType::Operator);
    assert_tok(&r[1], "-4", TokenType::Operand);
}

#[test]
fn grouping_concatenation_restores_the_input() {
    let input = "12a.b +4/9.5xy";
    let lexer = Lexer::new(input.to_string());
    let r = lexer.tokenise();
    let joined: String = r.iter().map(|t| t.content.as_str()).collect::<Vec<_>>().join("");
    assert_eq!(joined, input);
}

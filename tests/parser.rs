use rusty_ski::ast;
use rusty_ski::lexer::Token;
use rusty_ski::parser::{identify_blocks, parse_and_eval, parse_tokens};

#[test]
fn parse_and_eval_succeeds_with_xor() {
    assert_eq!(
        parse_and_eval(&String::from("(K(K(KI)K)(KI))K((K(KI)K)K(KI))")),
        Ok(ast::SKI::Application(Box::new(ast::App {
            combinator: ast::SKI::K,
            arg: ast::SKI::I
        })))
    );
}

#[test]
fn parse_and_eval_succeeds_with_parens_middle() {
    assert_eq!(parse_and_eval(&String::from("K(IS)K")), Ok(ast::SKI::S));
}

#[test]
fn parse_and_eval_succeeds_with_k() {
    assert_eq!(parse_and_eval(&String::from("K")), Ok(ast::SKI::K));
}

#[test]
fn parse_tokens_succeeds_with_kis() {
    assert_eq!(
        parse_tokens(&mut vec![Token::KToken, Token::IToken, Token::SToken]),
        Ok(ast::SKI::Application(Box::new(ast::App {
            combinator: ast::SKI::Application(Box::new(ast::App {
                combinator: ast::SKI::K,
                arg: ast::SKI::I
            })),
            arg: ast::SKI::S
        })))
    );
}

#[test]
fn parse_and_eval_succeeds_with_kis() {
    assert_eq!(parse_and_eval(&String::from("KIS")), Ok(ast::SKI::I));
}

#[test]
fn parse_and_eval_succeeds_with_primitives_in_parens() {
    assert_eq!(parse_and_eval(&String::from("K(I)(S)")), Ok(ast::SKI::I));
}

#[test]
fn parse_and_eval_fails_with_non_primitive() {
    assert_eq!(
        parse_and_eval(&String::from("KIT")),
        Err(ast::SKIErr::ParseError(String::from("not a SKI primitive")))
    );
    assert_eq!(
        parse_and_eval(&String::from("T")),
        Err(ast::SKIErr::ParseError(String::from("not a SKI primitive")))
    );
    assert_eq!(
        parse_and_eval(&String::from("AKI")),
        Err(ast::SKIErr::ParseError(String::from("not a SKI primitive")))
    );
}

#[test]
fn parse_and_eval_fails_with_unclosed_parens() {
    assert_eq!(
        parse_and_eval(&String::from("K(I")),
        Err(ast::SKIErr::SyntaxError(String::from("unclosed parentheses")))
    );
    assert_eq!(
        parse_and_eval(&String::from("K(IS(KI)")),
        Err(ast::SKIErr::SyntaxError(String::from("unclosed parentheses")))
    );
}

#[test]
fn parse_and_eval_fails_with_unmatched_parens() {
    assert_eq!(
        parse_and_eval(&String::from("K(I))")),
        Err(ast::SKIErr::SyntaxError(String::from("unmatched closing parentheses")))
    );
    assert_eq!(
        parse_and_eval(&String::from("K(I)K)")),
        Err(ast::SKIErr::SyntaxError(String::from("unmatched closing parentheses")))
    );
    assert_eq!(
        parse_and_eval(&String::from("K(IK)SK)")),
        Err(ast::SKIErr::SyntaxError(String::from("unmatched closing parentheses")))
    );
}

#[test]
fn parse_tokens_fails_on_empty_sequence() {
    assert_eq!(
        parse_tokens(&mut vec![]),
        Err(ast::SKIErr::ParseError(String::from("empty input")))
    );
}

#[test]
fn parse_and_eval_fails_on_empty_text_and_empty_group() {
    assert_eq!(
        parse_and_eval(""),
        Err(ast::SKIErr::ParseError(String::from("empty input")))
    );
    assert_eq!(
        parse_and_eval("K()"),
        Err(ast::SKIErr::ParseError(String::from("empty input")))
    );
}

#[test]
fn parse_tokens_leaves_tokens_unchanged() {
    let mut toks = vec![Token::SToken, Token::Parens(vec![Token::KToken, Token::IToken])];
    let parsed = parse_tokens(&mut toks);
    assert_eq!(
        parsed,
        Ok(ast::SKI::app(ast::SKI::S, ast::SKI::app(ast::SKI::K, ast::SKI::I)))
    );
    assert_eq!(toks, vec![Token::SToken, Token::Parens(vec![Token::KToken, Token::IToken])]);
}

#[test]
fn parse_single_group_is_transparent() {
    assert_eq!(
        parse_tokens(&mut vec![Token::Parens(vec![Token::KToken, Token::IToken])]),
        Ok(ast::SKI::app(ast::SKI::K, ast::SKI::I))
    );
}

#[test]
fn identify_blocks_splits_around_pairs() {
    assert_eq!(identify_blocks(&vec![(1, 4)], "S(KI)K"), vec![(0, 1), (2, 4), (5, 6)]);
    assert_eq!(identify_blocks(&vec![], "SK"), vec![(0, 1), (1, 2)]);
    assert_eq!(
        identify_blocks(&vec![(0, 2), (4, 6)], "(K)I(S)"),
        vec![(1, 2), (3, 4), (5, 6)]
    );
    assert_eq!(identify_blocks(&vec![], ""), vec![]);
}

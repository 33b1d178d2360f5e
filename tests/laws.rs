use quickcheck::{Arbitrary, Gen, QuickCheck, TestResult};
use rusty_ski::ast::{App, SKIErr, SKI};
use rusty_ski::eval::{eval, eval_within};
use rusty_ski::lexer::{tokenize_ski, Token};
use rusty_ski::parser::{parse_and_eval, parse_tokens};

fn ap(f: SKI, a: SKI) -> SKI {
    SKI::app(f, a)
}

fn parse(text: &str) -> Result<SKI, SKIErr> {
    let mut toks = tokenize_ski(text)?;
    parse_tokens(&mut toks)
}

#[test]
fn reduction_is_idempotent_on_examples() {
    for text in ["S(K(II))", "KIS", "S(KI)", "SKSI", "K(K(KI)K)(KI)", "S(SK)(I(KS))"] {
        let once = eval(parse(text).unwrap());
        let twice = eval(once.clone());
        assert_eq!(twice, once, "on {}", text);
    }
    assert_eq!(
        eval(parse("S(K(II))").unwrap()),
        ap(SKI::S, ap(SKI::K, SKI::I))
    );
}

#[test]
fn identity_law_on_example() {
    let t = parse("KIS").unwrap();
    assert_eq!(eval(ap(SKI::I, t.clone())), eval(t));
    assert_eq!(eval(ap(SKI::I, parse("KIS").unwrap())), SKI::I);
}

#[test]
fn constancy_law_on_example() {
    let t1 = ap(SKI::I, SKI::I);
    let t2 = SKI::S;
    assert_eq!(eval(ap(ap(SKI::K, t1.clone()), t2)), eval(t1));
    assert_eq!(eval(ap(ap(SKI::K, ap(SKI::S, ap(SKI::I, SKI::K))), SKI::I)), ap(SKI::S, SKI::K));
}

#[test]
fn sk_acts_as_identity_on_example() {
    let t1 = ap(SKI::K, ap(SKI::I, SKI::I));
    let t2 = SKI::S;
    let lhs = ap(ap(ap(SKI::S, SKI::K), t2), t1.clone());
    assert_eq!(eval(lhs), eval(t1));
    assert_eq!(eval(ap(ap(ap(SKI::S, SKI::K), SKI::S), ap(SKI::K, ap(SKI::I, SKI::I)))), ap(SKI::K, SKI::I));
}

#[test]
fn reduct_round_trips_through_text() {
    let r = parse_and_eval("S(K(II))").unwrap();
    let text = r.render();
    assert_eq!(text, "S(KI)");
    assert_eq!(parse(&text), Ok(r.clone()));
    assert_eq!(parse_and_eval(&text), Ok(r));
}

#[test]
fn juxtaposition_associates_left() {
    let letters = ["S", "K", "I"];
    for a in letters {
        for b in letters {
            for c in letters {
                let flat = format!("{}{}{}", a, b, c);
                let grouped = format!("({}{}){}", a, b, c);
                assert_eq!(parse(&flat), parse(&grouped));
                assert!(parse(&flat).is_ok());
            }
        }
    }
    assert_eq!(parse("SKI"), Ok(ap(ap(SKI::S, SKI::K), SKI::I)));
}

#[test]
fn under_saturated_s_keeps_its_reduced_argument() {
    assert_eq!(
        tokenize_ski("S(KI)"),
        Ok(vec![Token::SToken, Token::Parens(vec![Token::KToken, Token::IToken])])
    );
    let parsed = parse("S(KI)").unwrap();
    assert_eq!(parsed, ap(SKI::S, ap(SKI::K, SKI::I)));
    assert_eq!(parse_and_eval("S(KI)"), Ok(ap(SKI::S, ap(SKI::K, SKI::I))));
}

#[test]
fn s_rule_substitutes_textbook_order() {
    // S K I x reduces through K x (I x) to x.
    assert_eq!(eval(ap(ap(ap(SKI::S, SKI::K), SKI::I), SKI::S)), SKI::S);
    // S (K S) K I gives K S I (K I), that is S (K I).
    assert_eq!(
        parse_and_eval("S(KS)KI"),
        Ok(ap(SKI::S, ap(SKI::K, SKI::I)))
    );
}

#[test]
fn head_is_reduced_before_the_outer_rule() {
    // (I K) S I: the head I K becomes K, then K S I gives S.
    assert_eq!(parse_and_eval("(IK)SI"), Ok(SKI::S));
    assert_eq!(parse_and_eval("IIIK"), Ok(SKI::K));
}

#[test]
fn bounded_reduction_reports_exhaustion() {
    let omega = parse("SII(SII)").unwrap();
    assert_eq!(eval_within(omega, 60), None);
    assert_eq!(eval_within(parse("KIS").unwrap(), 10), Some(SKI::I));
    assert_eq!(eval_within(SKI::K, 0), None);
    assert_eq!(eval_within(SKI::K, 1), Some(SKI::K));
}

#[test]
fn rendering_wraps_applied_arguments() {
    assert_eq!(ap(SKI::K, ap(SKI::I, SKI::S)).render(), "K(IS)");
    assert_eq!(ap(ap(SKI::K, SKI::I), SKI::S).render(), "KIS");
    assert_eq!(SKI::I.render(), "I");
    assert_eq!(
        SKIErr::SyntaxError(String::from("unclosed parentheses")).render(),
        "Syntax Error: unclosed parentheses"
    );
    assert_eq!(
        SKIErr::ParseError(String::from("not a SKI primitive")).render(),
        "Parse Error: not a SKI primitive"
    );
}

#[test]
fn terms_compare_structurally() {
    let a = ap(SKI::S, ap(SKI::K, SKI::I));
    assert!(a == a.clone());
    assert!(a != ap(SKI::S, ap(SKI::K, SKI::S)));
    assert!(a != ap(ap(SKI::S, SKI::K), SKI::I));
    assert!(a.is_application());
    assert!(!SKI::K.is_application());
    let node = App { combinator: SKI::K, arg: SKI::I };
    assert_eq!(SKI::Application(Box::new(node.clone())), ap(SKI::K, SKI::I));
    assert!(node == App { combinator: SKI::K, arg: SKI::I });
}

#[derive(Clone, Debug)]
struct Term(SKI);

fn arbitrary_term(g: &mut Gen) -> SKI {
    match u8::arbitrary(g) % 4 {
        0 => SKI::S,
        1 => SKI::K,
        2 => SKI::I,
        _ => {
            let f = arbitrary_term(g);
            let a = arbitrary_term(g);
            SKI::app(f, a)
        }
    }
}

fn shrink_term(t: &SKI) -> Vec<SKI> {
    match t {
        SKI::Application(x) => {
            let mut out = vec![SKI::S, SKI::K, SKI::I];
            for c in shrink_term(&x.combinator) {
                out.push(SKI::app(c, x.arg.clone()));
            }
            for a in shrink_term(&x.arg) {
                out.push(SKI::app(x.combinator.clone(), a));
            }
            out
        }
        _ => Vec::new(),
    }
}

impl Arbitrary for Term {
    fn arbitrary(g: &mut Gen) -> Term {
        Term(arbitrary_term(g))
    }

    fn shrink(&self) -> Box<dyn Iterator<Item = Term>> {
        Box::new(shrink_term(&self.0).into_iter().map(Term))
    }
}

const BUDGET: u64 = 30;

fn checker(seed: u64) -> QuickCheck {
    QuickCheck::new().rng(Gen::from_size_and_seed(100, seed)).tests(200)
}

fn prop_idempotent(t: Term) -> TestResult {
    match eval_within(t.0, BUDGET) {
        Some(r) => TestResult::from_bool(eval_within(r.clone(), BUDGET) == Some(r)),
        None => TestResult::discard(),
    }
}

fn prop_identity(t: Term) -> bool {
    eval_within(ap(SKI::I, t.0.clone()), BUDGET + 1) == eval_within(t.0, BUDGET)
}

fn prop_constancy(t1: Term, t2: Term) -> bool {
    eval_within(ap(ap(SKI::K, t1.0.clone()), t2.0), BUDGET + 1) == eval_within(t1.0, BUDGET)
}

fn prop_sk_identity(t1: Term, t2: Term) -> bool {
    let lhs = ap(ap(ap(SKI::S, SKI::K), t2.0), t1.0.clone());
    eval_within(lhs, BUDGET + 2) == eval_within(t1.0, BUDGET)
}

fn prop_round_trip(t: Term) -> TestResult {
    match eval_within(t.0, BUDGET) {
        Some(r) => TestResult::from_bool(parse_and_eval(&r.render()) == Ok(r)),
        None => TestResult::discard(),
    }
}

#[test]
fn random_terms_reduce_idempotently() {
    checker(1).quickcheck(prop_idempotent as fn(Term) -> TestResult);
}

#[test]
fn random_terms_obey_identity_law() {
    checker(2).quickcheck(prop_identity as fn(Term) -> bool);
}

#[test]
fn random_terms_obey_constancy_law() {
    checker(3).quickcheck(prop_constancy as fn(Term, Term) -> bool);
}

#[test]
fn random_terms_obey_sk_identity_law() {
    checker(4).quickcheck(prop_sk_identity as fn(Term, Term) -> bool);
}

#[test]
fn random_reducts_round_trip_through_text() {
    checker(5).quickcheck(prop_round_trip as fn(Term) -> TestResult);
}

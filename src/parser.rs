use vstd::prelude::*;

use crate::ast::{agrees, ap, empty_input, text_of, ErrorView, SKIErr, SKI};
use crate::eval::{eval, eval_result, lemma_eval_idempotent, lemma_reduce_idempotent, reduces_to};
use crate::lexer::{
    lemma_lex_concat, lemma_lex_group, lemma_lexemes_index, letter_lexeme, lex, lexeme_of,
    lexemes_of, prepend, tokenize_ski, Lexeme, Token,
};

verus! {

/// The term that a sequence of lexemes stands for: juxtaposition associates
/// to the left, so the last lexeme is the argument applied to the term of all
/// the others. A group stands for the term of what it holds.
pub open spec fn parse_lexemes(ls: Seq<Lexeme>) -> Result<SKI, ErrorView>
    decreases ls,
{
    if ls.len() == 0 {
        Err(empty_input())
    } else if ls.len() == 1 {
        parse_lexeme(ls[0])
    } else {
        match parse_lexemes(ls.drop_last()) {
            Ok(f) => match parse_lexeme(ls.last()) {
                Ok(a) => Ok(ap(f, a)),
                Err(e) => Err(e),
            },
            Err(e) => Err(e),
        }
    }
}

/// The term that one lexeme stands for.
pub open spec fn parse_lexeme(l: Lexeme) -> Result<SKI, ErrorView>
    decreases l,
{
    match l {
        Lexeme::S => Ok(SKI::S),
        Lexeme::K => Ok(SKI::K),
        Lexeme::I => Ok(SKI::I),
        Lexeme::Group(inner) => parse_lexemes(inner),
    }
}

/// The term written in `s`, or the first error met in reading it.
pub open spec fn parse_text(s: Seq<char>) -> Result<SKI, ErrorView> {
    match lex(s) {
        Ok(ls) => parse_lexemes(ls),
        Err(e) => Err(e),
    }
}

/// The lexemes of the written form of `t`: those of its function, then its
/// argument, as a group when the argument is an application.
pub open spec fn spine(t: SKI) -> Seq<Lexeme>
    decreases t,
{
    match t {
        SKI::S => seq![Lexeme::S],
        SKI::K => seq![Lexeme::K],
        SKI::I => seq![Lexeme::I],
        SKI::Application(x) => spine(x.combinator).push(
            if x.arg is Application {
                Lexeme::Group(spine(x.arg))
            } else {
                spine(x.arg)[0]
            },
        ),
    }
}

/// The written form of a term reads as its spine.
pub proof fn lemma_lex_text(t: SKI)
    ensures
        lex(text_of(t)) == Ok::<Seq<Lexeme>, ErrorView>(spine(t)),
        spine(t).len() >= 1,
    decreases t,
{
    match t {
        SKI::Application(x) => {
            let f = x.combinator;
            let a = x.arg;
            lemma_lex_text(f);
            lemma_lex_text(a);
            if a is Application {
                lemma_lex_group(text_of(a));
                let g = seq!['('] + text_of(a) + seq![')'];
                assert(text_of(t) =~= text_of(f) + g);
                lemma_lex_concat(text_of(f), g);
                assert(spine(f) + seq![Lexeme::Group(spine(a))] =~= spine(t));
            } else {
                lemma_lex_concat(text_of(f), text_of(a));
                assert(spine(f) + spine(a) =~= spine(t));
            }
        },
        _ => {
            let w = text_of(t);
            assert(w.drop_first() =~= Seq::<char>::empty());
            assert(lex(Seq::<char>::empty()) == Ok::<Seq<Lexeme>, ErrorView>(Seq::empty()));
            assert(seq![letter_lexeme(w[0])] + Seq::<Lexeme>::empty() =~= spine(t));
        },
    }
}

/// The spine of a term parses back to that term.
pub proof fn lemma_parse_spine(t: SKI)
    ensures
        parse_lexemes(spine(t)) == Ok::<SKI, ErrorView>(t),
    decreases t,
{
    if let SKI::Application(x) = t {
        let f = x.combinator;
        let a = x.arg;
        lemma_parse_spine(f);
        lemma_parse_spine(a);
        lemma_lex_text(f);
        assert(spine(t).drop_last() =~= spine(f));
        if !(a is Application) {
            assert(parse_lexeme(spine(a)[0]) == parse_lexemes(spine(a)));
        }
        assert(spine(t).len() >= 2);
        assert(parse_lexeme(spine(t).last()) == Ok::<SKI, ErrorView>(a));
        assert(parse_lexemes(spine(t).drop_last()) == Ok::<SKI, ErrorView>(f));
        assert(parse_lexemes(spine(t)) == Ok::<SKI, ErrorView>(ap(f, a)));
        assert(t == ap(f, a));
    } else {
        assert(parse_lexemes(spine(t)) == parse_lexeme(spine(t)[0]));
    }
}

/// Writing a term and reading it back gives the same term.
pub proof fn lemma_text_round_trip(t: SKI)
    ensures
        parse_text(text_of(t)) == Ok::<SKI, ErrorView>(t),
{
    lemma_lex_text(t);
    lemma_parse_spine(t);
}

/// The written form of a reduct reads back as a term that reduces to that
/// same reduct.
pub proof fn lemma_reduct_round_trip(t: SKI, r: SKI)
    requires
        reduces_to(t, r),
    ensures
        parse_text(text_of(r)) == Ok::<SKI, ErrorView>(r),
        reduces_to(r, r),
        forall|r2: SKI| reduces_to(r, r2) ==> r2 == r,
{
    lemma_text_round_trip(r);
    lemma_reduce_idempotent(t, r);
}

/// What `eval` returns, written out and read back, is that same term, and
/// `eval` leaves it unchanged.
pub proof fn lemma_eval_round_trip(t: SKI)
    ensures
        parse_text(text_of(eval_result(t))) == Ok::<SKI, ErrorView>(eval_result(t)),
        eval_result(eval_result(t)) == eval_result(t),
{
    lemma_text_round_trip(eval_result(t));
    lemma_eval_idempotent(t);
}

/// `c` is one of `S`, `K`, `I`.
pub open spec fn is_combinator_letter(c: char) -> bool {
    c == 'S' || c == 'K' || c == 'I'
}

/// Juxtaposition associates to the left: `ABC` reads as `(AB)C`.
pub proof fn lemma_left_associative(a: char, b: char, c: char)
    requires
        is_combinator_letter(a),
        is_combinator_letter(b),
        is_combinator_letter(c),
    ensures
        parse_text(seq![a, b, c]) == parse_text(seq!['(', a, b, ')', c]),
        parse_text(seq![a, b, c]) is Ok,
{
    let ab = seq![a, b];
    let cs = seq![c];
    let e = Seq::<char>::empty();
    assert(cs.drop_first() =~= e);
    assert(lex(e) == Ok::<Seq<Lexeme>, ErrorView>(Seq::empty()));
    assert(seq![letter_lexeme(c)] + Seq::<Lexeme>::empty() =~= seq![letter_lexeme(c)]);
    assert(lex(cs) == Ok::<Seq<Lexeme>, ErrorView>(seq![letter_lexeme(c)]));
    let bs = seq![b];
    assert(ab.drop_first() =~= bs);
    assert(bs.drop_first() =~= e);
    assert(seq![letter_lexeme(b)] + Seq::<Lexeme>::empty() =~= seq![letter_lexeme(b)]);
    assert(lex(bs) == Ok::<Seq<Lexeme>, ErrorView>(seq![letter_lexeme(b)]));
    assert(seq![letter_lexeme(a)] + seq![letter_lexeme(b)] =~= seq![letter_lexeme(a), letter_lexeme(b)]);
    assert(ab[0] == a);
    assert(lex(ab) == prepend(seq![letter_lexeme(a)], lex(bs)));
    assert(lex(ab) == Ok::<Seq<Lexeme>, ErrorView>(seq![letter_lexeme(a), letter_lexeme(b)]));
    assert(seq![a, b, c] =~= ab + cs);
    lemma_lex_concat(ab, cs);
    let grouped = seq!['(', a, b, ')', c];
    assert(grouped =~= (seq!['('] + ab + seq![')']) + cs);
    lemma_lex_group(ab);
    lemma_lex_concat(seq!['('] + ab + seq![')'], cs);
    let la = letter_lexeme(a);
    let lb = letter_lexeme(b);
    let lc = letter_lexeme(c);
    let flat = seq![la, lb] + seq![lc];
    let nested = seq![Lexeme::Group(seq![la, lb])] + seq![lc];
    assert(flat.drop_last() =~= seq![la, lb]);
    assert(seq![la, lb].drop_last() =~= seq![la]);
    assert(nested.drop_last() =~= seq![Lexeme::Group(seq![la, lb])]);
    assert(parse_lexemes(seq![la]) == parse_lexeme(la));
    assert(parse_lexeme(la) is Ok);
    assert(parse_lexeme(lb) is Ok);
    assert(parse_lexeme(lc) is Ok);
    assert(seq![la, lb].last() == lb);
    assert(parse_lexemes(seq![la, lb]) == Ok::<SKI, ErrorView>(
        ap(parse_lexeme(la)->Ok_0, parse_lexeme(lb)->Ok_0),
    ));
    assert(flat.last() == lc);
    assert(nested.last() == lc);
    assert(flat.len() == 3);
    assert(nested.len() == 2);
    assert(nested.drop_last()[0] == Lexeme::Group(seq![la, lb]));
    let g = seq![Lexeme::Group(seq![la, lb])];
    assert(nested.drop_last() =~= g);
    assert(parse_lexemes(g) == parse_lexeme(g[0]));
    assert(parse_lexemes(nested.drop_last()) == parse_lexemes(seq![la, lb]));
    assert(parse_lexemes(flat) == parse_lexemes(nested));
}

/// Builds the term of a sequence of tokens from left to right.
fn parse_list(toks: &Vec<Token>) -> (r: Result<SKI, SKIErr>)
    ensures
        agrees(r, parse_lexemes(lexemes_of(toks@))),
    decreases toks,
{
    let ghost ls = lexemes_of(toks@);
    proof {
        lemma_lexemes_index(toks@);
    }
    if toks.len() == 0 {
        return Err(SKIErr::empty_input());
    }
    proof {
        vstd::std_specs::vec::axiom_vec_index_decreases(*toks, 0);
        assert(ls.subrange(0, 1).len() == 1);
        assert(ls.subrange(0, 1)[0] == ls[0]);
    }
    let mut acc = match parse_ski_token(&toks[0]) {
        Ok(t) => t,
        Err(e) => {
            proof {
                lemma_first_error(ls);
            }
            return Err(e);
        },
    };
    let mut i: usize = 1;
    while i < toks.len()
        invariant
            1 <= i <= toks.len(),
            ls == lexemes_of(toks@),
            ls.len() == toks.len(),
            forall|j: int| 0 <= j < toks.len() ==> #[trigger] ls[j] == lexeme_of(toks@[j]),
            parse_lexemes(ls.subrange(0, i as int)) == Ok::<SKI, ErrorView>(acc),
        decreases toks.len() - i,
    {
        proof {
            vstd::std_specs::vec::axiom_vec_index_decreases(*toks, i as int);
            let pre = ls.subrange(0, i + 1);
            assert(pre.drop_last() =~= ls.subrange(0, i as int));
            assert(pre.last() == ls[i as int]);
        }
        match parse_ski_token(&toks[i]) {
            Ok(a) => {
                acc = SKI::app(acc, a);
            },
            Err(e) => {
                proof {
                    lemma_later_error(ls, i as nat);
                }
                return Err(e);
            },
        }
        i = i + 1;
    }
    assert(ls.subrange(0, toks.len() as int) =~= ls);
    Ok(acc)
}

/// An error in the first lexeme is the error of the whole sequence.
proof fn lemma_first_error(ls: Seq<Lexeme>)
    requires
        ls.len() >= 1,
        parse_lexeme(ls[0]) is Err,
    ensures
        parse_lexemes(ls) == parse_lexeme(ls[0]),
    decreases ls.len(),
{
    if ls.len() > 1 {
        lemma_first_error(ls.drop_last());
    }
}

/// With the prefix before `i` read, an error at `i` is the error of the whole.
proof fn lemma_later_error(ls: Seq<Lexeme>, i: nat)
    requires
        i < ls.len(),
        parse_lexemes(ls.subrange(0, i as int)) is Ok,
        parse_lexeme(ls[i as int]) is Err,
    ensures
        parse_lexemes(ls) == parse_lexeme(ls[i as int]),
    decreases ls.len(),
{
    if i + 1 == ls.len() {
        assert(ls.drop_last() =~= ls.subrange(0, i as int));
    } else {
        assert(ls.drop_last().subrange(0, i as int) =~= ls.subrange(0, i as int));
        assert(ls.drop_last()[i as int] == ls[i as int]);
        lemma_later_error(ls.drop_last(), i);
    }
}

/// Reads one token: a combinator, or the term of a group.
fn parse_ski_token(tok: &Token) -> (r: Result<SKI, SKIErr>)
    ensures
        agrees(r, parse_lexeme(lexeme_of(*tok))),
    decreases tok,
{
    match tok {
        Token::SToken => Ok(SKI::S),
        Token::IToken => Ok(SKI::I),
        Token::KToken => Ok(SKI::K),
        Token::Parens(x) => {
            proof {
                assert(decreases_to!(*tok => tok->Parens_0));
            }
            parse_list(x)
        },
    }
}

/// Builds the term that `toks` stands for; `toks` is left as it was.
pub fn parse_tokens(toks: &mut Vec<Token>) -> (r: Result<SKI, SKIErr>)
    ensures
        *final(toks) == *old(toks),
        agrees(r, parse_lexemes(lexemes_of(old(toks)@))),
{
    parse_list(toks)
}

/// One block `(j, j + 1)` for each position `j` from `from` up to `to`.
pub open spec fn unit_blocks(from: int, to: int) -> Seq<(usize, usize)> {
    Seq::new(
        if from < to {
            (to - from) as nat
        } else {
            0
        },
        |k: int| ((from + k) as usize, (from + k + 1) as usize),
    )
}

/// The blocks of a text of length `end` from position `start` on: each
/// matched pair `(open, close)` gives the block of what lies strictly between
/// them, and every position before it that no pair covers is a block of its own.
pub open spec fn blocks(pairs: Seq<(usize, usize)>, start: int, end: int) -> Seq<(usize, usize)>
    decreases pairs.len(),
{
    if pairs.len() == 0 {
        unit_blocks(start, end)
    } else {
        let p = pairs[0];
        unit_blocks(start, p.0 as int) + seq![((p.0 + 1) as usize, p.1)] + blocks(
            pairs.drop_first(),
            p.1 + 1,
            end,
        )
    }
}

/// Pushes the unit blocks for the positions `from..to` onto `out`.
fn push_unit_blocks(out: &mut Vec<(usize, usize)>, from: usize, to: usize)
    ensures
        final(out)@ == old(out)@ + unit_blocks(from as int, to as int),
{
    let ghost start = out@;
    let mut j: usize = from;
    while j < to
        invariant
            from <= j <= to || (to <= from && j == from),
            out@ == start + unit_blocks(from as int, j as int),
        decreases to - j,
    {
        out.push((j, j + 1));
        j = j + 1;
        assert(out@ =~= start + unit_blocks(from as int, j as int));
    }
    assert(unit_blocks(from as int, j as int) =~= unit_blocks(from as int, to as int));
}

/// Splits a text of length `skiexp.len()` into blocks: the inside of each
/// matched pair of parentheses in `matched_parens` is one block, and every
/// other position before, between and after them is a block of its own.
pub fn identify_blocks(matched_parens: &Vec<(usize, usize)>, skiexp: &str) -> (r: Vec<(usize, usize)>)
    requires
        forall|i: int|
            0 <= i < matched_parens.len() ==> #[trigger] matched_parens[i].0 < usize::MAX
                && matched_parens[i].1 < usize::MAX,
    ensures
        r@ == blocks(matched_parens@, 0, skiexp.len() as int),
{
    let ghost pairs = matched_parens@;
    let mut out: Vec<(usize, usize)> = Vec::new();
    let mut curr_index: usize = 0;
    let mut i: usize = 0;
    assert(pairs.subrange(0, pairs.len() as int) =~= pairs);
    assert(out@ + blocks(pairs, 0, skiexp.len() as int) =~= blocks(pairs, 0, skiexp.len() as int));
    while i < matched_parens.len()
        invariant
            i <= matched_parens.len(),
            pairs == matched_parens@,
            forall|k: int|
                0 <= k < matched_parens.len() ==> #[trigger] matched_parens[k].0 < usize::MAX
                    && matched_parens[k].1 < usize::MAX,
            blocks(pairs, 0, skiexp.len() as int) == out@ + blocks(
                pairs.subrange(i as int, pairs.len() as int),
                curr_index as int,
                skiexp.len() as int,
            ),
        decreases matched_parens.len() - i,
    {
        let (open, close) = matched_parens[i];
        proof {
            let rest = pairs.subrange(i as int, pairs.len() as int);
            assert(rest[0] == pairs[i as int]);
            assert(rest.drop_first() =~= pairs.subrange(i + 1, pairs.len() as int));
        }
        let ghost before = out@;
        let ghost from = curr_index as int;
        push_unit_blocks(&mut out, curr_index, open);
        out.push((open + 1, close));
        curr_index = close + 1;
        i = i + 1;
        proof {
            let tail = blocks(pairs.subrange(i as int, pairs.len() as int), curr_index as int, skiexp.len() as int);
            assert(before + (unit_blocks(from, open as int) + seq![((open + 1) as usize, close)] + tail)
                =~= out@ + tail);
        }
    }
    push_unit_blocks(&mut out, curr_index, skiexp.len());
    proof {
        assert(pairs.subrange(i as int, pairs.len() as int).len() == 0);
    }
    out
}

/// Reads the term written in `inp` and reduces it.
pub fn parse_and_eval(inp: &str) -> (r: Result<SKI, SKIErr>)
    ensures
        match parse_text(inp@) {
            Ok(u) => r matches Ok(t) && t == eval_result(u),
            Err(v) => r matches Err(e) && e@ == v,
        },
{
    match tokenize_ski(inp) {
        Ok(toks) => {
            let mut toks = toks;
            match parse_tokens(&mut toks) {
                Ok(t) => Ok(eval(t)),
                Err(e) => Err(e),
            }
        },
        Err(e) => Err(e),
    }
}

} // verus!

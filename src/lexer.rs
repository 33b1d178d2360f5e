use vstd::prelude::*;
use vstd::string::StrSliceExecFns;

use crate::ast::{not_primitive, unclosed, unmatched_close, ErrorView, SKIErr};

verus! {

/// A token of the input text; a parenthesised group becomes one token that
/// holds the tokens written inside it.
#[derive(Debug)]
pub enum Token {
    SToken,
    KToken,
    IToken,
    Parens(Vec<Token>),
}

/// A token as a mathematical value.
pub enum Lexeme {
    S,
    K,
    I,
    Group(Seq<Lexeme>),
}

/// The value that a token stands for.
pub open spec fn lexeme_of(t: Token) -> Lexeme
    decreases t,
{
    match t {
        Token::SToken => Lexeme::S,
        Token::KToken => Lexeme::K,
        Token::IToken => Lexeme::I,
        Token::Parens(v) => Lexeme::Group(lexemes_of(v@)),
    }
}

/// The values of a sequence of tokens, in order.
pub open spec fn lexemes_of(s: Seq<Token>) -> Seq<Lexeme>
    decreases s,
{
    if s.len() == 0 {
        Seq::empty()
    } else {
        lexemes_of(s.drop_last()).push(lexeme_of(s.last()))
    }
}

impl View for Token {
    type V = Lexeme;

    open spec fn view(&self) -> Lexeme {
        lexeme_of(*self)
    }
}

/// Pushing a token pushes its value.
pub proof fn lemma_lexemes_push(s: Seq<Token>, t: Token)
    ensures
        lexemes_of(s.push(t)) == lexemes_of(s).push(lexeme_of(t)),
{
    assert(s.push(t).drop_last() =~= s);
}

/// The values of a sequence of tokens, position by position.
pub proof fn lemma_lexemes_index(s: Seq<Token>)
    ensures
        lexemes_of(s).len() == s.len(),
        forall|j: int| 0 <= j < s.len() ==> #[trigger] lexemes_of(s)[j] == lexeme_of(s[j]),
    decreases s.len(),
{
    if s.len() > 0 {
        lemma_lexemes_index(s.drop_last());
    }
}

/// The index in `s` of the `)` that brings the nesting `depth` to zero, if any.
pub open spec fn close_from(s: Seq<char>, depth: nat) -> Option<nat>
    decreases s.len(),
{
    if s.len() == 0 {
        None
    } else if s[0] == ')' && depth <= 1 {
        Some(0)
    } else {
        let d: nat = if s[0] == '(' {
            depth + 1
        } else if s[0] == ')' {
            (depth - 1) as nat
        } else {
            depth
        };
        match close_from(s.drop_first(), d) {
            Some(j) => Some(j + 1),
            None => None,
        }
    }
}

/// The lexeme of a combinator letter.
pub open spec fn letter_lexeme(c: char) -> Lexeme {
    if c == 'S' {
        Lexeme::S
    } else if c == 'K' {
        Lexeme::K
    } else {
        Lexeme::I
    }
}

/// `ls` followed by the lexemes of `r`, or the error of `r`.
pub open spec fn prepend(ls: Seq<Lexeme>, r: Result<Seq<Lexeme>, ErrorView>) -> Result<
    Seq<Lexeme>,
    ErrorView,
> {
    match r {
        Ok(rest) => Ok(ls + rest),
        Err(e) => Err(e),
    }
}

/// The tokens of `s`, read from left to right; the first fault met decides
/// the error. An opening parenthesis is first matched with its closing one,
/// then what lies between them is read, then what follows.
pub open spec fn lex(s: Seq<char>) -> Result<Seq<Lexeme>, ErrorView>
    decreases s.len(),
{
    if s.len() == 0 {
        Ok(Seq::empty())
    } else {
        let c = s[0];
        if c == 'S' || c == 'K' || c == 'I' {
            prepend(seq![letter_lexeme(c)], lex(s.drop_first()))
        } else if c == '(' {
            match close_from(s.drop_first(), 1) {
                Some(j) => if j + 1 < s.len() {
                    match lex(s.subrange(1, j + 1 as int)) {
                        Ok(inner) => prepend(
                            seq![Lexeme::Group(inner)],
                            lex(s.subrange(j + 2 as int, s.len() as int)),
                        ),
                        Err(e) => Err(e),
                    }
                } else {
                    Err(unclosed())
                },
                None => Err(unclosed()),
            }
        } else if c == ')' {
            Err(unmatched_close())
        } else {
            Err(not_primitive())
        }
    }
}

/// An index moved `d` places to the right.
pub open spec fn shift(o: Option<nat>, d: nat) -> Option<nat> {
    match o {
        Some(j) => Some(j + d),
        None => None,
    }
}

/// A closing index lies inside `s` and points at a `)`.
pub proof fn lemma_close_bounds(s: Seq<char>, depth: nat)
    requires
        close_from(s, depth) is Some,
    ensures
        close_from(s, depth)->Some_0 < s.len(),
        s[close_from(s, depth)->Some_0 as int] == ')',
    decreases s.len(),
{
    if !(s[0] == ')' && depth <= 1) {
        let d: nat = if s[0] == '(' {
            depth + 1
        } else if s[0] == ')' {
            (depth - 1) as nat
        } else {
            depth
        };
        lemma_close_bounds(s.drop_first(), d);
    }
}

/// A closing index found in `s` is found at the same place in `s + w`.
pub proof fn lemma_close_prefix(s: Seq<char>, w: Seq<char>, depth: nat)
    requires
        close_from(s, depth) is Some,
    ensures
        close_from(s + w, depth) == close_from(s, depth),
    decreases s.len(),
{
    assert((s + w)[0] == s[0]);
    if !(s[0] == ')' && depth <= 1) {
        let d: nat = if s[0] == '(' {
            depth + 1
        } else if s[0] == ')' {
            (depth - 1) as nat
        } else {
            depth
        };
        assert((s + w).drop_first() =~= s.drop_first() + w);
        lemma_close_prefix(s.drop_first(), w, d);
    }
}

/// Text that reads without error has balanced parentheses: scanning across it
/// at a positive depth neither closes nor changes the depth.
pub proof fn lemma_close_balanced(z: Seq<char>, w: Seq<char>, depth: nat)
    requires
        lex(z) is Ok,
        depth >= 1,
    ensures
        close_from(z + w, depth) == shift(close_from(w, depth), z.len()),
    decreases z.len(),
{
    if z.len() == 0 {
        assert(z + w =~= w);
    } else {
        let zw = z + w;
        assert(zw[0] == z[0]);
        if z[0] == '(' {
            let j = close_from(z.drop_first(), 1)->Some_0;
            lemma_close_bounds(z.drop_first(), 1);
            let inner = z.subrange(1, j + 1 as int);
            let rest = z.subrange(j + 2 as int, z.len() as int);
            assert(zw.drop_first() =~= inner + (seq![')'] + (rest + w)));
            lemma_close_balanced(inner, seq![')'] + (rest + w), depth + 1);
            let tail = seq![')'] + (rest + w);
            assert(tail.drop_first() =~= rest + w);
            lemma_close_balanced(rest, w, depth);
        } else {
            assert(zw.drop_first() =~= z.drop_first() + w);
            lemma_close_balanced(z.drop_first(), w, depth);
        }
    }
}

/// Text that reads without error can be followed by more text: the tokens
/// of the two are read one after the other.
pub proof fn lemma_lex_concat(x: Seq<char>, y: Seq<char>)
    requires
        lex(x) is Ok,
        lex(y) is Ok,
    ensures
        lex(x + y) == Ok::<Seq<Lexeme>, ErrorView>(lex(x)->Ok_0 + lex(y)->Ok_0),
    decreases x.len(),
{
    let xy = x + y;
    if x.len() == 0 {
        assert(xy =~= y);
        assert(lex(x)->Ok_0 + lex(y)->Ok_0 =~= lex(y)->Ok_0);
    } else {
        assert(xy[0] == x[0]);
        if x[0] == '(' {
            let j = close_from(x.drop_first(), 1)->Some_0;
            lemma_close_bounds(x.drop_first(), 1);
            assert(xy.drop_first() =~= x.drop_first() + y);
            lemma_close_prefix(x.drop_first(), y, 1);
            assert(xy.subrange(1, j + 1 as int) =~= x.subrange(1, j + 1 as int));
            let rest = x.subrange(j + 2 as int, x.len() as int);
            assert(xy.subrange(j + 2 as int, xy.len() as int) =~= rest + y);
            lemma_lex_concat(rest, y);
            let g = seq![Lexeme::Group(lex(x.subrange(1, j + 1 as int))->Ok_0)];
            assert(g + (lex(rest)->Ok_0 + lex(y)->Ok_0) =~= (g + lex(rest)->Ok_0) + lex(y)->Ok_0);
        } else {
            assert(xy.drop_first() =~= x.drop_first() + y);
            lemma_lex_concat(x.drop_first(), y);
            let l = seq![letter_lexeme(x[0])];
            let a = lex(x.drop_first())->Ok_0;
            assert(l + (a + lex(y)->Ok_0) =~= (l + a) + lex(y)->Ok_0);
        }
    }
}

/// Text that reads without error, put in parentheses, reads as one group.
pub proof fn lemma_lex_group(z: Seq<char>)
    requires
        lex(z) is Ok,
    ensures
        lex(seq!['('] + z + seq![')']) == Ok::<Seq<Lexeme>, ErrorView>(
            seq![Lexeme::Group(lex(z)->Ok_0)],
        ),
{
    let s = seq!['('] + z + seq![')'];
    assert(s[0] == '(');
    assert(s.drop_first() =~= z + seq![')']);
    lemma_close_balanced(z, seq![')'], 1);
    assert(close_from(seq![')'], 1) == Some(0nat));
    assert(s.subrange(1, z.len() + 1 as int) =~= z);
    assert(s.subrange(z.len() + 2 as int, s.len() as int) =~= Seq::<char>::empty());
    assert(lex(Seq::<char>::empty()) == Ok::<Seq<Lexeme>, ErrorView>(Seq::empty()));
    assert(seq![Lexeme::Group(lex(z)->Ok_0)] + Seq::<Lexeme>::empty() =~= seq![Lexeme::Group(lex(z)->Ok_0)]);
}

/// Reads the tokens of `chars[lo..hi]`.
fn lex_range(chars: &Vec<char>, lo: usize, hi: usize) -> (r: Result<Vec<Token>, SKIErr>)
    requires
        lo <= hi <= chars.len(),
    ensures
        match (r, lex(chars@.subrange(lo as int, hi as int))) {
            (Ok(toks), Ok(ls)) => lexemes_of(toks@) == ls,
            (Err(e), Err(v)) => e@ == v,
            _ => false,
        },
    decreases hi - lo,
{
    let ghost s = chars@;
    let mut toks: Vec<Token> = Vec::new();
    let mut i: usize = lo;
    while i < hi
        invariant
            lo <= i <= hi <= chars.len(),
            s == chars@,
            lex(s.subrange(lo as int, hi as int)) == prepend(
                lexemes_of(toks@),
                lex(s.subrange(i as int, hi as int)),
            ),
        decreases hi - i,
    {
        let ghost rest = s.subrange(i as int, hi as int);
        assert(rest[0] == s[i as int]);
        assert(rest.drop_first() =~= s.subrange(i + 1, hi as int));
        let c = chars[i];
        if c == 'S' || c == 'K' || c == 'I' {
            let t = if c == 'S' {
                Token::SToken
            } else if c == 'K' {
                Token::KToken
            } else {
                Token::IToken
            };
            proof {
                lemma_lexemes_push(toks@, t);
                let tail = lex(s.subrange(i + 1, hi as int));
                if tail is Ok {
                    assert(lexemes_of(toks@) + (seq![letter_lexeme(c)] + tail->Ok_0) =~= lexemes_of(
                        toks@.push(t),
                    ) + tail->Ok_0);
                }
            }
            toks.push(t);
            i = i + 1;
        } else if c == '(' {
            let mut depth: usize = 1;
            let mut k: usize = i + 1;
            while k < hi && !(chars[k] == ')' && depth == 1)
                invariant
                    lo <= i < k <= hi <= chars.len(),
                    s == chars@,
                    1 <= depth <= k - i,
                    close_from(s.subrange(i + 1, hi as int), 1) == shift(
                        close_from(s.subrange(k as int, hi as int), depth as nat),
                        (k - i - 1) as nat,
                    ),
                decreases hi - k,
            {
                let ghost sk = s.subrange(k as int, hi as int);
                assert(sk[0] == s[k as int]);
                assert(sk.drop_first() =~= s.subrange(k + 1, hi as int));
                if chars[k] == '(' {
                    depth = depth + 1;
                } else if chars[k] == ')' {
                    depth = depth - 1;
                }
                k = k + 1;
            }
            if k == hi {
                return Err(SKIErr::unclosed());
            }
            proof {
                let sk = s.subrange(k as int, hi as int);
                assert(sk[0] == s[k as int]);
                let j = (k - i - 1) as nat;
                assert(close_from(rest.drop_first(), 1) == Some(j));
                assert(rest.subrange(1, j + 1 as int) =~= s.subrange(i + 1, k as int));
                assert(rest.subrange(j + 2 as int, rest.len() as int) =~= s.subrange(k + 1, hi as int));
            }
            match lex_range(chars, i + 1, k) {
                Ok(inner) => {
                    let t = Token::Parens(inner);
                    proof {
                        lemma_lexemes_push(toks@, t);
                        let tail = lex(s.subrange(k + 1, hi as int));
                        if tail is Ok {
                            assert(lexemes_of(toks@) + (seq![lexeme_of(t)] + tail->Ok_0)
                                =~= lexemes_of(toks@.push(t)) + tail->Ok_0);
                        }
                    }
                    toks.push(t);
                    i = k + 1;
                },
                Err(e) => {
                    return Err(e);
                },
            }
        } else if c == ')' {
            return Err(SKIErr::unmatched_close());
        } else {
            return Err(SKIErr::not_primitive());
        }
    }
    proof {
        assert(s.subrange(i as int, hi as int).len() == 0);
        assert(lexemes_of(toks@) + Seq::<Lexeme>::empty() =~= lexemes_of(toks@));
    }
    Ok(toks)
}

/// The characters of `s`, in order.
fn chars_of(s: &str) -> (r: Vec<char>)
    ensures
        r@ == s@,
{
    let n = s.unicode_len();
    let mut out: Vec<char> = Vec::new();
    let mut i: usize = 0;
    while i < n
        invariant
            i <= n,
            n == s@.len(),
            out@ == s@.subrange(0, i as int),
        decreases n - i,
    {
        out.push(s.get_char(i));
        i = i + 1;
        assert(out@ =~= s@.subrange(0, i as int));
    }
    assert(out@ =~= s@);
    out
}

/// Splits `inp` into tokens, a parenthesised group becoming one token.
pub fn tokenize_ski(inp: &str) -> (r: Result<Vec<Token>, SKIErr>)
    ensures
        match (r, lex(inp@)) {
            (Ok(toks), Ok(ls)) => lexemes_of(toks@) == ls,
            (Err(e), Err(v)) => e@ == v,
            _ => false,
        },
{
    let chars = chars_of(inp);
    assert(chars@.subrange(0, chars@.len() as int) =~= inp@);
    lex_range(&chars, 0, chars.len())
}

impl PartialEq for Token {
    fn eq(&self, other: &Token) -> (r: bool)
        ensures
            r == (self@ == other@),
        decreases self,
    {
        match (self, other) {
            (Token::SToken, Token::SToken) => true,
            (Token::KToken, Token::KToken) => true,
            (Token::IToken, Token::IToken) => true,
            (Token::Parens(a), Token::Parens(b)) => {
                proof {
                    lemma_lexemes_index(a@);
                    lemma_lexemes_index(b@);
                }
                if a.len() != b.len() {
                    return false;
                }
                let mut i: usize = 0;
                while i < a.len()
                    invariant
                        i <= a.len() == b.len(),
                        *self == Token::Parens(*a),
                        *other == Token::Parens(*b),
                        lexemes_of(a@).len() == a.len(),
                        lexemes_of(b@).len() == b.len(),
                        forall|j: int| 0 <= j < a.len() ==> #[trigger] lexemes_of(a@)[j] == lexeme_of(a@[j]),
                        forall|j: int| 0 <= j < b.len() ==> #[trigger] lexemes_of(b@)[j] == lexeme_of(b@[j]),
                        forall|j: int| 0 <= j < i ==> lexemes_of(a@)[j] == lexemes_of(b@)[j],
                    decreases a.len() - i,
                {
                    proof {
                        assert(decreases_to!(*self => self->Parens_0));
                        assert(self->Parens_0 == *a);
                        vstd::std_specs::vec::axiom_vec_index_decreases(*a, i as int);
                        assert(decreases_to!(*a => a[i as int]));
                    }
                    if !a[i].eq(&b[i]) {
                        assert(lexemes_of(a@)[i as int] != lexemes_of(b@)[i as int]);
                        return false;
                    }
                    i = i + 1;
                }
                assert(lexemes_of(a@) =~= lexemes_of(b@));
                true
            },
            _ => false,
        }
    }
}

impl vstd::std_specs::cmp::PartialEqSpecImpl for Token {
    open spec fn obeys_eq_spec() -> bool {
        true
    }

    open spec fn eq_spec(&self, other: &Token) -> bool {
        self@ == other@
    }
}

} // verus!

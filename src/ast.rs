use vstd::prelude::*;
use vstd::string::StringExecFns;

verus! {

/// A term of the SKI calculus: one of the three combinators, or the
/// application of a term to another.
#[derive(Debug)]
pub enum SKI {
    S,
    K,
    I,
    Application(Box<App>),
}

/// An application node: `combinator` applied to `arg`.
#[derive(Debug)]
pub struct App {
    pub combinator: SKI,
    pub arg: SKI,
}

/// How a term is written: a combinator as its letter; an application as
/// the function followed by the argument, the argument in parentheses when
/// it is itself an application.
pub open spec fn text_of(t: SKI) -> Seq<char>
    decreases t,
{
    match t {
        SKI::S => seq!['S'],
        SKI::K => seq!['K'],
        SKI::I => seq!['I'],
        SKI::Application(x) => if x.arg is Application {
            text_of(x.combinator) + seq!['('] + text_of(x.arg) + seq![')']
        } else {
            text_of(x.combinator) + text_of(x.arg)
        },
    }
}

/// The term `f a`.
pub open spec fn ap(f: SKI, a: SKI) -> SKI {
    SKI::Application(Box::new(App { combinator: f, arg: a }))
}

impl SKI {
    /// Whether this term is an application rather than a combinator.
    pub fn is_application(&self) -> (r: bool)
        ensures
            r == (self is Application),
    {
        matches!(self, SKI::Application(_))
    }

    /// Appends the written form of this term to `out`.
    fn write_to(&self, out: &mut String)
        ensures
            final(out)@ == old(out)@ + text_of(*self),
        decreases self,
    {
        match self {
            SKI::S => {
                proof { reveal_strlit("S"); }
                out.append("S");
            },
            SKI::K => {
                proof { reveal_strlit("K"); }
                out.append("K");
            },
            SKI::I => {
                proof { reveal_strlit("I"); }
                out.append("I");
            },
            SKI::Application(x) => {
                x.combinator.write_to(out);
                if x.arg.is_application() {
                    proof { reveal_strlit("("); reveal_strlit(")"); }
                    out.append("(");
                    x.arg.write_to(out);
                    out.append(")");
                } else {
                    x.arg.write_to(out);
                }
            },
        }
    }

    /// The written form of this term, e.g. `K(IS)`.
    pub fn render(&self) -> (r: String)
        ensures
            r@ == text_of(*self),
    {
        let mut out = String::new();
        self.write_to(&mut out);
        out
    }

    /// Builds the application of `combinator` to `arg`.
    pub fn app(combinator: SKI, arg: SKI) -> (r: SKI)
        ensures
            r == ap(combinator, arg),
    {
        SKI::Application(Box::new(App { combinator, arg }))
    }
}

impl Clone for SKI {
    fn clone(&self) -> (r: SKI)
        ensures
            r == *self,
        decreases self,
    {
        match self {
            SKI::S => SKI::S,
            SKI::K => SKI::K,
            SKI::I => SKI::I,
            SKI::Application(x) => SKI::Application(
                Box::new(App { combinator: x.combinator.clone(), arg: x.arg.clone() }),
            ),
        }
    }
}

impl Clone for App {
    fn clone(&self) -> (r: App)
        ensures
            r == *self,
    {
        App { combinator: self.combinator.clone(), arg: self.arg.clone() }
    }
}

impl PartialEq for SKI {
    fn eq(&self, other: &SKI) -> (r: bool)
        ensures
            r == (*self == *other),
        decreases self,
    {
        match (self, other) {
            (SKI::S, SKI::S) => true,
            (SKI::K, SKI::K) => true,
            (SKI::I, SKI::I) => true,
            (SKI::Application(x), SKI::Application(y)) => {
                x.combinator.eq(&y.combinator) && x.arg.eq(&y.arg)
            },
            _ => false,
        }
    }
}

impl PartialEq for App {
    fn eq(&self, other: &App) -> (r: bool)
        ensures
            r == (*self == *other),
    {
        self.combinator.eq(&other.combinator) && self.arg.eq(&other.arg)
    }
}

impl vstd::std_specs::cmp::PartialEqSpecImpl for App {
    open spec fn obeys_eq_spec() -> bool {
        true
    }

    open spec fn eq_spec(&self, other: &App) -> bool {
        *self == *other
    }
}

impl vstd::std_specs::cmp::PartialEqSpecImpl for SKI {
    open spec fn obeys_eq_spec() -> bool {
        true
    }

    open spec fn eq_spec(&self, other: &SKI) -> bool {
        *self == *other
    }
}

/// The two kinds of failure, each with a message.
#[derive(Debug)]
pub enum SKIErr {
    /// A character or token that is not one of the combinators.
    ParseError(String),
    /// Parentheses that are not properly matched.
    SyntaxError(String),
}

/// An error as a kind and the characters of its message.
pub enum ErrorView {
    Parse(Seq<char>),
    Syntax(Seq<char>),
}

impl View for SKIErr {
    type V = ErrorView;

    open spec fn view(&self) -> ErrorView {
        match self {
            SKIErr::ParseError(m) => ErrorView::Parse(m@),
            SKIErr::SyntaxError(m) => ErrorView::Syntax(m@),
        }
    }
}

/// An outcome that holds the term or the error that a specification gives.
pub open spec fn agrees(r: Result<SKI, SKIErr>, s: Result<SKI, ErrorView>) -> bool {
    match (r, s) {
        (Ok(t), Ok(u)) => t == u,
        (Err(e), Err(v)) => e@ == v,
        _ => false,
    }
}

/// The error for a character that is not a combinator.
pub open spec fn not_primitive() -> ErrorView {
    ErrorView::Parse("not a SKI primitive"@)
}

/// The error for an empty sequence of tokens.
pub open spec fn empty_input() -> ErrorView {
    ErrorView::Parse("empty input"@)
}

/// The error for an opening parenthesis that is never closed.
pub open spec fn unclosed() -> ErrorView {
    ErrorView::Syntax("unclosed parentheses"@)
}

/// The error for a closing parenthesis with no opening one before it.
pub open spec fn unmatched_close() -> ErrorView {
    ErrorView::Syntax("unmatched closing parentheses"@)
}

impl SKIErr {
    pub(crate) fn not_primitive() -> (e: SKIErr)
        ensures
            e@ == not_primitive(),
    {
        SKIErr::ParseError("not a SKI primitive".to_owned())
    }

    pub(crate) fn empty_input() -> (e: SKIErr)
        ensures
            e@ == empty_input(),
    {
        SKIErr::ParseError("empty input".to_owned())
    }

    pub(crate) fn unclosed() -> (e: SKIErr)
        ensures
            e@ == unclosed(),
    {
        SKIErr::SyntaxError("unclosed parentheses".to_owned())
    }

    pub(crate) fn unmatched_close() -> (e: SKIErr)
        ensures
            e@ == unmatched_close(),
    {
        SKIErr::SyntaxError("unmatched closing parentheses".to_owned())
    }

    /// The message shown to a user, e.g. `Syntax Error: unclosed parentheses`.
    pub fn render(&self) -> (r: String)
        ensures
            r@ == match self@ {
                ErrorView::Parse(m) => "Parse Error: "@ + m,
                ErrorView::Syntax(m) => "Syntax Error: "@ + m,
            },
    {
        match self {
            SKIErr::ParseError(m) => {
                let mut out = "Parse Error: ".to_owned();
                out.append(m.as_str());
                out
            },
            SKIErr::SyntaxError(m) => {
                let mut out = "Syntax Error: ".to_owned();
                out.append(m.as_str());
                out
            },
        }
    }
}

impl Clone for SKIErr {
    fn clone(&self) -> (r: SKIErr)
        ensures
            r@ == self@,
    {
        match self {
            SKIErr::ParseError(m) => SKIErr::ParseError(m.clone()),
            SKIErr::SyntaxError(m) => SKIErr::SyntaxError(m.clone()),
        }
    }
}

impl PartialEq for SKIErr {
    fn eq(&self, other: &SKIErr) -> (r: bool)
        ensures
            r == (self@ == other@),
    {
        match (self, other) {
            (SKIErr::ParseError(a), SKIErr::ParseError(b)) => a.eq(b),
            (SKIErr::SyntaxError(a), SKIErr::SyntaxError(b)) => a.eq(b),
            _ => false,
        }
    }
}

impl vstd::std_specs::cmp::PartialEqSpecImpl for SKIErr {
    open spec fn obeys_eq_spec() -> bool {
        true
    }

    open spec fn eq_spec(&self, other: &SKIErr) -> bool {
        self@ == other@
    }
}

} // verus!

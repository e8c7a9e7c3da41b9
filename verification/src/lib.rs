//! Front end of a minimal expression-oriented language: a lexer that turns
//! source text into a stream of classified tokens, and a recursive-descent
//! parser that validates the token stream against a small arithmetic grammar.

use vstd::prelude::*;

pub mod lexer;
pub mod parser;

verus! {

/// Lexical category of a token. Classification is mutually exclusive and is
/// decided in the priority order Symbol > Operator > Integer > Float >
/// Keyword > Ident.
#[derive(Clone, Copy, Debug, PartialEq, Eq, Structural)]
pub enum TokenType {
    Symbol,
    Keyword,
    Operator,
    Ident,
    Integer,
    Float,
    Str,
}

/// The position of a token in a stream of characters: a start offset and a
/// length, both counted in code points of the source, never in bytes.
#[derive(Clone, Copy, Debug, PartialEq, Eq, Structural)]
pub struct Span {
    pub start: usize,
    pub length: usize,
}

/// One lexical unit: its category, the code points of its text, and where in
/// the source it stands.
#[derive(Clone, Debug)]
pub struct Token {
    pub ty: TokenType,
    pub value: Vec<char>,
    pub span: Span,
}

/// The mathematical image of a `Token`: the text as a sequence of code
/// points, the span as unbounded integers.
pub ghost struct TokenModel {
    pub ty: TokenType,
    pub value: Seq<char>,
    pub start: int,
    pub length: int,
}

impl View for Token {
    type V = TokenModel;

    open spec fn view(&self) -> TokenModel {
        TokenModel {
            ty: self.ty,
            value: self.value@,
            start: self.span.start as int,
            length: self.span.length as int,
        }
    }
}

/// Compares two character vectors element by element.
fn vec_char_eq(a: &Vec<char>, b: &Vec<char>) -> (r: bool)
    ensures
        r == (a@ == b@),
{
    if a.len() != b.len() {
        assert(a@ != b@) by {
            assert(a@.len() != b@.len());
        }
        return false;
    }
    let n = a.len();
    let mut i: usize = 0;
    while i < n
        invariant
            n == a.len() == b.len(),
            i <= n,
            forall|j: int| 0 <= j < i ==> a@[j] == b@[j],
        decreases n - i,
    {
        if a[i] != b[i] {
            return false;
        }
        i += 1;
    }
    proof {
        assert(a@ =~= b@);
    }
    true
}

impl PartialEq for Token {
    fn eq(&self, other: &Token) -> (r: bool) {
        self.ty == other.ty && self.span == other.span && vec_char_eq(&self.value, &other.value)
    }
}

impl vstd::std_specs::cmp::PartialEqSpecImpl for Token {
    open spec fn obeys_eq_spec() -> bool {
        true
    }

    open spec fn eq_spec(&self, other: &Token) -> bool {
        self.ty == other.ty && self.span == other.span && self.value@ == other.value@
    }
}

} // verus!

//! Recursive-descent parsing.
//!
//! [`Parser::parse`] checks that a token stream derives the grammar
//!
//! ```text
//! program ::= expression .
//! expression ::= term expression' .
//! expression' ::= + term expression' | - term expression' | e .
//! term ::= factor term' .
//! term' ::= * factor term' | / factor term' | e .
//! factor ::= "(" expression ")" | Ident | Integer | Float | Str .
//! ```
//!
//! with one token of lookahead and no backtracking. The whole descent is
//! specified by the functions [`sp_parse`], [`sp_expression`], [`sp_term`]
//! and [`sp_factor`]: each takes the tokens still to be consumed and returns
//! the tokens left after its production, or the first syntax error.

use vstd::prelude::*;

use std::collections::VecDeque;

use crate::lexer::views_of;
use crate::{Token, TokenModel, TokenType};

verus! {

/// A syntax error. The first error aborts the parse; there is no recovery.
#[derive(Debug)]
pub enum ParseError {
    /// A factor was required but the lookahead was absent or not a valid
    /// start of a factor.
    ExpectedFactor,
    /// A `(` was opened but no matching `)` followed the nested expression.
    UnclosedParen,
    /// Tokens remained after a complete top-level expression.
    TrailingTokens,
    /// The lookahead matches no production applicable in the current context.
    UnexpectedToken(Token),
}

/// The mathematical image of a [`ParseError`].
pub ghost enum ParseErrorModel {
    ExpectedFactor,
    UnclosedParen,
    TrailingTokens,
    UnexpectedToken(TokenModel),
}

impl View for ParseError {
    type V = ParseErrorModel;

    open spec fn view(&self) -> ParseErrorModel {
        match self {
            ParseError::ExpectedFactor => ParseErrorModel::ExpectedFactor,
            ParseError::UnclosedParen => ParseErrorModel::UnclosedParen,
            ParseError::TrailingTokens => ParseErrorModel::TrailingTokens,
            ParseError::UnexpectedToken(t) => ParseErrorModel::UnexpectedToken(t@),
        }
    }
}

/// The token's text is exactly the one character `c`. The tail productions
/// decide by the text alone, whatever the token's category.
pub open spec fn val_is(t: TokenModel, c: char) -> bool {
    t.value == seq![c]
}

/// The token is the symbol `(`.
pub open spec fn is_lparen_sym(t: TokenModel) -> bool {
    t.ty == TokenType::Symbol && val_is(t, '(')
}

/// The token is the symbol `)`.
pub open spec fn is_rparen_sym(t: TokenModel) -> bool {
    t.ty == TokenType::Symbol && val_is(t, ')')
}

/// The token can stand alone as a factor.
pub open spec fn is_atom(t: TokenModel) -> bool {
    t.ty == TokenType::Ident || t.ty == TokenType::Integer || t.ty == TokenType::Float || t.ty
        == TokenType::Str
}

/// Bounds a suffix so that the descent's measure shrinks. Wherever the
/// grammar functions apply it, the suffix is genuinely shorter (see
/// [`lemma_parse_progress`]) and `clip` hands it back unchanged.
pub open spec fn clip(r: Seq<TokenModel>, s: Seq<TokenModel>) -> Seq<TokenModel> {
    if r.len() < s.len() {
        r
    } else {
        Seq::empty()
    }
}

/// `factor ::= "(" expression ")" | Ident | Integer | Float | Str .`
/// Returns the tokens left after one factor, or the first error in it.
pub open spec fn sp_factor(s: Seq<TokenModel>) -> Result<Seq<TokenModel>, ParseErrorModel>
    decreases s.len(), 0int,
{
    if s.len() == 0 {
        Err(ParseErrorModel::ExpectedFactor)
    } else if is_lparen_sym(s[0]) {
        match sp_expression(s.drop_first()) {
            Ok(r) => if r.len() > 0 && is_rparen_sym(r[0]) {
                Ok(r.drop_first())
            } else {
                Err(ParseErrorModel::UnclosedParen)
            },
            Err(e) => Err(e),
        }
    } else if is_atom(s[0]) {
        Ok(s.drop_first())
    } else {
        Err(ParseErrorModel::ExpectedFactor)
    }
}

/// `term ::= factor term' .`
pub open spec fn sp_term(s: Seq<TokenModel>) -> Result<Seq<TokenModel>, ParseErrorModel>
    decreases s.len(), 1int,
{
    if s.len() == 0 {
        Err(ParseErrorModel::ExpectedFactor)
    } else {
        match sp_factor(s) {
            Ok(r) => sp_term_prime(clip(r, s)),
            Err(e) => Err(e),
        }
    }
}

/// `term' ::= * factor term' | / factor term' | e .` The tail stops before
/// `+`, `-`, `)` or the end of the input; any other token is an error.
pub open spec fn sp_term_prime(s: Seq<TokenModel>) -> Result<Seq<TokenModel>, ParseErrorModel>
    decreases s.len(), 3int,
{
    if s.len() == 0 {
        Ok(s)
    } else if val_is(s[0], '*') || val_is(s[0], '/') {
        match sp_factor(s.drop_first()) {
            Ok(r) => sp_term_prime(clip(r, s)),
            Err(e) => Err(e),
        }
    } else if val_is(s[0], '+') || val_is(s[0], '-') || val_is(s[0], ')') {
        Ok(s)
    } else {
        Err(ParseErrorModel::UnexpectedToken(s[0]))
    }
}

/// `expression ::= term expression' .`
pub open spec fn sp_expression(s: Seq<TokenModel>) -> Result<Seq<TokenModel>, ParseErrorModel>
    decreases s.len(), 2int,
{
    if s.len() == 0 {
        Err(ParseErrorModel::ExpectedFactor)
    } else {
        match sp_term(s) {
            Ok(r) => sp_expression_prime(clip(r, s)),
            Err(e) => Err(e),
        }
    }
}

/// `expression' ::= + term expression' | - term expression' | e .` The tail
/// stops before `)` or the end of the input; any other token is an error.
pub open spec fn sp_expression_prime(s: Seq<TokenModel>) -> Result<
    Seq<TokenModel>,
    ParseErrorModel,
>
    decreases s.len(), 3int,
{
    if s.len() == 0 {
        Ok(s)
    } else if val_is(s[0], '+') || val_is(s[0], '-') {
        match sp_term(s.drop_first()) {
            Ok(r) => sp_expression_prime(clip(r, s)),
            Err(e) => Err(e),
        }
    } else if val_is(s[0], ')') {
        Ok(s)
    } else {
        Err(ParseErrorModel::UnexpectedToken(s[0]))
    }
}

/// `program ::= expression .` The whole stream must be consumed.
pub open spec fn sp_parse(s: Seq<TokenModel>) -> Result<(), ParseErrorModel> {
    match sp_expression(s) {
        Ok(rest) => if rest.len() == 0 {
            Ok(())
        } else {
            Err(ParseErrorModel::TrailingTokens)
        },
        Err(e) => Err(e),
    }
}

/// Every production consumes at least one token when it succeeds, and the
/// tail productions never grow their input. In consequence every `clip` in
/// the grammar functions is the identity on the suffix it guards.
pub proof fn lemma_parse_progress(s: Seq<TokenModel>)
    ensures
        sp_factor(s) matches Ok(r) ==> r.len() < s.len(),
        sp_term(s) matches Ok(r) ==> r.len() < s.len(),
        sp_term_prime(s) matches Ok(r) ==> r.len() <= s.len(),
        sp_expression(s) matches Ok(r) ==> r.len() < s.len(),
        sp_expression_prime(s) matches Ok(r) ==> r.len() <= s.len(),
    decreases s.len(),
{
    if s.len() > 0 {
        lemma_parse_progress(s.drop_first());
        match sp_factor(s) {
            Ok(r0) => lemma_parse_progress(clip(r0, s)),
            Err(_) => (),
        }
        match sp_term(s) {
            Ok(r1) => lemma_parse_progress(clip(r1, s)),
            Err(_) => (),
        }
        match sp_factor(s.drop_first()) {
            Ok(r2) => lemma_parse_progress(clip(r2, s)),
            Err(_) => (),
        }
        match sp_term(s.drop_first()) {
            Ok(r3) => lemma_parse_progress(clip(r3, s)),
            Err(_) => (),
        }
    }
}

/// Precedence is structural, never a rejection mechanism: three factors
/// joined by `*` then `+` parse, and the same factors joined by `+` then `*`
/// parse too. The `*` is consumed inside the term before the expression tail
/// ever sees the `+`.
pub proof fn lemma_precedence(
    a: TokenModel,
    b: TokenModel,
    c: TokenModel,
    times: TokenModel,
    plus: TokenModel,
)
    requires
        is_atom(a),
        is_atom(b),
        is_atom(c),
        val_is(times, '*'),
        val_is(plus, '+'),
    ensures
        sp_parse(seq![a, times, b, plus, c]) == Ok::<(), ParseErrorModel>(()),
        sp_parse(seq![a, plus, b, times, c]) == Ok::<(), ParseErrorModel>(()),
{
    reveal_with_fuel(sp_factor, 8);
    reveal_with_fuel(sp_term, 8);
    reveal_with_fuel(sp_term_prime, 8);
    reveal_with_fuel(sp_expression, 8);
    reveal_with_fuel(sp_expression_prime, 8);
    assert(seq!['*'][0] == '*');
    assert(seq!['+'][0] == '+');
    assert(seq!['-'][0] == '-');
    assert(seq!['/'][0] == '/');
    assert(seq![')'][0] == ')');
    let s1 = seq![a, times, b, plus, c];
    assert(s1.drop_first() =~= seq![times, b, plus, c]);
    assert(seq![times, b, plus, c].drop_first() =~= seq![b, plus, c]);
    assert(seq![b, plus, c].drop_first() =~= seq![plus, c]);
    assert(seq![plus, c].drop_first() =~= seq![c]);
    assert(seq![c].drop_first() =~= Seq::<TokenModel>::empty());
    assert(sp_factor(seq![c]) == Ok::<Seq<TokenModel>, ParseErrorModel>(
        Seq::<TokenModel>::empty(),
    ));
    assert(sp_term(seq![c]) == Ok::<Seq<TokenModel>, ParseErrorModel>(
        Seq::<TokenModel>::empty(),
    ));
    assert(sp_term(s1) == Ok::<Seq<TokenModel>, ParseErrorModel>(seq![plus, c]));
    assert(sp_expression(s1) == Ok::<Seq<TokenModel>, ParseErrorModel>(
        Seq::<TokenModel>::empty(),
    ));
    let s2 = seq![a, plus, b, times, c];
    assert(s2.drop_first() =~= seq![plus, b, times, c]);
    assert(seq![plus, b, times, c].drop_first() =~= seq![b, times, c]);
    assert(seq![b, times, c].drop_first() =~= seq![times, c]);
    assert(seq![times, c].drop_first() =~= seq![c]);
    assert(sp_term(s2) == Ok::<Seq<TokenModel>, ParseErrorModel>(seq![plus, b, times, c]));
    assert(sp_term(seq![b, times, c]) == Ok::<Seq<TokenModel>, ParseErrorModel>(
        Seq::<TokenModel>::empty(),
    ));
    assert(sp_expression(s2) == Ok::<Seq<TokenModel>, ParseErrorModel>(
        Seq::<TokenModel>::empty(),
    ));
}

/// The token `t`, repeated `n` times.
pub open spec fn rep(t: TokenModel, n: nat) -> Seq<TokenModel> {
    Seq::new(n, |k: int| t)
}

/// A fully parenthesized atom parses down to whatever follows it, as long as
/// what follows is empty or starts with a closing parenthesis.
proof fn lemma_nest(
    n: nat,
    atom_t: TokenModel,
    lp: TokenModel,
    rp: TokenModel,
    tail: Seq<TokenModel>,
)
    requires
        is_atom(atom_t),
        is_lparen_sym(lp),
        is_rparen_sym(rp),
        tail.len() == 0 || val_is(tail[0], ')'),
    ensures
        sp_expression(rep(lp, n) + seq![atom_t] + rep(rp, n) + tail) == Ok::<
            Seq<TokenModel>,
            ParseErrorModel,
        >(tail),
    decreases n,
{
    reveal_with_fuel(sp_factor, 2);
    reveal_with_fuel(sp_term, 2);
    reveal_with_fuel(sp_term_prime, 2);
    reveal_with_fuel(sp_expression, 2);
    reveal_with_fuel(sp_expression_prime, 2);
    assert(seq!['*'][0] == '*');
    assert(seq!['+'][0] == '+');
    assert(seq!['-'][0] == '-');
    assert(seq!['/'][0] == '/');
    assert(seq![')'][0] == ')');
    let s = rep(lp, n) + seq![atom_t] + rep(rp, n) + tail;
    if n == 0 {
        assert(s =~= seq![atom_t] + tail);
        assert(s[0] == atom_t);
        assert(s.drop_first() =~= tail);
        assert(sp_factor(s) == Ok::<Seq<TokenModel>, ParseErrorModel>(tail));
        assert(sp_term_prime(tail) == Ok::<Seq<TokenModel>, ParseErrorModel>(tail));
        assert(sp_term(s) == Ok::<Seq<TokenModel>, ParseErrorModel>(tail));
        assert(sp_expression_prime(tail) == Ok::<Seq<TokenModel>, ParseErrorModel>(tail));
        assert(sp_expression(s) == Ok::<Seq<TokenModel>, ParseErrorModel>(tail));
    } else {
        let m = (n - 1) as nat;
        let tail2 = seq![rp] + tail;
        lemma_nest(m, atom_t, lp, rp, tail2);
        let inner = rep(lp, m) + seq![atom_t] + rep(rp, m) + tail2;
        assert(s[0] == lp);
        assert(s.drop_first() =~= inner);
        assert(sp_expression(inner) == Ok::<Seq<TokenModel>, ParseErrorModel>(tail2));
        assert(tail2[0] == rp);
        assert(tail2.drop_first() =~= tail);
        assert(sp_factor(s) == Ok::<Seq<TokenModel>, ParseErrorModel>(tail));
        assert(sp_term_prime(tail) == Ok::<Seq<TokenModel>, ParseErrorModel>(tail));
        assert(sp_term(s) == Ok::<Seq<TokenModel>, ParseErrorModel>(tail));
        assert(sp_expression_prime(tail) == Ok::<Seq<TokenModel>, ParseErrorModel>(tail));
        assert(sp_expression(s) == Ok::<Seq<TokenModel>, ParseErrorModel>(tail));
    }
}

/// Balanced parentheses: `(` repeated `n` times, an atom, `)` repeated `n`
/// times parses for every `n`; with one closing parenthesis removed the
/// parse fails, and the error is exactly the unclosed parenthesis.
pub proof fn lemma_balanced_parens(n: nat, atom_t: TokenModel, lp: TokenModel, rp: TokenModel)
    requires
        is_atom(atom_t),
        is_lparen_sym(lp),
        is_rparen_sym(rp),
    ensures
        sp_parse(rep(lp, n) + seq![atom_t] + rep(rp, n)) == Ok::<(), ParseErrorModel>(()),
        n >= 1 ==> sp_parse(rep(lp, n) + seq![atom_t] + rep(rp, (n - 1) as nat)) == Err::<
            (),
            ParseErrorModel,
        >(ParseErrorModel::UnclosedParen),
{
    let s = rep(lp, n) + seq![atom_t] + rep(rp, n);
    lemma_nest(n, atom_t, lp, rp, Seq::empty());
    assert(s + Seq::<TokenModel>::empty() =~= s);
    assert(sp_expression(s) == Ok::<Seq<TokenModel>, ParseErrorModel>(
        Seq::<TokenModel>::empty(),
    ));
    if n >= 1 {
        reveal_with_fuel(sp_factor, 2);
        reveal_with_fuel(sp_term, 2);
        reveal_with_fuel(sp_expression, 2);
        let m = (n - 1) as nat;
        let s2 = rep(lp, n) + seq![atom_t] + rep(rp, m);
        let inner = rep(lp, m) + seq![atom_t] + rep(rp, m) + Seq::<TokenModel>::empty();
        lemma_nest(m, atom_t, lp, rp, Seq::empty());
        assert(s2[0] == lp);
        assert(s2.drop_first() =~= inner);
        assert(sp_expression(inner) == Ok::<Seq<TokenModel>, ParseErrorModel>(
            Seq::<TokenModel>::empty(),
        ));
        assert(sp_factor(s2) == Err::<Seq<TokenModel>, ParseErrorModel>(
            ParseErrorModel::UnclosedParen,
        ));
        assert(sp_term(s2) == Err::<Seq<TokenModel>, ParseErrorModel>(
            ParseErrorModel::UnclosedParen,
        ));
        assert(sp_expression(s2) == Err::<Seq<TokenModel>, ParseErrorModel>(
            ParseErrorModel::UnclosedParen,
        ));
    }
}

/// The images of a token sequence agree with dropping its first element.
proof fn lemma_views_drop(q: Seq<Token>)
    requires
        q.len() > 0,
    ensures
        views_of(q.drop_first()) == views_of(q).drop_first(),
        views_of(q) == seq![q[0]@] + views_of(q.drop_first()),
{
    assert(views_of(q.drop_first()) =~= views_of(q).drop_first());
    assert(views_of(q) =~= seq![q[0]@] + views_of(q.drop_first()));
}

/// The token's text is exactly the one character `c`.
fn tok_val_is(t: &Token, c: char) -> (r: bool)
    ensures
        r == val_is(t@, c),
{
    proof {
        assert(seq![c].len() == 1);
        assert(seq![c][0] == c);
    }
    if t.value.len() != 1 {
        return false;
    }
    if t.value[0] == c {
        proof {
            assert(t@.value =~= seq![c]);
        }
        true
    } else {
        false
    }
}

/// The token can stand alone as a factor.
fn tok_is_atom(t: &Token) -> (r: bool)
    ensures
        r == is_atom(t@),
{
    match t.ty {
        TokenType::Ident | TokenType::Integer | TokenType::Float | TokenType::Str => true,
        _ => false,
    }
}

/// A field-for-field copy of a token, its image kept.
fn clone_token(t: &Token) -> (r: Token)
    ensures
        r@ == t@,
{
    let value = crate::lexer::copy_range(&t.value, 0, t.value.len());
    proof {
        assert(t.value@.subrange(0, t.value@.len() as int) =~= t.value@);
    }
    Token { ty: t.ty, value, span: t.span }
}

/// A cursor over a token stream: the tokens still queued, and the current
/// one-token lookahead, `None` once the input is exhausted. The lookahead is
/// consumed strictly left to right; a consumed token is never revisited.
#[derive(Debug)]
pub struct Parser {
    token_stream: VecDeque<Token>,
    token: Option<Token>,
}

impl Parser {
    /// The images of the queued tokens, the lookahead not among them.
    pub closed spec fn stream_model(self) -> Seq<TokenModel> {
        views_of(self.token_stream@)
    }

    /// The images of all tokens still to be consumed, the lookahead first.
    spec fn remaining(self) -> Seq<TokenModel> {
        match self.token {
            Some(t) => seq![t@] + views_of(self.token_stream@),
            None => views_of(self.token_stream@),
        }
    }

    /// Once the lookahead has run out, so has the queue.
    spec fn primed(self) -> bool {
        self.token is None ==> self.token_stream@.len() == 0
    }

    pub fn new(token_stream: VecDeque<Token>) -> (p: Parser)
        ensures
            p.stream_model() == views_of(token_stream@),
    {
        Parser { token_stream, token: None }
    }

    /// Moves the front of the queue into the lookahead, `None` at the end.
    fn next_token(&mut self)
        ensures
            final(self).primed(),
            old(self).token_stream@.len() > 0 ==> final(self).token == Some(
                old(self).token_stream@[0],
            ) && final(self).token_stream@ == old(self).token_stream@.drop_first(),
            old(self).token_stream@.len() == 0 ==> final(self).token is None
                && final(self).token_stream@ == old(self).token_stream@,
    {
        self.token = self.token_stream.pop_front();
        proof {
            if old(self).token_stream@.len() > 0 {
                assert(old(self).token_stream@.subrange(
                    1,
                    old(self).token_stream@.len() as int,
                ) =~= old(self).token_stream@.drop_first());
            }
        }
    }

    /// Checks the whole stream against `program ::= expression .`, reporting
    /// exactly what [`sp_parse`] says of the queued tokens.
    pub fn parse(&mut self) -> (r: Result<(), ParseError>)
        ensures
            match r {
                Ok(u) => sp_parse(old(self).stream_model()) == Ok::<(), ParseErrorModel>(()),
                Err(e) => sp_parse(old(self).stream_model()) == Err::<(), ParseErrorModel>(e@),
            },
    {
        let ghost s = views_of(self.token_stream@);
        self.next_token();
        proof {
            if old(self).token_stream@.len() > 0 {
                lemma_views_drop(old(self).token_stream@);
            }
            assert(self.remaining() == s);
        }
        match self.parse_expression() {
            Ok(_) => {
                match &self.token {
                    None => {
                        proof {
                            assert(self.remaining().len() == 0);
                        }
                        Ok(())
                    },
                    Some(_) => {
                        proof {
                            assert(self.remaining().len() > 0);
                        }
                        Err(ParseError::TrailingTokens)
                    },
                }
            },
            Err(e) => Err(e),
        }
    }

    /// `expression ::= term expression' .`
    fn parse_expression(&mut self) -> (r: Result<bool, ParseError>)
        requires
            old(self).primed(),
        ensures
            r is Ok ==> final(self).primed(),
            match r {
                Ok(b) => b && sp_expression(old(self).remaining()) == Ok::<
                    Seq<TokenModel>,
                    ParseErrorModel,
                >(final(self).remaining()),
                Err(e) => sp_expression(old(self).remaining()) == Err::<
                    Seq<TokenModel>,
                    ParseErrorModel,
                >(e@),
            },
        decreases old(self).remaining().len(), 2int,
    {
        let ghost s = old(self).remaining();
        match self.parse_term() {
            Ok(_) => {
                proof {
                    lemma_parse_progress(s);
                    assert(clip(self.remaining(), s) == self.remaining());
                }
                let r = self.parse_expression_prime();
                proof {
                    lemma_parse_progress(s);
                }
                r
            },
            Err(e) => {
                proof {
                    assert(sp_expression(s) == Err::<Seq<TokenModel>, ParseErrorModel>(e@));
                }
                Err(e)
            },
        }
    }

    /// `expression' ::= + term expression' | - term expression' | e .`
    fn parse_expression_prime(&mut self) -> (r: Result<bool, ParseError>)
        requires
            old(self).primed(),
        ensures
            r is Ok ==> final(self).primed(),
            match r {
                Ok(b) => b && sp_expression_prime(old(self).remaining()) == Ok::<
                    Seq<TokenModel>,
                    ParseErrorModel,
                >(final(self).remaining()),
                Err(e) => sp_expression_prime(old(self).remaining()) == Err::<
                    Seq<TokenModel>,
                    ParseErrorModel,
                >(e@),
            },
        decreases old(self).remaining().len(), 3int,
    {
        let ghost s = old(self).remaining();
        let pm = match &self.token {
            Some(t) => Some((tok_val_is(t, '+') || tok_val_is(t, '-'), tok_val_is(t, ')'))),
            None => None,
        };
        match pm {
            None => {
                proof {
                    assert(s.len() == 0);
                }
                Ok(true)
            },
            Some((true, _)) => {
                let ghost q = self.token_stream@;
                self.next_token();
                proof {
                    if q.len() > 0 {
                        lemma_views_drop(q);
                    }
                    assert(self.remaining() =~= s.drop_first());
                }
                match self.parse_term() {
                    Ok(_) => {
                        proof {
                            lemma_parse_progress(s.drop_first());
                            assert(clip(self.remaining(), s) == self.remaining());
                        }
                        let r = self.parse_expression_prime();
                        r
                    },
                    Err(e) => Err(e),
                }
            },
            Some((false, true)) => {
                proof {
                    assert(s[0] == self.token->0@);
                }
                Ok(true)
            },
            Some((false, false)) => {
                let t = match &self.token {
                    Some(t) => clone_token(t),
                    None => {
                        proof {
                            assert(false);
                        }
                        clone_token(&Token {
                            ty: TokenType::Symbol,
                            value: Vec::new(),
                            span: crate::Span { start: 0, length: 0 },
                        })
                    },
                };
                proof {
                    assert(s[0] == self.token->0@);
                    assert(sp_expression_prime(s) == Err::<Seq<TokenModel>, ParseErrorModel>(
                        ParseErrorModel::UnexpectedToken(s[0]),
                    ));
                }
                Err(ParseError::UnexpectedToken(t))
            },
        }
    }

    /// `term ::= factor term' .`
    fn parse_term(&mut self) -> (r: Result<bool, ParseError>)
        requires
            old(self).primed(),
        ensures
            r is Ok ==> final(self).primed(),
            match r {
                Ok(b) => b && sp_term(old(self).remaining()) == Ok::<
                    Seq<TokenModel>,
                    ParseErrorModel,
                >(final(self).remaining()),
                Err(e) => sp_term(old(self).remaining()) == Err::<
                    Seq<TokenModel>,
                    ParseErrorModel,
                >(e@),
            },
        decreases old(self).remaining().len(), 1int,
    {
        let ghost s = old(self).remaining();
        match self.parse_factor() {
            Ok(_) => {
                proof {
                    lemma_parse_progress(s);
                    assert(clip(self.remaining(), s) == self.remaining());
                }
                let r = self.parse_term_prime();
                r
            },
            Err(e) => {
                proof {
                    assert(sp_term(s) == Err::<Seq<TokenModel>, ParseErrorModel>(e@));
                }
                Err(e)
            },
        }
    }

    /// `term' ::= * factor term' | / factor term' | e .`
    fn parse_term_prime(&mut self) -> (r: Result<bool, ParseError>)
        requires
            old(self).primed(),
        ensures
            r is Ok ==> final(self).primed(),
            match r {
                Ok(b) => b && sp_term_prime(old(self).remaining()) == Ok::<
                    Seq<TokenModel>,
                    ParseErrorModel,
                >(final(self).remaining()),
                Err(e) => sp_term_prime(old(self).remaining()) == Err::<
                    Seq<TokenModel>,
                    ParseErrorModel,
                >(e@),
            },
        decreases old(self).remaining().len(), 3int,
    {
        let ghost s = old(self).remaining();
        let md = match &self.token {
            Some(t) => Some(
                (
                    tok_val_is(t, '*') || tok_val_is(t, '/'),
                    tok_val_is(t, '+') || tok_val_is(t, '-') || tok_val_is(t, ')'),
                ),
            ),
            None => None,
        };
        match md {
            None => {
                proof {
                    assert(s.len() == 0);
                }
                Ok(true)
            },
            Some((true, _)) => {
                let ghost q = self.token_stream@;
                self.next_token();
                proof {
                    if q.len() > 0 {
                        lemma_views_drop(q);
                    }
                    assert(self.remaining() =~= s.drop_first());
                }
                match self.parse_factor() {
                    Ok(_) => {
                        proof {
                            lemma_parse_progress(s.drop_first());
                            assert(clip(self.remaining(), s) == self.remaining());
                        }
                        let r = self.parse_term_prime();
                        r
                    },
                    Err(e) => Err(e),
                }
            },
            Some((false, true)) => {
                proof {
                    assert(s[0] == self.token->0@);
                }
                Ok(true)
            },
            Some((false, false)) => {
                let t = match &self.token {
                    Some(t) => clone_token(t),
                    None => {
                        proof {
                            assert(false);
                        }
                        clone_token(&Token {
                            ty: TokenType::Symbol,
                            value: Vec::new(),
                            span: crate::Span { start: 0, length: 0 },
                        })
                    },
                };
                proof {
                    assert(s[0] == self.token->0@);
                    assert(sp_term_prime(s) == Err::<Seq<TokenModel>, ParseErrorModel>(
                        ParseErrorModel::UnexpectedToken(s[0]),
                    ));
                }
                Err(ParseError::UnexpectedToken(t))
            },
        }
    }

    /// `factor ::= "(" expression ")" | Ident | Integer | Float | Str .`
    fn parse_factor(&mut self) -> (r: Result<bool, ParseError>)
        requires
            old(self).primed(),
        ensures
            r is Ok ==> final(self).primed(),
            match r {
                Ok(b) => b && sp_factor(old(self).remaining()) == Ok::<
                    Seq<TokenModel>,
                    ParseErrorModel,
                >(final(self).remaining()),
                Err(e) => sp_factor(old(self).remaining()) == Err::<
                    Seq<TokenModel>,
                    ParseErrorModel,
                >(e@),
            },
        decreases old(self).remaining().len(), 0int,
    {
        let ghost s = old(self).remaining();
        let head = match &self.token {
            Some(t) => Some((t.ty == TokenType::Symbol && tok_val_is(t, '('), tok_is_atom(t))),
            None => None,
        };
        match head {
            None => {
                proof {
                    assert(s.len() == 0);
                }
                Err(ParseError::ExpectedFactor)
            },
            Some((true, _)) => {
                let ghost q = self.token_stream@;
                self.next_token();
                proof {
                    if q.len() > 0 {
                        lemma_views_drop(q);
                    }
                    assert(self.remaining() =~= s.drop_first());
                }
                match self.parse_expression() {
                    Ok(_) => {},
                    Err(e) => {
                        return Err(e);
                    },
                }
                let ghost rest = self.remaining();
                let rp = match &self.token {
                    Some(t) => t.ty == TokenType::Symbol && tok_val_is(t, ')'),
                    None => false,
                };
                if !rp {
                    proof {
                        if rest.len() > 0 {
                            assert(rest[0] == self.token->0@);
                        }
                        assert(sp_factor(s) == Err::<Seq<TokenModel>, ParseErrorModel>(
                            ParseErrorModel::UnclosedParen,
                        ));
                    }
                    return Err(ParseError::UnclosedParen);
                }
                let ghost q2 = self.token_stream@;
                self.next_token();
                proof {
                    if q2.len() > 0 {
                        lemma_views_drop(q2);
                    }
                    assert(self.remaining() =~= rest.drop_first());
                }
                Ok(true)
            },
            Some((false, true)) => {
                let ghost q = self.token_stream@;
                self.next_token();
                proof {
                    if q.len() > 0 {
                        lemma_views_drop(q);
                    }
                    assert(self.remaining() =~= s.drop_first());
                }
                Ok(true)
            },
            Some((false, false)) => {
                proof {
                    assert(s[0] == self.token->0@);
                }
                Err(ParseError::ExpectedFactor)
            },
        }
    }
}

} // verus!

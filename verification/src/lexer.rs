//! Lexical analysis.
//!
//! [`lex`] turns a stream of characters into a vector of tokens. For example,
//! the statement `let a = 5 ;` becomes a keyword, an identifier, an operator,
//! an integer and a symbol, each carrying its text and its span, counted in
//! code points.
//!
//! The whole pass is specified by the recursive function [`sp_lex`]: at each
//! position it skips a blank, recognizes a quoted string, a comment or a lone
//! `/`, or else scans a maximal blank-bounded word and classifies it. Words
//! are classified in the priority order symbol > operator > integer > float >
//! keyword > identifier; glued input such as `1+2` is a single word and falls
//! through to identifier.

use vstd::prelude::*;

use crate::{Span, Token, TokenModel, TokenType};

verus! {

broadcast use vstd::string::axiom_spec_iter;

/// A lexical error, carrying the offset (in code points) where it arose.
#[derive(Clone, Copy, Debug, PartialEq, Eq, Structural)]
pub enum LexError {
    /// A `"` was opened and the input ended before the closing `"`.
    UnterminatedString(usize),
    /// A lone `/` stood as the last character of the input.
    DanglingSlash(usize),
}

/// The classes of characters the scanner looks for.
#[derive(Clone, Copy, Debug, PartialEq, Eq, Structural)]
pub enum CharClass {
    Quote,
    Newline,
    Blank,
    Dot,
    ExpMark,
}

/// Whether `c` belongs to the class `k`.
pub open spec fn matches_class(c: char, k: CharClass) -> bool {
    match k {
        CharClass::Quote => c == '"',
        CharClass::Newline => c == '\n',
        CharClass::Blank => c == ' ' || c == '\n',
        CharClass::Dot => c == '.',
        CharClass::ExpMark => c == 'e' || c == 'E',
    }
}

/// The first position at or after `i` whose character belongs to class `k`,
/// or `s.len()` if there is none.
pub open spec fn find_from(s: Seq<char>, i: int, k: CharClass) -> int
    decreases s.len() - i,
{
    if i < 0 || i >= s.len() {
        s.len() as int
    } else if matches_class(s[i], k) {
        i
    } else {
        find_from(s, i + 1, k)
    }
}

/// `find_from` stays within `[i, s.len()]`, lands on a matching character
/// when it lands inside the sequence, and skips no matching character.
pub proof fn lemma_find_from(s: Seq<char>, i: int, k: CharClass)
    requires
        0 <= i <= s.len(),
    ensures
        i <= find_from(s, i, k) <= s.len(),
        find_from(s, i, k) < s.len() ==> matches_class(s[find_from(s, i, k)], k),
        forall|j: int| i <= j < find_from(s, i, k) ==> !matches_class(#[trigger] s[j], k),
    decreases s.len() - i,
{
    if i < s.len() && !matches_class(s[i], k) {
        lemma_find_from(s, i + 1, k);
    }
}

/// Whether `c` is a decimal digit.
pub open spec fn is_digit(c: char) -> bool {
    48 <= c as u32 <= 57
}

/// The numeric value of a digit character.
pub open spec fn digit_val(c: char) -> int {
    c as u32 - 48
}

/// Every character of `s` in the half-open range `[a, b)` is a digit.
pub open spec fn digits_in(s: Seq<char>, a: int, b: int) -> bool {
    forall|j: int| a <= j < b ==> is_digit(#[trigger] s[j])
}

/// The value of the digits of `s` in `[a, b)` read in base ten.
pub open spec fn digits_val(s: Seq<char>, a: int, b: int) -> int
    decreases b - a,
{
    if b <= a {
        0
    } else {
        digits_val(s, a, b - 1) * 10 + digit_val(s[b - 1])
    }
}

/// The word is exactly one of the six punctuation symbols `{ } ( ) ; ,`.
pub open spec fn is_symbol_word(w: Seq<char>) -> bool {
    w.len() == 1 && (w[0] == '{' || w[0] == '}' || w[0] == '(' || w[0] == ')' || w[0] == ';'
        || w[0] == ',')
}

/// The word is exactly one of the operators `+ - * / = > <`.
pub open spec fn is_operator_word(w: Seq<char>) -> bool {
    w.len() == 1 && (w[0] == '+' || w[0] == '-' || w[0] == '*' || w[0] == '/' || w[0] == '='
        || w[0] == '>' || w[0] == '<')
}

/// The word is exactly one of the keywords `let if else for fn return`.
pub open spec fn is_keyword_word(w: Seq<char>) -> bool {
    ||| (w.len() == 3 && w[0] == 'l' && w[1] == 'e' && w[2] == 't')
    ||| (w.len() == 2 && w[0] == 'i' && w[1] == 'f')
    ||| (w.len() == 4 && w[0] == 'e' && w[1] == 'l' && w[2] == 's' && w[3] == 'e')
    ||| (w.len() == 3 && w[0] == 'f' && w[1] == 'o' && w[2] == 'r')
    ||| (w.len() == 2 && w[0] == 'f' && w[1] == 'n')
    ||| (w.len() == 6 && w[0] == 'r' && w[1] == 'e' && w[2] == 't' && w[3] == 'u' && w[4] == 'r'
        && w[5] == 'n')
}

/// The word parses as a 32-bit signed integer literal: an optional sign, at
/// least one digit, and a value within the range of `i32`.
pub open spec fn is_integer_word(w: Seq<char>) -> bool {
    let bs: int = if w.len() > 0 && (w[0] == '+' || w[0] == '-') {
        1
    } else {
        0
    };
    let bound: int = if w.len() > 0 && w[0] == '-' {
        2147483648
    } else {
        2147483647
    };
    w.len() > bs && digits_in(w, bs, w.len() as int) && digits_val(w, bs, w.len() as int) <= bound
}

/// `c` is `l` or its upper-case form `u`.
pub open spec fn either_case(c: char, l: char, u: char) -> bool {
    c == l || c == u
}

/// The characters from `bs` to the end spell `inf`, `infinity` or `nan`,
/// in any mix of cases.
pub open spec fn is_inf_nan_at(w: Seq<char>, bs: int) -> bool {
    ||| (w.len() - bs == 3 && either_case(w[bs], 'i', 'I') && either_case(w[bs + 1], 'n', 'N')
        && either_case(w[bs + 2], 'f', 'F'))
    ||| (w.len() - bs == 8 && either_case(w[bs], 'i', 'I') && either_case(w[bs + 1], 'n', 'N')
        && either_case(w[bs + 2], 'f', 'F') && either_case(w[bs + 3], 'i', 'I') && either_case(
        w[bs + 4],
        'n',
        'N',
    ) && either_case(w[bs + 5], 'i', 'I') && either_case(w[bs + 6], 't', 'T') && either_case(
        w[bs + 7],
        'y',
        'Y',
    ))
    ||| (w.len() - bs == 3 && either_case(w[bs], 'n', 'N') && either_case(w[bs + 1], 'a', 'A')
        && either_case(w[bs + 2], 'n', 'N'))
}

/// The characters in `[a, b)` form a decimal mantissa: digits with at most
/// one `.` among them, and at least one digit.
pub open spec fn is_mantissa_range(w: Seq<char>, a: int, b: int) -> bool {
    let d = find_from(w, a, CharClass::Dot);
    if d >= b {
        b - a >= 1 && digits_in(w, a, b)
    } else {
        digits_in(w, a, d) && digits_in(w, d + 1, b) && b - a >= 2
    }
}

/// The characters in `[a, b)` form an exponent body: an optional sign
/// followed by at least one digit.
pub open spec fn is_exp_range(w: Seq<char>, a: int, b: int) -> bool {
    let a2: int = if a < b && (w[a] == '+' || w[a] == '-') {
        a + 1
    } else {
        a
    };
    b - a2 >= 1 && digits_in(w, a2, b)
}

/// The characters from `bs` to the end form a decimal number: a mantissa,
/// optionally followed by `e` or `E` and an exponent body.
pub open spec fn is_number_at(w: Seq<char>, bs: int) -> bool {
    let e = find_from(w, bs, CharClass::ExpMark);
    if e >= w.len() {
        is_mantissa_range(w, bs, w.len() as int)
    } else {
        is_mantissa_range(w, bs, e) && is_exp_range(w, e + 1, w.len() as int)
    }
}

/// The word parses as a 32-bit floating-point literal: an optional sign
/// followed by `inf`, `infinity`, `nan` (in any case) or a decimal number.
/// Out-of-range values round to infinity, so no range condition applies.
pub open spec fn is_float_word(w: Seq<char>) -> bool {
    let bs: int = if w.len() > 0 && (w[0] == '+' || w[0] == '-') {
        1
    } else {
        0
    };
    w.len() > bs && (is_inf_nan_at(w, bs) || is_number_at(w, bs))
}

/// The whole lexical pass, from position `i` of the source: the tokens that
/// the scan emits from there to the end, or the first lexical error.
pub open spec fn sp_lex(s: Seq<char>, i: int) -> Result<Seq<TokenModel>, LexError>
    decreases s.len() - i,
        via sp_lex_dec
{
    if i < 0 || i >= s.len() {
        Ok(Seq::empty())
    } else {
        let c = s[i];
        if c == ' ' || c == '\n' {
            sp_lex(s, i + 1)
        } else if c == '"' {
            let j = find_from(s, i + 1, CharClass::Quote);
            if j >= s.len() {
                Err(LexError::UnterminatedString(i as usize))
            } else {
                let t = TokenModel {
                    ty: TokenType::Str,
                    value: s.subrange(i, j + 1),
                    start: i,
                    length: j + 1 - i,
                };
                match sp_lex(s, j + 1) {
                    Ok(rest) => Ok(seq![t] + rest),
                    Err(e) => Err(e),
                }
            }
        } else if c == '/' {
            if i == s.len() - 1 {
                Err(LexError::DanglingSlash(i as usize))
            } else if s[i + 1] == '/' {
                let j = find_from(s, i, CharClass::Newline);
                sp_lex(s, if j < s.len() { j + 1 } else { j })
            } else {
                let t = TokenModel {
                    ty: TokenType::Operator,
                    value: seq!['/'],
                    start: i,
                    length: 1,
                };
                match sp_lex(s, i + 1) {
                    Ok(rest) => Ok(seq![t] + rest),
                    Err(e) => Err(e),
                }
            }
        } else {
            let j = find_from(s, i, CharClass::Blank);
            let w = s.subrange(i, j);
            let t = TokenModel { ty: classify_word(w), value: w, start: i, length: j - i };
            match sp_lex(s, if j < s.len() { j + 1 } else { j }) {
                Ok(rest) => Ok(seq![t] + rest),
                Err(e) => Err(e),
            }
        }
    }
}

#[via_fn]
proof fn sp_lex_dec(s: Seq<char>, i: int) {
    if 0 <= i < s.len() {
        lemma_find_from(s, i + 1, CharClass::Quote);
        lemma_find_from(s, i, CharClass::Newline);
        lemma_find_from(s, i, CharClass::Blank);
    }
}

/// The images of a vector of tokens, in order.
pub open spec fn views_of(ts: Seq<Token>) -> Seq<TokenModel> {
    ts.map_values(|t: Token| t@)
}

/// Puts already emitted tokens in front of the rest of a scan's outcome.
pub open spec fn prepend_tokens(
    ts: Seq<TokenModel>,
    r: Result<Seq<TokenModel>, LexError>,
) -> Result<Seq<TokenModel>, LexError> {
    match r {
        Ok(rest) => Ok(ts + rest),
        Err(e) => Err(e),
    }
}

/// Emitting one more token and moving on agrees with `prepend_tokens`.
proof fn lemma_prepend_step(
    ts: Seq<TokenModel>,
    t: TokenModel,
    r_next: Result<Seq<TokenModel>, LexError>,
    r_here: Result<Seq<TokenModel>, LexError>,
)
    requires
        r_here == match r_next {
            Ok(rest) => Ok::<Seq<TokenModel>, LexError>(seq![t] + rest),
            Err(e) => Err(e),
        },
    ensures
        prepend_tokens(ts.push(t), r_next) == prepend_tokens(ts, r_here),
{
    match r_next {
        Ok(rest) => {
            assert(ts.push(t) + rest =~= ts + (seq![t] + rest));
        },
        Err(e) => {},
    }
}

/// The lexical category of a blank-bounded word, decided in priority order.
pub open spec fn classify_word(w: Seq<char>) -> TokenType {
    if is_symbol_word(w) {
        TokenType::Symbol
    } else if is_operator_word(w) {
        TokenType::Operator
    } else if is_integer_word(w) {
        TokenType::Integer
    } else if is_float_word(w) {
        TokenType::Float
    } else if is_keyword_word(w) {
        TokenType::Keyword
    } else {
        TokenType::Ident
    }
}

fn quote(c: char) -> (r: bool)
    ensures
        r == (c == '"'),
{
    c == '"'
}

fn space(c: char) -> (r: bool)
    ensures
        r == (c == ' '),
{
    c == ' '
}

fn newline(c: char) -> (r: bool)
    ensures
        r == (c == '\n'),
{
    c == '\n'
}

fn blank(c: char) -> (r: bool)
    ensures
        r == (c == ' ' || c == '\n'),
{
    space(c) || newline(c)
}

fn class_matches(c: char, k: CharClass) -> (r: bool)
    ensures
        r == matches_class(c, k),
{
    match k {
        CharClass::Quote => quote(c),
        CharClass::Newline => newline(c),
        CharClass::Blank => blank(c),
        CharClass::Dot => c == '.',
        CharClass::ExpMark => c == 'e' || c == 'E',
    }
}

/// The first position at or after `i` holding a character of class `k`.
fn find_char(v: &Vec<char>, i: usize, k: CharClass) -> (j: usize)
    requires
        i <= v.len(),
    ensures
        j == find_from(v@, i as int, k),
        i <= j <= v.len(),
{
    let mut j = i;
    while j < v.len() && !class_matches(v[j], k)
        invariant
            i <= j <= v.len(),
            find_from(v@, i as int, k) == find_from(v@, j as int, k),
        decreases v.len() - j,
    {
        j += 1;
    }
    proof {
        lemma_find_from(v@, i as int, k);
    }
    j
}

/// Every character of `v` in `[a, b)` is a decimal digit.
fn digits_range(v: &Vec<char>, a: usize, b: usize) -> (r: bool)
    requires
        a <= b <= v.len(),
    ensures
        r == digits_in(v@, a as int, b as int),
{
    let mut j = a;
    while j < b
        invariant
            a <= j <= b <= v.len(),
            forall|q: int| a <= q < j ==> is_digit(#[trigger] v@[q]),
        decreases b - j,
    {
        let u = v[j] as u32;
        if u < 48 || u > 57 {
            assert(!is_digit(v@[j as int]));
            assert(!digits_in(v@, a as int, b as int));
            return false;
        }
        assert(is_digit(v@[j as int]));
        j += 1;
    }
    true
}

fn is_symbol(token: &Vec<char>) -> (r: bool)
    ensures
        r == is_symbol_word(token@),
{
    if token.len() != 1 {
        return false;
    }
    let c = token[0];
    c == '{' || c == '}' || c == '(' || c == ')' || c == ';' || c == ','
}

fn is_operator(token: &Vec<char>) -> (r: bool)
    ensures
        r == is_operator_word(token@),
{
    if token.len() != 1 {
        return false;
    }
    let c = token[0];
    c == '+' || c == '-' || c == '*' || c == '/' || c == '=' || c == '>' || c == '<'
}

/// The smaller of two integers.
pub open spec fn int_min(a: int, b: int) -> int {
    if a < b {
        a
    } else {
        b
    }
}

fn is_integer(token: &Vec<char>) -> (r: bool)
    ensures
        r == is_integer_word(token@),
{
    let n = token.len();
    let has_sign = n > 0 && (token[0] == '+' || token[0] == '-');
    let neg = n > 0 && token[0] == '-';
    let bs: usize = if has_sign {
        1
    } else {
        0
    };
    if n <= bs {
        return false;
    }
    let mut j = bs;
    let mut acc: u64 = 0;
    while j < n
        invariant
            bs <= j <= n,
            n == token.len(),
            bs < n,
            bs as int == (if token@.len() > 0 && (token@[0] == '+' || token@[0] == '-') {
                1int
            } else {
                0int
            }),
            neg == (token@.len() > 0 && token@[0] == '-'),
            digits_in(token@, bs as int, j as int),
            acc == int_min(digits_val(token@, bs as int, j as int), 3000000000),
        decreases n - j,
    {
        let u = token[j] as u32;
        if u < 48 || u > 57 {
            assert(!is_digit(token@[j as int]));
            assert(!digits_in(token@, bs as int, n as int));
            return false;
        }
        assert(is_digit(token@[j as int]));
        let d: u64 = (u - 48) as u64;
        proof {
            let ghost v = digits_val(token@, bs as int, j as int);
            assert(digits_val(token@, bs as int, j + 1 as int) == v * 10 + digit_val(
                token@[j as int],
            ));
            if v >= 3000000000 {
                assert(v * 10 >= 3000000000 * 10) by (nonlinear_arith)
                    requires
                        v >= 3000000000,
                ;
            }
        }
        acc = acc * 10 + d;
        if acc > 3000000000 {
            acc = 3000000000;
        }
        j += 1;
    }
    let bound: u64 = if neg {
        2147483648
    } else {
        2147483647
    };
    acc <= bound
}

fn is_float(token: &Vec<char>) -> (r: bool)
    ensures
        r == is_float_word(token@),
{
    let n = token.len();
    let has_sign = n > 0 && (token[0] == '+' || token[0] == '-');
    let bs: usize = if has_sign {
        1
    } else {
        0
    };
    if n <= bs {
        return false;
    }
    if n - bs == 3 {
        let c0 = token[bs];
        let c1 = token[bs + 1];
        let c2 = token[bs + 2];
        if (c0 == 'i' || c0 == 'I') && (c1 == 'n' || c1 == 'N') && (c2 == 'f' || c2 == 'F') {
            return true;
        }
        if (c0 == 'n' || c0 == 'N') && (c1 == 'a' || c1 == 'A') && (c2 == 'n' || c2 == 'N') {
            return true;
        }
    }
    if n - bs == 8 {
        let ok = (token[bs] == 'i' || token[bs] == 'I') && (token[bs + 1] == 'n' || token[bs + 1]
            == 'N') && (token[bs + 2] == 'f' || token[bs + 2] == 'F') && (token[bs + 3] == 'i'
            || token[bs + 3] == 'I') && (token[bs + 4] == 'n' || token[bs + 4] == 'N') && (
        token[bs + 5] == 'i' || token[bs + 5] == 'I') && (token[bs + 6] == 't' || token[bs + 6]
            == 'T') && (token[bs + 7] == 'y' || token[bs + 7] == 'Y');
        if ok {
            return true;
        }
    }
    assert(!is_inf_nan_at(token@, bs as int));
    let e = find_char(token, bs, CharClass::ExpMark);
    let m_end = if e < n {
        e
    } else {
        n
    };
    let d = find_char(token, bs, CharClass::Dot);
    let mant_ok = if d >= m_end {
        m_end - bs >= 1 && digits_range(token, bs, m_end)
    } else {
        digits_range(token, bs, d) && digits_range(token, d + 1, m_end) && m_end - bs >= 2
    };
    if !mant_ok {
        return false;
    }
    if e >= n {
        return true;
    }
    let mut a2 = e + 1;
    if a2 < n && (token[a2] == '+' || token[a2] == '-') {
        a2 += 1;
    }
    n - a2 >= 1 && digits_range(token, a2, n)
}

fn is_keyword(token: &Vec<char>) -> (r: bool)
    ensures
        r == is_keyword_word(token@),
{
    let n = token.len();
    if n == 3 && token[0] == 'l' && token[1] == 'e' && token[2] == 't' {
        true
    } else if n == 2 && token[0] == 'i' && token[1] == 'f' {
        true
    } else if n == 4 && token[0] == 'e' && token[1] == 'l' && token[2] == 's' && token[3] == 'e' {
        true
    } else if n == 3 && token[0] == 'f' && token[1] == 'o' && token[2] == 'r' {
        true
    } else if n == 2 && token[0] == 'f' && token[1] == 'n' {
        true
    } else if n == 6 && token[0] == 'r' && token[1] == 'e' && token[2] == 't' && token[3] == 'u'
        && token[4] == 'r' && token[5] == 'n' {
        true
    } else {
        false
    }
}

/// Copies the characters of `v` in `[a, b)` into a fresh vector.
pub(crate) fn copy_range(v: &Vec<char>, a: usize, b: usize) -> (r: Vec<char>)
    requires
        a <= b <= v.len(),
    ensures
        r@ == v@.subrange(a as int, b as int),
{
    let mut r: Vec<char> = Vec::new();
    let mut j = a;
    while j < b
        invariant
            a <= j <= b <= v.len(),
            r@ == v@.subrange(a as int, j as int),
        decreases b - j,
    {
        r.push(v[j]);
        proof {
            assert(v@.subrange(a as int, j + 1) =~= v@.subrange(a as int, j as int).push(
                v@[j as int],
            ));
        }
        j += 1;
    }
    r
}

/// The code points of `src`, collected into a vector.
fn chars_of(src: &str) -> (v: Vec<char>)
    ensures
        v@ == src@,
{
    let mut v: Vec<char> = Vec::new();
    for c in it: src.chars()
        invariant
            v@ == it.seq().take(it.index() as int),
    {
        proof {
            assert(it.seq().take(it.index() + 1) =~= it.seq().take(it.index() as int).push(
                it.seq()[it.index() as int],
            ));
        }
        v.push(c);
    }
    proof {
        assert(v@ =~= src@);
    }
    v
}

/// The scanner's cursor: the code points of the source and the position of
/// the scan within them.
struct Context {
    chars: Vec<char>,
    ptr: usize,
}

impl Context {
    fn new(src: &str) -> (c: Context)
        ensures
            c.chars@ == src@,
            c.ptr == 0,
    {
        let vec = chars_of(src);
        Context { chars: vec, ptr: 0 }
    }

    /// Moves the cursor forward to the first character of class `k`, or to
    /// the end of the input if there is none.
    fn skip_to_(&mut self, k: CharClass)
        requires
            old(self).ptr <= old(self).chars.len(),
        ensures
            final(self).chars == old(self).chars,
            final(self).ptr as int == find_from(old(self).chars@, old(self).ptr as int, k),
            old(self).ptr <= final(self).ptr <= final(self).chars.len(),
    {
        let j = find_char(&self.chars, self.ptr, k);
        self.ptr = j;
    }

    fn finished(&self) -> (r: bool)
        ensures
            r == (self.ptr >= self.chars.len()),
    {
        self.ptr >= self.chars.len()
    }
}

/// Turns the source text into its sequence of tokens, or reports the first
/// lexical error. The result is exactly what the specification [`sp_lex`]
/// says of the source's code points, scanned from the beginning.
pub fn lex(src: &str) -> (r: Result<Vec<Token>, LexError>)
    ensures
        match r {
            Ok(toks) => sp_lex(src@, 0) == Ok::<Seq<TokenModel>, LexError>(views_of(toks@)),
            Err(e) => sp_lex(src@, 0) == Err::<Seq<TokenModel>, LexError>(e),
        },
{
    let ghost s = src@;
    let mut ctx = Context::new(src);
    let mut tokens: Vec<Token> = Vec::new();
    while !ctx.finished()
        invariant
            s == src@,
            ctx.chars@ == s,
            ctx.ptr <= ctx.chars.len(),
            prepend_tokens(views_of(tokens@), sp_lex(s, ctx.ptr as int)) == sp_lex(s, 0),
        decreases ctx.chars.len() - ctx.ptr,
    {
        let start: usize = ctx.ptr;
        let ghost ts = views_of(tokens@);
        let c = ctx.chars[ctx.ptr];

        if blank(c) {
            ctx.ptr = ctx.ptr + 1;
            proof {
                assert(sp_lex(s, start as int) == sp_lex(s, start as int + 1));
            }
        } else if quote(c) {
            ctx.ptr = ctx.ptr + 1;
            ctx.skip_to_(CharClass::Quote);
            proof {
                lemma_find_from(s, start as int + 1, CharClass::Quote);
            }
            if ctx.finished() {
                proof {
                    assert(sp_lex(s, start as int) == Err::<Seq<TokenModel>, LexError>(
                        LexError::UnterminatedString(start),
                    ));
                }
                return Err(LexError::UnterminatedString(start));
            }
            let value = copy_range(&ctx.chars, start, ctx.ptr + 1);
            let length = ctx.ptr + 1 - start;
            let tok = Token { ty: TokenType::Str, value, span: Span { start, length } };
            let ghost j = ctx.ptr as int;
            tokens.push(tok);
            ctx.ptr = ctx.ptr + 1;
            proof {
                assert(sp_lex(s, start as int) == prepend_tokens(
                    seq![tok@],
                    sp_lex(s, j + 1),
                ));
                lemma_prepend_step(ts, tok@, sp_lex(s, j + 1), sp_lex(s, start as int));
                assert(views_of(tokens@) =~= ts.push(tok@));
            }
        } else if c == '/' {
            if ctx.ptr == ctx.chars.len() - 1 {
                proof {
                    assert(sp_lex(s, start as int) == Err::<Seq<TokenModel>, LexError>(
                        LexError::DanglingSlash(start),
                    ));
                }
                return Err(LexError::DanglingSlash(start));
            } else if ctx.chars[ctx.ptr + 1] == '/' {
                // A line comment: no token is emitted for it.
                ctx.skip_to_(CharClass::Newline);
                proof {
                    lemma_find_from(s, start as int, CharClass::Newline);
                }
                if !ctx.finished() {
                    ctx.ptr = ctx.ptr + 1;
                }
                proof {
                    assert(sp_lex(s, start as int) == sp_lex(s, ctx.ptr as int));
                }
            } else {
                let value = copy_range(&ctx.chars, start, start + 1);
                proof {
                    assert(value@ =~= seq!['/']);
                }
                let tok = Token {
                    ty: TokenType::Operator,
                    value,
                    span: Span { start, length: 1 },
                };
                tokens.push(tok);
                ctx.ptr = ctx.ptr + 1;
                proof {
                    assert(sp_lex(s, start as int) == prepend_tokens(
                        seq![tok@],
                        sp_lex(s, start as int + 1),
                    ));
                    lemma_prepend_step(
                        ts,
                        tok@,
                        sp_lex(s, start as int + 1),
                        sp_lex(s, start as int),
                    );
                    assert(views_of(tokens@) =~= ts.push(tok@));
                }
            }
        } else {
            ctx.skip_to_(CharClass::Blank);
            proof {
                lemma_find_from(s, start as int, CharClass::Blank);
            }
            let ghost j = ctx.ptr as int;
            let value = copy_range(&ctx.chars, start, ctx.ptr);
            let ty = if is_symbol(&value) {
                TokenType::Symbol
            } else if is_operator(&value) {
                TokenType::Operator
            } else if is_integer(&value) {
                TokenType::Integer
            } else if is_float(&value) {
                TokenType::Float
            } else if is_keyword(&value) {
                TokenType::Keyword
            } else {
                TokenType::Ident
            };
            let length = ctx.ptr - start;
            let tok = Token { ty, value, span: Span { start, length } };
            tokens.push(tok);
            if !ctx.finished() {
                ctx.ptr = ctx.ptr + 1;
            }
            proof {
                assert(tok@.ty == classify_word(s.subrange(start as int, j)));
                assert(sp_lex(s, start as int) == prepend_tokens(
                    seq![tok@],
                    sp_lex(s, ctx.ptr as int),
                ));
                lemma_prepend_step(ts, tok@, sp_lex(s, ctx.ptr as int), sp_lex(s, start as int));
                assert(views_of(tokens@) =~= ts.push(tok@));
            }
        }
    }
    proof {
        assert(sp_lex(s, ctx.ptr as int) == Ok::<Seq<TokenModel>, LexError>(Seq::empty()));
        assert(views_of(tokens@) + Seq::<TokenModel>::empty() =~= views_of(tokens@));
    }
    Ok(tokens)
}

/// The token's span lies within the source, is not empty, and its text is
/// exactly the source at that span.
pub open spec fn token_wf(s: Seq<char>, t: TokenModel) -> bool {
    &&& 0 <= t.start
    &&& 1 <= t.length
    &&& t.start + t.length <= s.len()
    &&& t.value == s.subrange(t.start, t.start + t.length)
}

/// Position `p` lies inside the token's span.
pub open spec fn token_covers(t: TokenModel, p: int) -> bool {
    t.start <= p < t.start + t.length
}

/// The character at `p` is a space or a newline.
pub open spec fn blank_at(s: Seq<char>, p: int) -> bool {
    s[p] == ' ' || s[p] == '\n'
}

/// Position `p` lies in a line comment: some `//` opens at or before `p`
/// with no newline between its start and `p`.
pub open spec fn comment_at(s: Seq<char>, p: int) -> bool {
    exists|c: int|
        0 <= c <= p && #[trigger] s[c] == '/' && c + 1 < s.len() && s[c + 1] == '/' && (forall|
        q: int,
    |
            c <= q <= p ==> #[trigger] s[q] != '\n')
}

/// Position `p` is accounted for: inside some token's span, or skipped as a
/// blank or as part of a comment.
pub open spec fn position_covered(s: Seq<char>, toks: Seq<TokenModel>, p: int) -> bool {
    ||| exists|k: int| 0 <= k < toks.len() && token_covers(#[trigger] toks[k], p)
    ||| blank_at(s, p)
    ||| comment_at(s, p)
}

/// The tokens are all well formed, start at or after `i`, and their spans
/// come in order without overlap.
#[verifier::opaque]
pub open spec fn spans_ok(s: Seq<char>, i: int, toks: Seq<TokenModel>) -> bool {
    &&& forall|k: int| 0 <= k < toks.len() ==> token_wf(s, #[trigger] toks[k])
    &&& forall|k: int| 0 <= k < toks.len() ==> i <= (#[trigger] toks[k]).start
    &&& forall|k: int|
        0 <= k < toks.len() - 1 ==> (#[trigger] toks[k]).start + toks[k].length <= toks[k
            + 1].start
}

/// Ordered spans seen from `i2` are ordered spans seen from any `i` before.
proof fn lemma_spans_ok_mono(s: Seq<char>, i: int, i2: int, toks: Seq<TokenModel>)
    requires
        i <= i2,
        spans_ok(s, i2, toks),
    ensures
        spans_ok(s, i, toks),
{
    reveal(spans_ok);
}

/// Putting a well-formed token whose span ends by `next` in front of
/// well-formed tokens that all start at or after `next` keeps every token
/// well formed, in order and without overlap.
proof fn lemma_spans_cons(s: Seq<char>, t: TokenModel, rest: Seq<TokenModel>, i: int, next: int)
    requires
        token_wf(s, t),
        t.start == i,
        t.start + t.length <= next,
        spans_ok(s, next, rest),
    ensures
        spans_ok(s, i, seq![t] + rest),
{
    reveal(spans_ok);
    let toks = seq![t] + rest;
    assert(toks[0] == t);
    assert(forall|k: int| 1 <= k < toks.len() ==> toks[k] == rest[k - 1]);
}

/// Without tokens there is nothing to bound or to order.
proof fn lemma_spans_ok_empty(s: Seq<char>, i: int)
    ensures
        spans_ok(s, i, Seq::<TokenModel>::empty()),
{
    reveal(spans_ok);
}

/// The inductive heart of the span law: every token emitted from position
/// `i` onward is well formed, starts at or after `i`, and the spans come in
/// order without overlap.
#[verifier::rlimit(80)]
proof fn lemma_lex_spans_from(s: Seq<char>, i: int)
    requires
        0 <= i <= s.len(),
    ensures
        sp_lex(s, i) matches Ok(toks) ==> spans_ok(s, i, toks),
    decreases s.len() - i,
{
    if i >= s.len() {
        lemma_spans_ok_empty(s, i);
        return ;
    }
    let c = s[i];
    if c == ' ' || c == '\n' {
        lemma_lex_spans_from(s, i + 1);
        match sp_lex(s, i + 1) {
            Ok(toks) => lemma_spans_ok_mono(s, i, i + 1, toks),
            Err(_) => (),
        }
    } else if c == '"' {
        let j = find_from(s, i + 1, CharClass::Quote);
        lemma_find_from(s, i + 1, CharClass::Quote);
        if j < s.len() {
            lemma_lex_spans_from(s, j + 1);
            let t = TokenModel {
                ty: TokenType::Str,
                value: s.subrange(i, j + 1),
                start: i,
                length: j + 1 - i,
            };
            match sp_lex(s, j + 1) {
                Ok(rest) => {
                    assert(token_wf(s, t));
                    lemma_spans_cons(s, t, rest, i, j + 1);
                },
                Err(_) => {},
            }
        }
    } else if c == '/' {
        if i == s.len() - 1 {
        } else if s[i + 1] == '/' {
            let j = find_from(s, i, CharClass::Newline);
            lemma_find_from(s, i, CharClass::Newline);
            let next = if j < s.len() {
                j + 1
            } else {
                j
            };
            lemma_lex_spans_from(s, next);
            match sp_lex(s, next) {
                Ok(toks) => lemma_spans_ok_mono(s, i, next, toks),
                Err(_) => (),
            }
        } else {
            lemma_lex_spans_from(s, i + 1);
            let t = TokenModel { ty: TokenType::Operator, value: seq!['/'], start: i, length: 1 };
            match sp_lex(s, i + 1) {
                Ok(rest) => {
                    assert(t.value =~= s.subrange(i, i + 1));
                    assert(token_wf(s, t));
                    lemma_spans_cons(s, t, rest, i, i + 1);
                },
                Err(_) => {},
            }
        }
    } else {
        let j = find_from(s, i, CharClass::Blank);
        lemma_find_from(s, i, CharClass::Blank);
        let next = if j < s.len() {
            j + 1
        } else {
            j
        };
        lemma_lex_spans_from(s, next);
        let w = s.subrange(i, j);
        let t = TokenModel { ty: classify_word(w), value: w, start: i, length: j - i };
        match sp_lex(s, next) {
            Ok(rest) => {
                assert(token_wf(s, t));
                lemma_spans_cons(s, t, rest, i, next);
            },
            Err(_) => {},
        }
    }
}

/// The inductive heart of the coverage law: every position from `i` to the
/// end of the source is inside some emitted token's span, or skipped as a
/// blank or as part of a comment.
#[verifier::rlimit(80)]
proof fn lemma_lex_cover_from(s: Seq<char>, i: int)
    requires
        0 <= i <= s.len(),
    ensures
        sp_lex(s, i) matches Ok(toks) ==> forall|p: int|
            i <= p < s.len() ==> position_covered(s, toks, p),
    decreases s.len() - i,
{
    if i >= s.len() {
        return ;
    }
    let c = s[i];
    if c == ' ' || c == '\n' {
        lemma_lex_cover_from(s, i + 1);
        assert(blank_at(s, i));
    } else if c == '"' {
        let j = find_from(s, i + 1, CharClass::Quote);
        lemma_find_from(s, i + 1, CharClass::Quote);
        if j < s.len() {
            lemma_lex_cover_from(s, j + 1);
            let t = TokenModel {
                ty: TokenType::Str,
                value: s.subrange(i, j + 1),
                start: i,
                length: j + 1 - i,
            };
            match sp_lex(s, j + 1) {
                Ok(rest) => {
                    let toks = seq![t] + rest;
                    assert(toks[0] == t);
                    assert forall|p: int| i <= p < s.len() implies position_covered(
                        s,
                        toks,
                        p,
                    ) by {
                        if p <= j {
                            assert(token_covers(toks[0], p));
                        } else {
                            lemma_covered_cons(s, t, rest, p);
                        }
                    }
                },
                Err(_) => {},
            }
        }
    } else if c == '/' {
        if i == s.len() - 1 {
        } else if s[i + 1] == '/' {
            let j = find_from(s, i, CharClass::Newline);
            lemma_find_from(s, i, CharClass::Newline);
            let next = if j < s.len() {
                j + 1
            } else {
                j
            };
            lemma_lex_cover_from(s, next);
            match sp_lex(s, next) {
                Ok(toks) => {
                    assert forall|p: int| i <= p < s.len() implies position_covered(
                        s,
                        toks,
                        p,
                    ) by {
                        if p < j {
                            assert(s[i] == '/' && s[i + 1] == '/' && (forall|q: int|
                                i <= q <= p ==> s[q] != '\n'));
                            assert(comment_at(s, p));
                        } else if p == j {
                            assert(blank_at(s, p));
                        } else {
                            assert(position_covered(s, toks, p));
                        }
                    }
                },
                Err(_) => {},
            }
        } else {
            lemma_lex_cover_from(s, i + 1);
            let t = TokenModel { ty: TokenType::Operator, value: seq!['/'], start: i, length: 1 };
            match sp_lex(s, i + 1) {
                Ok(rest) => {
                    let toks = seq![t] + rest;
                    assert(toks[0] == t);
                    assert forall|p: int| i <= p < s.len() implies position_covered(
                        s,
                        toks,
                        p,
                    ) by {
                        if p == i {
                            assert(token_covers(toks[0], p));
                        } else {
                            lemma_covered_cons(s, t, rest, p);
                        }
                    }
                },
                Err(_) => {},
            }
        }
    } else {
        let j = find_from(s, i, CharClass::Blank);
        lemma_find_from(s, i, CharClass::Blank);
        let next = if j < s.len() {
            j + 1
        } else {
            j
        };
        lemma_lex_cover_from(s, next);
        let w = s.subrange(i, j);
        let t = TokenModel { ty: classify_word(w), value: w, start: i, length: j - i };
        match sp_lex(s, next) {
            Ok(rest) => {
                let toks = seq![t] + rest;
                assert(toks[0] == t);
                assert forall|p: int| i <= p < s.len() implies position_covered(s, toks, p) by {
                    if p < j {
                        assert(token_covers(toks[0], p));
                    } else if p == j {
                        assert(matches_class(s[j], CharClass::Blank));
                        assert(blank_at(s, p));
                    } else {
                        lemma_covered_cons(s, t, rest, p);
                    }
                }
            },
            Err(_) => {},
        }
    }
}

/// A position covered among `rest` stays covered when a token is put in
/// front of `rest`.
proof fn lemma_covered_cons(s: Seq<char>, t: TokenModel, rest: Seq<TokenModel>, p: int)
    requires
        position_covered(s, rest, p),
    ensures
        position_covered(s, seq![t] + rest, p),
{
    let toks = seq![t] + rest;
    if exists|k: int| 0 <= k < rest.len() && token_covers(#[trigger] rest[k], p) {
        let k = choose|k: int| 0 <= k < rest.len() && token_covers(#[trigger] rest[k], p);
        assert(toks[k + 1] == rest[k]);
        assert(token_covers(toks[k + 1], p));
    }
}

/// Round-trip of spans: every token of a successful scan carries as its text
/// exactly the source's code points at its span, and the span lies within
/// the source.
#[verifier::rlimit(40)]
pub proof fn lemma_token_spans(s: Seq<char>)
    ensures
        sp_lex(s, 0) matches Ok(toks) ==> forall|k: int|
            0 <= k < toks.len() ==> {
                &&& 0 <= (#[trigger] toks[k]).start
                &&& 1 <= toks[k].length
                &&& toks[k].start + toks[k].length <= s.len()
                &&& toks[k].value == s.subrange(toks[k].start, toks[k].start + toks[k].length)
            },
{
    lemma_lex_spans_from(s, 0);
    reveal(spans_ok);
}

/// Total coverage: the spans of a successful scan appear in non-decreasing
/// order without overlap, and every position of the source is inside some
/// token's span or skipped as a blank or as part of a comment.
#[verifier::rlimit(40)]
pub proof fn lemma_total_coverage(s: Seq<char>)
    ensures
        sp_lex(s, 0) matches Ok(toks) ==> {
            &&& forall|k: int|
                0 <= k < toks.len() - 1 ==> (#[trigger] toks[k]).start + toks[k].length <= toks[k
                    + 1].start
            &&& forall|p: int| 0 <= p < s.len() ==> position_covered(s, toks, p)
        },
{
    lemma_lex_spans_from(s, 0);
    lemma_lex_cover_from(s, 0);
    reveal(spans_ok);
}

} // verus!

//! The sandboxed expression language of action value templates.
//!
//! A template such as `{{ annual_income * 3 }}` is tokenised, its field
//! references are replaced by the values they resolve to in the context,
//! the tokens are parsed by precedence climbing (a tree deeper than 16
//! nodes is refused) and the tree is evaluated with checked arithmetic. There are no
//! function calls, loops or identifiers left at evaluation time.
use vstd::prelude::*;
use crate::error::{EvaluationError, EvalErrorView};
use crate::json::{Value, JValue, values_equal, to_json_string, json_text};
use crate::number::{
    Number, spec_make, make, num_add, num_sub, num_mul, num_div, num_rem, num_neg, spec_add,
    spec_sub, spec_mul, spec_div, spec_rem, spec_neg, num_order, compare_numbers, number_text,
    push_number,
};
use crate::resolver::{resolve, resolve_owned, digits_value, all_digits};
use crate::text::{
    Ord3, lex_order, chars_of, compare_chars, string_from_chars, slice_to_vec_range, push_char,
    push_str, is_digit, digit_value, first_index_of, lemma_first_index_of, is_white_space,
    char_is_white_space, str_eq,
};

verus! {

/// The deepest nesting of operators and parentheses a template may have.
pub const MAX_DEPTH: usize = 16;

// ---------------------------------------------------------------------------
// Tokens
// ---------------------------------------------------------------------------

/// A token of the expression language.
#[derive(Debug)]
pub enum Token {
    Number(Number),
    Bool(bool),
    Str(String),
    /// A field path, replaced by its value before parsing.
    Ident(String),
    Plus,
    Minus,
    Star,
    Slash,
    Percent,
    EqEq,
    BangEq,
    Lt,
    Gt,
    LtEq,
    GtEq,
    AndAnd,
    OrOr,
    Bang,
    LParen,
    RParen,
}

/// View of a token.
pub enum TokenView {
    Number(Number),
    Bool(bool),
    Str(Seq<char>),
    Ident(Seq<char>),
    Plus,
    Minus,
    Star,
    Slash,
    Percent,
    EqEq,
    BangEq,
    Lt,
    Gt,
    LtEq,
    GtEq,
    AndAnd,
    OrOr,
    Bang,
    LParen,
    RParen,
}

impl View for Token {
    type V = TokenView;

    open spec fn view(&self) -> TokenView {
        match self {
            Token::Number(n) => TokenView::Number(*n),
            Token::Bool(b) => TokenView::Bool(*b),
            Token::Str(s) => TokenView::Str(s@),
            Token::Ident(s) => TokenView::Ident(s@),
            Token::Plus => TokenView::Plus,
            Token::Minus => TokenView::Minus,
            Token::Star => TokenView::Star,
            Token::Slash => TokenView::Slash,
            Token::Percent => TokenView::Percent,
            Token::EqEq => TokenView::EqEq,
            Token::BangEq => TokenView::BangEq,
            Token::Lt => TokenView::Lt,
            Token::Gt => TokenView::Gt,
            Token::LtEq => TokenView::LtEq,
            Token::GtEq => TokenView::GtEq,
            Token::AndAnd => TokenView::AndAnd,
            Token::OrOr => TokenView::OrOr,
            Token::Bang => TokenView::Bang,
            Token::LParen => TokenView::LParen,
            Token::RParen => TokenView::RParen,
        }
    }
}

/// Views of a token list.
pub open spec fn token_views(ts: Seq<Token>) -> Seq<TokenView> {
    ts.map_values(|t: Token| t@)
}

// ---------------------------------------------------------------------------
// Tokenizer specification
// ---------------------------------------------------------------------------

/// Whether `char::is_alphanumeric` holds of `c` (Unicode letters and
/// numbers).
pub uninterp spec fn char_alphanumeric(c: char) -> bool;

/// `char::is_alphanumeric`. The result is `char_alphanumeric(c)`; for an
/// ASCII character it is true exactly for the ASCII letters and digits.
/// Which other characters are letters or numbers is left to the Unicode
/// tables of std.
#[verifier::external_body]
fn is_alphanumeric(c: char) -> (r: bool)
    ensures
        r == char_alphanumeric(c),
        (c as u32) < 128 ==> r == (('a' <= c && c <= 'z') || ('A' <= c && c <= 'Z') || ('0' <= c
            && c <= '9')),
{
    c.is_alphanumeric()
}

/// Characters skipped between tokens.
pub open spec fn is_space(c: char) -> bool {
    c == ' ' || c == '\t' || c == '\n' || c == '\r'
}

pub open spec fn is_number_char(c: char) -> bool {
    is_digit(c) || c == '.'
}

pub open spec fn is_word_char(c: char) -> bool {
    char_alphanumeric(c) || c == '_' || c == '.'
}

/// End of the run of number characters starting at `i`.
pub open spec fn number_end(cs: Seq<char>, i: int) -> int
    decreases cs.len() - i,
{
    if 0 <= i < cs.len() && is_number_char(cs[i]) {
        number_end(cs, i + 1)
    } else {
        i
    }
}

/// End of the run of word characters starting at `i`.
pub open spec fn word_end(cs: Seq<char>, i: int) -> int
    decreases cs.len() - i,
{
    if 0 <= i < cs.len() && is_word_char(cs[i]) {
        word_end(cs, i + 1)
    } else {
        i
    }
}

/// Position of the first `q` at or after `i` (or the end).
pub open spec fn quote_end(cs: Seq<char>, i: int, q: char) -> int
    decreases cs.len() - i,
{
    if 0 <= i < cs.len() && cs[i] != q {
        quote_end(cs, i + 1, q)
    } else {
        i
    }
}

pub open spec fn pow10(n: nat) -> nat
    decreases n,
{
    if n == 0 {
        1
    } else {
        10 * pow10((n - 1) as nat)
    }
}

/// A number literal: digits with at most one decimal point and at least one
/// digit. `None` when the text is not such a literal; `Some(None)` when its
/// exact value does not fit the number representation (more than 38
/// significant digits, or a reduced value out of range).
pub open spec fn decimal_literal(s: Seq<char>) -> Option<Option<Number>> {
    let (ip, fp) = match first_index_of(s, '.') {
        Some(k) => (s.take(k), s.skip(k + 1)),
        None => (s, Seq::<char>::empty()),
    };
    if all_digits(ip) && all_digits(fp) && ip.len() + fp.len() > 0 {
        let v = digits_value(ip + fp);
        let d = pow10(fp.len());
        if v <= i128::MAX && d <= u128::MAX {
            Some(spec_make(v as int, d as int, true))
        } else {
            Some(None)
        }
    } else {
        None
    }
}

/// Result of reading at one position.
pub enum Lexed {
    Skip(int),
    Tok(TokenView, int),
    Fail(EvalErrorView),
}

pub open spec fn next_is(cs: Seq<char>, i: int, c: char) -> bool {
    i + 1 < cs.len() && cs[i + 1] == c
}

/// Reads the token at position `i` (`0 <= i < cs.len()`).
pub open spec fn lex_at(cs: Seq<char>, i: int) -> Lexed {
    let c = cs[i];
    if is_space(c) {
        Lexed::Skip(i + 1)
    } else if c == '+' {
        Lexed::Tok(TokenView::Plus, i + 1)
    } else if c == '-' {
        Lexed::Tok(TokenView::Minus, i + 1)
    } else if c == '*' {
        Lexed::Tok(TokenView::Star, i + 1)
    } else if c == '/' {
        Lexed::Tok(TokenView::Slash, i + 1)
    } else if c == '%' {
        Lexed::Tok(TokenView::Percent, i + 1)
    } else if c == '(' {
        Lexed::Tok(TokenView::LParen, i + 1)
    } else if c == ')' {
        Lexed::Tok(TokenView::RParen, i + 1)
    } else if c == '!' {
        if next_is(cs, i, '=') {
            Lexed::Tok(TokenView::BangEq, i + 2)
        } else {
            Lexed::Tok(TokenView::Bang, i + 1)
        }
    } else if c == '=' && next_is(cs, i, '=') {
        Lexed::Tok(TokenView::EqEq, i + 2)
    } else if c == '<' {
        if next_is(cs, i, '=') {
            Lexed::Tok(TokenView::LtEq, i + 2)
        } else {
            Lexed::Tok(TokenView::Lt, i + 1)
        }
    } else if c == '>' {
        if next_is(cs, i, '=') {
            Lexed::Tok(TokenView::GtEq, i + 2)
        } else {
            Lexed::Tok(TokenView::Gt, i + 1)
        }
    } else if c == '&' && next_is(cs, i, '&') {
        Lexed::Tok(TokenView::AndAnd, i + 2)
    } else if c == '|' && next_is(cs, i, '|') {
        Lexed::Tok(TokenView::OrOr, i + 2)
    } else if c == '"' || c == '\'' {
        let e = quote_end(cs, i + 1, c);
        Lexed::Tok(TokenView::Str(cs.subrange(i + 1, e)), e + 1)
    } else if is_digit(c) || (c == '.' && i + 1 < cs.len() && is_digit(cs[i + 1])) {
        let e = number_end(cs, i);
        match decimal_literal(cs.subrange(i, e)) {
            Some(Some(n)) => Lexed::Tok(TokenView::Number(n), e),
            Some(None) => Lexed::Fail(EvalErrorView::Overflow),
            None => Lexed::Fail(EvalErrorView::Expression("invalid number literal"@)),
        }
    } else if is_word_char(c) {
        let e = word_end(cs, i);
        let w = cs.subrange(i, e);
        let t = if w == "true"@ {
            TokenView::Bool(true)
        } else if w == "false"@ {
            TokenView::Bool(false)
        } else {
            TokenView::Ident(w)
        };
        Lexed::Tok(t, e)
    } else {
        Lexed::Fail(EvalErrorView::Expression("unexpected character: '"@ + seq![c] + "'"@))
    }
}

/// The tokens of `cs` from position `i` on, or the first error.
pub open spec fn tokens_from(cs: Seq<char>, i: int) -> Result<Seq<TokenView>, EvalErrorView>
    decreases cs.len() + 1 - i,
{
    if i < 0 || i >= cs.len() {
        Ok(Seq::empty())
    } else {
        match lex_at(cs, i) {
            Lexed::Skip(j) => if i < j <= cs.len() + 1 {
                tokens_from(cs, j)
            } else {
                Ok(Seq::empty())
            },
            Lexed::Tok(t, j) => if i < j <= cs.len() + 1 {
                match tokens_from(cs, j) {
                    Ok(rest) => Ok(seq![t] + rest),
                    Err(e) => Err(e),
                }
            } else {
                Ok(Seq::empty())
            },
            Lexed::Fail(e) => Err(e),
        }
    }
}

/// The tokens of a text.
pub open spec fn tokenize_spec(s: Seq<char>) -> Result<Seq<TokenView>, EvalErrorView> {
    tokens_from(s, 0)
}

// ---------------------------------------------------------------------------
// Tokenizer
// ---------------------------------------------------------------------------

fn char_is_digit(c: char) -> (r: bool)
    ensures
        r == is_digit(c),
{
    let u = c as u32;
    ('0' as u32) <= u && u <= ('9' as u32)
}

fn scan_number_end(cs: &Vec<char>, i: usize) -> (r: usize)
    requires
        i <= cs@.len(),
    ensures
        r as int == number_end(cs@, i as int),
        i <= r <= cs@.len(),
    decreases cs@.len() - i,
{
    if i < cs.len() && (char_is_digit(cs[i]) || cs[i] == '.') {
        scan_number_end(cs, i + 1)
    } else {
        i
    }
}

fn scan_word_end(cs: &Vec<char>, i: usize) -> (r: usize)
    requires
        i <= cs@.len(),
    ensures
        r as int == word_end(cs@, i as int),
        i <= r <= cs@.len(),
    decreases cs@.len() - i,
{
    if i < cs.len() && (is_alphanumeric(cs[i]) || cs[i] == '_' || cs[i] == '.') {
        scan_word_end(cs, i + 1)
    } else {
        i
    }
}

fn scan_quote_end(cs: &Vec<char>, i: usize, q: char) -> (r: usize)
    requires
        i <= cs@.len(),
    ensures
        r as int == quote_end(cs@, i as int, q),
        i <= r <= cs@.len(),
    decreases cs@.len() - i,
{
    if i < cs.len() && cs[i] != q {
        scan_quote_end(cs, i + 1, q)
    } else {
        i
    }
}

/// Value of a digit string, if it fits `u128`.
fn digits_to_u128(d: &[char]) -> (r: Option<u128>)
    requires
        all_digits(d@),
    ensures
        match r {
            Some(v) => v as int == digits_value(d@),
            None => digits_value(d@) > u128::MAX,
        },
{
    let n = d.len();
    let mut acc: u128 = 0;
    let mut i: usize = 0;
    while i < n
        invariant
            n == d@.len(),
            i <= n,
            all_digits(d@),
            acc as int == digits_value(d@.take(i as int)),
        decreases n - i,
    {
        let c = d[i];
        assert(is_digit(d@[i as int]));
        let dv = ((c as u32) - ('0' as u32)) as u128;
        proof {
            assert(d@.take(i + 1) =~= d@.take(i as int).push(c));
            crate::resolver::lemma_digits_value_push(d@.take(i as int), c);
        }
        match acc.checked_mul(10) {
            Some(m) => match m.checked_add(dv) {
                Some(x) => {
                    acc = x;
                },
                None => {
                    proof {
                        crate::resolver::lemma_digits_value_mono(d@, i + 1);
                    }
                    return None;
                },
            },
            None => {
                proof {
                    crate::resolver::lemma_digits_value_mono(d@, i + 1);
                }
                return None;
            },
        }
        i = i + 1;
    }
    assert(d@.take(n as int) =~= d@);
    Some(acc)
}

proof fn lemma_pow10_mono(a: nat, b: nat)
    requires
        a <= b,
    ensures
        pow10(a) <= pow10(b),
    decreases b,
{
    if a < b {
        lemma_pow10_mono(a, (b - 1) as nat);
    }
}

/// `10^k`, if it fits `u128`.
fn pow10_u128(k: usize) -> (r: Option<u128>)
    ensures
        match r {
            Some(v) => v as int == pow10(k as nat),
            None => pow10(k as nat) > u128::MAX,
        },
{
    let mut acc: u128 = 1;
    let mut i: usize = 0;
    while i < k
        invariant
            i <= k,
            acc as int == pow10(i as nat),
        decreases k - i,
    {
        match acc.checked_mul(10) {
            Some(x) => {
                acc = x;
            },
            None => {
                proof {
                    lemma_pow10_mono((i + 1) as nat, k as nat);
                }
                return None;
            },
        }
        i = i + 1;
    }
    Some(acc)
}

fn all_digit_chars(s: &[char]) -> (r: bool)
    ensures
        r == all_digits(s@),
{
    let mut i: usize = 0;
    while i < s.len()
        invariant
            i <= s@.len(),
            forall|k: int| 0 <= k < i ==> is_digit(#[trigger] s@[k]),
        decreases s@.len() - i,
    {
        if !char_is_digit(s[i]) {
            return false;
        }
        i = i + 1;
    }
    true
}

/// Reads a number literal (see `decimal_literal`).
pub fn read_decimal(s: &[char]) -> (r: Option<Option<Number>>)
    ensures
        r == decimal_literal(s@),
{
    proof {
        lemma_first_index_of(s@, '.');
    }
    let sl = s.len();
    let dot = crate::text::find_char_from(s, '.', 0);
    assert(s@.skip(0) =~= s@);
    assert(dot matches Some(k) ==> k < s@.len());
    let (ip, fp) = match dot {
        Some(k) => (slice_to_vec_range(s, 0, k), slice_to_vec_range(s, k + 1, sl)),
        None => (slice_to_vec_range(s, 0, s.len()), Vec::new()),
    };
    proof {
        match first_index_of(s@, '.') {
            Some(k) => {
                assert(ip@ =~= s@.take(k));
                assert(fp@ =~= s@.skip(k + 1));
            },
            None => {
                assert(ip@ =~= s@);
                assert(fp@ =~= Seq::<char>::empty());
            },
        }
    }
    if !all_digit_chars(ip.as_slice()) || !all_digit_chars(fp.as_slice()) || (ip.len() == 0
        && fp.len() == 0) {
        return None;
    }
    let mut all: Vec<char> = Vec::new();
    let mut i: usize = 0;
    while i < ip.len()
        invariant
            i <= ip@.len(),
            all@ == ip@.take(i as int),
        decreases ip@.len() - i,
    {
        all.push(ip[i]);
        assert(ip@.take(i + 1) =~= ip@.take(i as int).push(ip@[i as int]));
        i = i + 1;
    }
    assert(ip@.take(ip@.len() as int) =~= ip@);
    let mut j: usize = 0;
    while j < fp.len()
        invariant
            j <= fp@.len(),
            all@ == ip@ + fp@.take(j as int),
        decreases fp@.len() - j,
    {
        all.push(fp[j]);
        assert(ip@ + fp@.take(j + 1) =~= (ip@ + fp@.take(j as int)).push(fp@[j as int]));
        j = j + 1;
    }
    assert(fp@.take(fp@.len() as int) =~= fp@);
    assert(all_digits(all@)) by {
        assert forall|k: int| 0 <= k < all@.len() implies is_digit(#[trigger] all@[k]) by {
            if k < ip@.len() {
                assert(all@[k] == ip@[k]);
            } else {
                assert(all@[k] == fp@[k - ip@.len()]);
            }
        }
    }
    match (digits_to_u128(all.as_slice()), pow10_u128(fp.len())) {
        (Some(v), Some(d)) => {
            if v > 0x7fff_ffff_ffff_ffff_ffff_ffff_ffff_ffff {
                Some(None)
            } else {
                Some(make(v as i128, d, true))
            }
        },
        _ => Some(None),
    }
}

/// Executable counterpart of `Lexed`.
enum LexStep {
    Skip(usize),
    Tok(Token, usize),
    Fail(EvaluationError),
}

fn single(t: Token, i: usize, cs: &Vec<char>) -> (r: LexStep)
    requires
        i < cs@.len(),
    ensures
        r matches LexStep::Tok(t2, j) && t2 == t && j == i + 1,
{
    let _n = cs.len();
    LexStep::Tok(t, i + 1)
}

/// Reads the token at position `i`.
fn lex_step(cs: &Vec<char>, i: usize) -> (r: LexStep)
    requires
        i < cs@.len(),
    ensures
        match r {
            LexStep::Skip(j) => lex_at(cs@, i as int) == Lexed::Skip(j as int) && j <= cs@.len(),
            LexStep::Tok(t, j) => j <= cs@.len() && match lex_at(cs@, i as int) {
                Lexed::Tok(t2, j2) => t2 == t@ && (j2 == j || (j == cs@.len() && j2 == cs@.len()
                    + 1)),
                _ => false,
            },
            LexStep::Fail(e) => lex_at(cs@, i as int) == Lexed::Fail(e@),
        },
        r matches LexStep::Skip(j) ==> j > i,
        r matches LexStep::Tok(_, j) ==> j > i,
{
    let n = cs.len();
    let c = cs[i];
    let next_eq = i + 1 < n && cs[i + 1] == '=';
    if c == ' ' || c == '\t' || c == '\n' || c == '\r' {
        LexStep::Skip(i + 1)
    } else if c == '+' {
        single(Token::Plus, i, cs)
    } else if c == '-' {
        single(Token::Minus, i, cs)
    } else if c == '*' {
        single(Token::Star, i, cs)
    } else if c == '/' {
        single(Token::Slash, i, cs)
    } else if c == '%' {
        single(Token::Percent, i, cs)
    } else if c == '(' {
        single(Token::LParen, i, cs)
    } else if c == ')' {
        single(Token::RParen, i, cs)
    } else if c == '!' {
        if next_eq {
            LexStep::Tok(Token::BangEq, i + 2)
        } else {
            LexStep::Tok(Token::Bang, i + 1)
        }
    } else if c == '=' && next_eq {
        LexStep::Tok(Token::EqEq, i + 2)
    } else if c == '<' {
        if next_eq {
            LexStep::Tok(Token::LtEq, i + 2)
        } else {
            LexStep::Tok(Token::Lt, i + 1)
        }
    } else if c == '>' {
        if next_eq {
            LexStep::Tok(Token::GtEq, i + 2)
        } else {
            LexStep::Tok(Token::Gt, i + 1)
        }
    } else if c == '&' && i + 1 < n && cs[i + 1] == '&' {
        LexStep::Tok(Token::AndAnd, i + 2)
    } else if c == '|' && i + 1 < n && cs[i + 1] == '|' {
        LexStep::Tok(Token::OrOr, i + 2)
    } else if c == '"' || c == '\'' {
        let e = scan_quote_end(cs, i + 1, c);
        let body = slice_to_vec_range(cs.as_slice(), i + 1, e);
        let s = string_from_chars(body.as_slice());
        let j = if e < n {
            e + 1
        } else {
            n
        };
        LexStep::Tok(Token::Str(s), j)
    } else if char_is_digit(c) || (c == '.' && i + 1 < n && char_is_digit(cs[i + 1])) {
        let e = scan_number_end(cs, i + 1);
        assert(number_end(cs@, i as int) == number_end(cs@, i + 1));
        let lit = slice_to_vec_range(cs.as_slice(), i, e);
        match read_decimal(lit.as_slice()) {
            Some(Some(v)) => LexStep::Tok(Token::Number(v), e),
            Some(None) => LexStep::Fail(EvaluationError::Overflow),
            None => LexStep::Fail(EvaluationError::Expression(crate::text::owned("invalid number literal"))),
        }
    } else if is_alphanumeric(c) || c == '_' || c == '.' {
        let e = scan_word_end(cs, i + 1);
        assert(word_end(cs@, i as int) == word_end(cs@, i + 1));
        let w = slice_to_vec_range(cs.as_slice(), i, e);
        let ws = string_from_chars(w.as_slice());
        let t = if str_eq(ws.as_str(), "true") {
            Token::Bool(true)
        } else if str_eq(ws.as_str(), "false") {
            Token::Bool(false)
        } else {
            Token::Ident(ws)
        };
        LexStep::Tok(t, e)
    } else {
        let mut m = String::new();
        push_str(&mut m, "unexpected character: '");
        push_char(&mut m, c);
        push_str(&mut m, "'");
        assert(m@ =~= "unexpected character: '"@ + seq![c] + "'"@);
        LexStep::Fail(EvaluationError::Expression(m))
    }
}

/// Splits a template expression into tokens.
pub fn tokenize(src: &str) -> (r: Result<Vec<Token>, EvaluationError>)
    ensures
        match r {
            Ok(ts) => tokenize_spec(src@) == Ok::<Seq<TokenView>, EvalErrorView>(token_views(ts@)),
            Err(e) => tokenize_spec(src@) == Err::<Seq<TokenView>, EvalErrorView>(e@),
        },
{
    let cs = chars_of(src);
    let n = cs.len();
    let mut out: Vec<Token> = Vec::new();
    let mut i: usize = 0;
    assert(token_views(out@) =~= Seq::<TokenView>::empty());
    while i < n
        invariant
            n == cs@.len(),
            cs@ == src@,
            i <= n,
            match tokens_from(cs@, i as int) {
                Ok(rest) => tokens_from(cs@, 0) == Ok::<Seq<TokenView>, EvalErrorView>(
                    token_views(out@) + rest,
                ),
                Err(e) => tokens_from(cs@, 0) == Err::<Seq<TokenView>, EvalErrorView>(e),
            },
        decreases n - i,
    {
        match lex_step(&cs, i) {
            LexStep::Skip(j) => {
                i = j;
            },
            LexStep::Tok(t, j) => {
                let ghost tv = t@;
                let ghost before = token_views(out@);
                out.push(t);
                proof {
                    assert(token_views(out@) =~= before.push(tv));
                    match lex_at(cs@, i as int) {
                        Lexed::Tok(t2, j2) => {
                            if j2 != j {
                                assert(tokens_from(cs@, j2) == tokens_from(cs@, j as int));
                            }
                            match tokens_from(cs@, j as int) {
                                Ok(rest) => {
                                    assert(before + (seq![tv] + rest) =~= before.push(tv) + rest);
                                },
                                Err(e) => {},
                            }
                        },
                        _ => {},
                    }
                }
                i = j;
            },
            LexStep::Fail(e) => {
                return Err(e);
            },
        }
    }
    assert(token_views(out@) + Seq::<TokenView>::empty() =~= token_views(out@));
    Ok(out)
}

// ---------------------------------------------------------------------------
// Syntax trees
// ---------------------------------------------------------------------------

/// Binary operators.
#[derive(Debug, Clone, Copy, PartialEq, Eq, Structural)]
pub enum BinOp {
    Add,
    Sub,
    Mul,
    Div,
    Mod,
    EqEq,
    Neq,
    Lt,
    Gt,
    LtEq,
    GtEq,
    And,
    Or,
}

/// Unary operators.
#[derive(Debug, Clone, Copy, PartialEq, Eq, Structural)]
pub enum UnOp {
    Not,
    Neg,
}

/// An expression tree.
#[derive(Debug)]
pub enum Expr {
    Num(Number),
    Bool(bool),
    Str(String),
    BinOp { op: BinOp, left: Box<Expr>, right: Box<Expr> },
    UnOp { op: UnOp, operand: Box<Expr> },
}

/// View of an expression tree.
pub enum ExprView {
    Num(Number),
    Bool(bool),
    Str(Seq<char>),
    Bin(BinOp, Box<ExprView>, Box<ExprView>),
    Un(UnOp, Box<ExprView>),
}

impl Expr {
    pub open spec fn view_rec(&self) -> ExprView
        decreases self,
    {
        match self {
            Expr::Num(n) => ExprView::Num(*n),
            Expr::Bool(b) => ExprView::Bool(*b),
            Expr::Str(s) => ExprView::Str(s@),
            Expr::BinOp { op, left, right } => ExprView::Bin(
                *op,
                Box::new(left.view_rec()),
                Box::new(right.view_rec()),
            ),
            Expr::UnOp { op, operand } => ExprView::Un(*op, Box::new(operand.view_rec())),
        }
    }
}

impl View for Expr {
    type V = ExprView;

    open spec fn view(&self) -> ExprView {
        self.view_rec()
    }
}

// ---------------------------------------------------------------------------
// Parser specification
// ---------------------------------------------------------------------------

/// Outcome of parsing from a position: a tree and the position after it.
pub type ParseOutcome = Result<(ExprView, int), EvalErrorView>;

pub open spec fn depth_error() -> EvalErrorView {
    EvalErrorView::Expression("AST depth limit (16) exceeded"@)
}

/// The binary operator of precedence level `lvl` (7: `||`, 6: `&&`,
/// 5: equality, 4: comparison, 3: additive, 2: multiplicative) that the
/// token at `pos` denotes.
pub open spec fn bin_op_at(ts: Seq<TokenView>, pos: int, lvl: int) -> Option<BinOp> {
    if 0 <= pos < ts.len() {
        let t = ts[pos];
        if lvl == 7 && t is OrOr {
            Some(BinOp::Or)
        } else if lvl == 6 && t is AndAnd {
            Some(BinOp::And)
        } else if lvl == 5 && t is EqEq {
            Some(BinOp::EqEq)
        } else if lvl == 5 && t is BangEq {
            Some(BinOp::Neq)
        } else if lvl == 4 && t is Lt {
            Some(BinOp::Lt)
        } else if lvl == 4 && t is Gt {
            Some(BinOp::Gt)
        } else if lvl == 4 && t is LtEq {
            Some(BinOp::LtEq)
        } else if lvl == 4 && t is GtEq {
            Some(BinOp::GtEq)
        } else if lvl == 3 && t is Plus {
            Some(BinOp::Add)
        } else if lvl == 3 && t is Minus {
            Some(BinOp::Sub)
        } else if lvl == 2 && t is Star {
            Some(BinOp::Mul)
        } else if lvl == 2 && t is Slash {
            Some(BinOp::Div)
        } else if lvl == 2 && t is Percent {
            Some(BinOp::Mod)
        } else {
            None
        }
    } else {
        None
    }
}

/// Name of a token in error messages.
pub open spec fn token_name(t: TokenView) -> Seq<char> {
    match t {
        TokenView::Number(_) => "Number"@,
        TokenView::Bool(_) => "Bool"@,
        TokenView::Str(_) => "Str"@,
        TokenView::Ident(_) => "Ident"@,
        TokenView::Plus => "Plus"@,
        TokenView::Minus => "Minus"@,
        TokenView::Star => "Star"@,
        TokenView::Slash => "Slash"@,
        TokenView::Percent => "Percent"@,
        TokenView::EqEq => "EqEq"@,
        TokenView::BangEq => "BangEq"@,
        TokenView::Lt => "Lt"@,
        TokenView::Gt => "Gt"@,
        TokenView::LtEq => "LtEq"@,
        TokenView::GtEq => "GtEq"@,
        TokenView::AndAnd => "AndAnd"@,
        TokenView::OrOr => "OrOr"@,
        TokenView::Bang => "Bang"@,
        TokenView::LParen => "LParen"@,
        TokenView::RParen => "RParen"@,
    }
}

/// Parses an expression of precedence level `lvl` (2 to 7) at nesting
/// depth `d`.
pub open spec fn p_bin(ts: Seq<TokenView>, pos: int, d: int, lvl: int) -> ParseOutcome
    decreases ts.len() - pos, lvl,
{
    if pos < 0 || pos > ts.len() || lvl < 2 {
        Err(depth_error())
    } else {
        let sub = if lvl == 2 {
            p_unary(ts, pos, d)
        } else {
            p_bin(ts, pos, d, lvl - 1)
        };
        match sub {
            Err(e) => Err(e),
            Ok((l, p)) => if pos < p <= ts.len() {
                p_bin_rest(ts, l, p, d, lvl)
            } else {
                Err(depth_error())
            },
        }
    }
}

/// Continues a level-`lvl` expression whose left operand `left` ends at
/// `pos`: each operator of the level adds a right operand, one level
/// deeper.
pub open spec fn p_bin_rest(
    ts: Seq<TokenView>,
    left: ExprView,
    pos: int,
    d: int,
    lvl: int,
) -> ParseOutcome
    decreases ts.len() - pos, lvl,
{
    if pos < 0 || pos > ts.len() || lvl < 2 {
        Err(depth_error())
    } else {
        match bin_op_at(ts, pos, lvl) {
            None => Ok((left, pos)),
            Some(op) => if d + 1 > 16 {
                Err(depth_error())
            } else {
                let sub = if lvl == 2 {
                    p_unary(ts, pos + 1, d + 1)
                } else {
                    p_bin(ts, pos + 1, d + 1, lvl - 1)
                };
                match sub {
                    Err(e) => Err(e),
                    Ok((r, p2)) => if pos < p2 <= ts.len() {
                        p_bin_rest(ts, ExprView::Bin(op, Box::new(left), Box::new(r)), p2, d, lvl)
                    } else {
                        Err(depth_error())
                    },
                }
            },
        }
    }
}

/// Parses a unary expression: `!` or `-` applied to a unary expression, or
/// a primary expression.
pub open spec fn p_unary(ts: Seq<TokenView>, pos: int, d: int) -> ParseOutcome
    decreases ts.len() - pos, 1int,
{
    if pos < 0 || pos > ts.len() {
        Err(depth_error())
    } else if pos < ts.len() && (ts[pos] is Bang || ts[pos] is Minus) {
        if d + 1 > 16 {
            Err(depth_error())
        } else {
            let op = if ts[pos] is Bang {
                UnOp::Not
            } else {
                UnOp::Neg
            };
            match p_unary(ts, pos + 1, d + 1) {
                Err(e) => Err(e),
                Ok((e, p)) => Ok((ExprView::Un(op, Box::new(e)), p)),
            }
        }
    } else {
        p_primary(ts, pos, d)
    }
}

/// Parses a literal or a parenthesised expression.
pub open spec fn p_primary(ts: Seq<TokenView>, pos: int, d: int) -> ParseOutcome
    decreases ts.len() - pos, 0int,
{
    if pos < 0 || pos > ts.len() {
        Err(depth_error())
    } else if pos == ts.len() {
        Err(EvalErrorView::Expression("unexpected end of expression"@))
    } else {
        match ts[pos] {
            TokenView::Number(n) => Ok((ExprView::Num(n), pos + 1)),
            TokenView::Bool(b) => Ok((ExprView::Bool(b), pos + 1)),
            TokenView::Str(s) => Ok((ExprView::Str(s), pos + 1)),
            TokenView::Ident(_) => Err(
                EvalErrorView::Expression(
                    "unresolved identifier in expression (bug: pre-resolve fields)"@,
                ),
            ),
            TokenView::LParen => if d + 1 > 16 {
                Err(depth_error())
            } else {
                match p_bin(ts, pos + 1, d + 1, 7) {
                    Err(e) => Err(e),
                    Ok((e, p)) => if 0 <= p < ts.len() && ts[p] is RParen {
                        Ok((e, p + 1))
                    } else {
                        Err(EvalErrorView::Expression("expected closing ')'"@))
                    },
                }
            },
            t => Err(EvalErrorView::Expression("unexpected token: "@ + token_name(t))),
        }
    }
}

/// Depth of an expression tree in nodes: a literal is one node deep, and
/// an operator node one deeper than its deepest operand.
pub open spec fn ast_depth(e: ExprView) -> nat
    decreases e,
{
    match e {
        ExprView::Un(_, x) => 1 + ast_depth(*x),
        ExprView::Bin(_, l, r) => {
            let a = ast_depth(*l);
            let b = ast_depth(*r);
            1 + if a >= b {
                a
            } else {
                b
            }
        },
        _ => 1,
    }
}

/// Parses a whole token list; a tree more than 16 nodes deep is refused.
pub open spec fn parse_spec(ts: Seq<TokenView>) -> Result<ExprView, EvalErrorView> {
    match p_bin(ts, 0, 0, 7) {
        Err(e) => Err(e),
        Ok((e, p)) => if p < ts.len() {
            Err(EvalErrorView::Expression("unexpected tokens after expression"@))
        } else if ast_depth(e) > 16 {
            Err(depth_error())
        } else {
            Ok(e)
        },
    }
}

// ---------------------------------------------------------------------------
// Parser
// ---------------------------------------------------------------------------

fn expression_error(msg: &str) -> (e: EvaluationError)
    ensures
        e@ == EvalErrorView::Expression(msg@),
{
    EvaluationError::Expression(crate::text::owned(msg))
}

fn depth_err() -> (e: EvaluationError)
    ensures
        e@ == depth_error(),
{
    expression_error("AST depth limit (16) exceeded")
}

fn op_at(ts: &Vec<Token>, pos: usize, lvl: u8) -> (r: Option<BinOp>)
    ensures
        r == bin_op_at(token_views(ts@), pos as int, lvl as int),
{
    if pos >= ts.len() {
        return None;
    }
    let t = &ts[pos];
    match t {
        Token::OrOr => if lvl == 7 {
            Some(BinOp::Or)
        } else {
            None
        },
        Token::AndAnd => if lvl == 6 {
            Some(BinOp::And)
        } else {
            None
        },
        Token::EqEq => if lvl == 5 {
            Some(BinOp::EqEq)
        } else {
            None
        },
        Token::BangEq => if lvl == 5 {
            Some(BinOp::Neq)
        } else {
            None
        },
        Token::Lt => if lvl == 4 {
            Some(BinOp::Lt)
        } else {
            None
        },
        Token::Gt => if lvl == 4 {
            Some(BinOp::Gt)
        } else {
            None
        },
        Token::LtEq => if lvl == 4 {
            Some(BinOp::LtEq)
        } else {
            None
        },
        Token::GtEq => if lvl == 4 {
            Some(BinOp::GtEq)
        } else {
            None
        },
        Token::Plus => if lvl == 3 {
            Some(BinOp::Add)
        } else {
            None
        },
        Token::Minus => if lvl == 3 {
            Some(BinOp::Sub)
        } else {
            None
        },
        Token::Star => if lvl == 2 {
            Some(BinOp::Mul)
        } else {
            None
        },
        Token::Slash => if lvl == 2 {
            Some(BinOp::Div)
        } else {
            None
        },
        Token::Percent => if lvl == 2 {
            Some(BinOp::Mod)
        } else {
            None
        },
        _ => None,
    }
}

fn token_name_string(t: &Token) -> (r: String)
    ensures
        r@ == token_name(t@),
{
    let s = match t {
        Token::Number(_) => "Number",
        Token::Bool(_) => "Bool",
        Token::Str(_) => "Str",
        Token::Ident(_) => "Ident",
        Token::Plus => "Plus",
        Token::Minus => "Minus",
        Token::Star => "Star",
        Token::Slash => "Slash",
        Token::Percent => "Percent",
        Token::EqEq => "EqEq",
        Token::BangEq => "BangEq",
        Token::Lt => "Lt",
        Token::Gt => "Gt",
        Token::LtEq => "LtEq",
        Token::GtEq => "GtEq",
        Token::AndAnd => "AndAnd",
        Token::OrOr => "OrOr",
        Token::Bang => "Bang",
        Token::LParen => "LParen",
        Token::RParen => "RParen",
    };
    crate::text::owned(s)
}

/// Parses a level-`lvl` expression at `pos` and nesting depth `d`.
fn parse_bin(ts: &Vec<Token>, pos: usize, d: usize, lvl: u8) -> (r: Result<(Expr, usize), EvaluationError>)
    requires
        pos <= ts@.len(),
        2 <= lvl <= 7,
        d <= 16,
    ensures
        match r {
            Ok((e, p)) => p_bin(token_views(ts@), pos as int, d as int, lvl as int) == Ok::<
                (ExprView, int),
                EvalErrorView,
            >((e@, p as int)) && pos < p <= ts@.len(),
            Err(x) => p_bin(token_views(ts@), pos as int, d as int, lvl as int) == Err::<
                (ExprView, int),
                EvalErrorView,
            >(x@),
        },
    decreases ts@.len() - pos, lvl,
{
    let ghost tv = token_views(ts@);
    let first = if lvl == 2 {
        parse_unary(ts, pos, d)
    } else {
        parse_bin(ts, pos, d, lvl - 1)
    };
    let (mut left, mut p) = match first {
        Ok(x) => x,
        Err(e) => {
            return Err(e);
        },
    };
    let n = ts.len();
    loop
        invariant
            n == ts@.len(),
            tv == token_views(ts@),
            pos < p <= n,
            2 <= lvl <= 7,
            d <= 16,
            p_bin(tv, pos as int, d as int, lvl as int) == p_bin_rest(
                tv,
                left@,
                p as int,
                d as int,
                lvl as int,
            ),
        decreases n - p,
    {
        match op_at(ts, p, lvl) {
            None => {
                return Ok((left, p));
            },
            Some(op) => {
                if d + 1 > 16 {
                    return Err(depth_err());
                }
                let sub = if lvl == 2 {
                    parse_unary(ts, p + 1, d + 1)
                } else {
                    parse_bin(ts, p + 1, d + 1, lvl - 1)
                };
                match sub {
                    Ok((right, p2)) => {
                        left = Expr::BinOp { op, left: Box::new(left), right: Box::new(right) };
                        p = p2;
                    },
                    Err(e) => {
                        return Err(e);
                    },
                }
            },
        }
    }
}

/// Parses a unary expression at `pos` and nesting depth `d`.
fn parse_unary(ts: &Vec<Token>, pos: usize, d: usize) -> (r: Result<(Expr, usize), EvaluationError>)
    requires
        pos <= ts@.len(),
        d <= 16,
    ensures
        match r {
            Ok((e, p)) => p_unary(token_views(ts@), pos as int, d as int) == Ok::<
                (ExprView, int),
                EvalErrorView,
            >((e@, p as int)) && pos < p <= ts@.len(),
            Err(x) => p_unary(token_views(ts@), pos as int, d as int) == Err::<
                (ExprView, int),
                EvalErrorView,
            >(x@),
        },
    decreases ts@.len() - pos, 1int,
{
    let n = ts.len();
    if pos < n {
        let op = match &ts[pos] {
            Token::Bang => Some(UnOp::Not),
            Token::Minus => Some(UnOp::Neg),
            _ => None,
        };
        match op {
            Some(o) => {
                if d + 1 > 16 {
                    return Err(depth_err());
                }
                match parse_unary(ts, pos + 1, d + 1) {
                    Ok((e, p)) => {
                        return Ok((Expr::UnOp { op: o, operand: Box::new(e) }, p));
                    },
                    Err(e) => {
                        return Err(e);
                    },
                }
            },
            None => {},
        }
    }
    parse_primary(ts, pos, d)
}

/// Parses a literal or a parenthesised expression at `pos`.
fn parse_primary(ts: &Vec<Token>, pos: usize, d: usize) -> (r: Result<(Expr, usize), EvaluationError>)
    requires
        pos <= ts@.len(),
        d <= 16,
    ensures
        match r {
            Ok((e, p)) => p_primary(token_views(ts@), pos as int, d as int) == Ok::<
                (ExprView, int),
                EvalErrorView,
            >((e@, p as int)) && pos < p <= ts@.len(),
            Err(x) => p_primary(token_views(ts@), pos as int, d as int) == Err::<
                (ExprView, int),
                EvalErrorView,
            >(x@),
        },
    decreases ts@.len() - pos, 0int,
{
    let n = ts.len();
    if pos == n {
        return Err(expression_error("unexpected end of expression"));
    }
    match &ts[pos] {
        Token::Number(v) => Ok((Expr::Num(*v), pos + 1)),
        Token::Bool(b) => Ok((Expr::Bool(*b), pos + 1)),
        Token::Str(s) => Ok((Expr::Str(s.clone()), pos + 1)),
        Token::Ident(_) => Err(
            expression_error("unresolved identifier in expression (bug: pre-resolve fields)"),
        ),
        Token::LParen => {
            if d + 1 > 16 {
                return Err(depth_err());
            }
            match parse_bin(ts, pos + 1, d + 1, 7) {
                Ok((e, p)) => {
                    if p < n {
                        match &ts[p] {
                            Token::RParen => {
                                return Ok((e, p + 1));
                            },
                            _ => {},
                        }
                    }
                    Err(expression_error("expected closing ')'"))
                },
                Err(e) => Err(e),
            }
        },
        t => {
            let mut m = crate::text::owned("unexpected token: ");
            let name = token_name_string(t);
            push_str(&mut m, name.as_str());
            Err(EvaluationError::Expression(m))
        },
    }
}

/// Parses a token list into one expression.
pub fn parse_tokens(ts: &Vec<Token>) -> (r: Result<Expr, EvaluationError>)
    ensures
        match r {
            Ok(e) => parse_spec(token_views(ts@)) == Ok::<ExprView, EvalErrorView>(e@),
            Err(x) => parse_spec(token_views(ts@)) == Err::<ExprView, EvalErrorView>(x@),
        },
{
    match parse_bin(ts, 0, 0, 7) {
        Ok((e, p)) => {
            if p < ts.len() {
                Err(expression_error("unexpected tokens after expression"))
            } else if !depth_within(&e, 16) {
                Err(depth_err())
            } else {
                Ok(e)
            }
        },
        Err(e) => Err(e),
    }
}

/// Whether an expression tree is at most `h` nodes deep.
fn depth_within(e: &Expr, h: usize) -> (r: bool)
    ensures
        r == (ast_depth(e@) <= h),
    decreases e,
{
    if h == 0 {
        return false;
    }
    match e {
        Expr::UnOp { op, operand } => depth_within(operand, h - 1),
        Expr::BinOp { op, left, right } => depth_within(left, h - 1) && depth_within(right, h - 1),
        _ => true,
    }
}

// ---------------------------------------------------------------------------
// Evaluation specification
// ---------------------------------------------------------------------------

/// Truthiness of a value in `!`, `&&` and `||`.
pub open spec fn truthy(v: JValue) -> bool {
    match v {
        JValue::Bool(b) => b,
        JValue::Null => false,
        JValue::Number(n) => n.num != 0,
        JValue::Str(s) => s.len() > 0,
        _ => true,
    }
}

/// Text of a value in string concatenation: strings as they are, other
/// values as JSON.
pub open spec fn concat_text(v: JValue) -> Seq<char> {
    match v {
        JValue::Str(s) => s,
        _ => json_text(v),
    }
}

/// A number operand, or the error for a non-number.
pub open spec fn number_operand(v: JValue) -> Result<Number, EvalErrorView> {
    match v {
        JValue::Number(n) => Ok(n),
        _ => Err(EvalErrorView::Expression("expected number, got "@ + json_text(v))),
    }
}

/// A checked arithmetic result: overflow is an error.
pub open spec fn checked(r: Option<Number>) -> Result<JValue, EvalErrorView> {
    match r {
        Some(n) => Ok(JValue::Number(n)),
        None => Err(EvalErrorView::Overflow),
    }
}

/// Arithmetic on two number operands (left operand checked first).
pub open spec fn arith(op: BinOp, lv: JValue, rv: JValue) -> Result<JValue, EvalErrorView> {
    match (number_operand(lv), number_operand(rv)) {
        (Err(e), _) => Err(e),
        (_, Err(e)) => Err(e),
        (Ok(a), Ok(b)) => match op {
            BinOp::Add => checked(spec_add(a, b)),
            BinOp::Sub => checked(spec_sub(a, b)),
            BinOp::Mul => checked(spec_mul(a, b)),
            BinOp::Div => checked(spec_div(a, b)),
            _ => checked(spec_rem(a, b)),
        },
    }
}

/// Comparison of two numbers or two strings.
pub open spec fn compare_values(lv: JValue, rv: JValue, ord: Ord3, or_equal: bool) -> Result<
    JValue,
    EvalErrorView,
> {
    match (lv, rv) {
        (JValue::Number(x), JValue::Number(y)) => Ok(
            JValue::Bool(num_order(x, y) == ord || (or_equal && num_order(x, y) == Ord3::Equal)),
        ),
        (JValue::Str(x), JValue::Str(y)) => Ok(
            JValue::Bool(lex_order(x, y) == ord || (or_equal && x == y)),
        ),
        _ => Err(
            EvalErrorView::Expression("cannot compare "@ + json_text(lv) + " and "@ + json_text(rv)),
        ),
    }
}

/// Equality in expressions: numbers by value, other values structurally.
pub open spec fn expr_eq(a: JValue, b: JValue) -> bool {
    match (a, b) {
        (JValue::Number(x), JValue::Number(y)) => num_order(x, y) == Ord3::Equal,
        _ => a == b,
    }
}

/// Applies a binary operator to evaluated operands.
pub open spec fn eval_bin(op: BinOp, lv: JValue, rv: JValue) -> Result<JValue, EvalErrorView> {
    match op {
        BinOp::Add => match (lv, rv) {
            (JValue::Str(a), _) => Ok(JValue::Str(a + concat_text(rv))),
            (_, JValue::Str(b)) => Ok(JValue::Str(concat_text(lv) + b)),
            _ => arith(BinOp::Add, lv, rv),
        },
        BinOp::Sub => arith(BinOp::Sub, lv, rv),
        BinOp::Mul => arith(BinOp::Mul, lv, rv),
        BinOp::Div => match number_operand(rv) {
            Err(e) => Err(e),
            Ok(b) => if b.num == 0 {
                Err(EvalErrorView::Expression("division by zero"@))
            } else {
                arith(BinOp::Div, lv, rv)
            },
        },
        BinOp::Mod => match number_operand(rv) {
            Err(e) => Err(e),
            Ok(b) => if b.num == 0 {
                Err(EvalErrorView::Expression("modulo by zero"@))
            } else {
                arith(BinOp::Mod, lv, rv)
            },
        },
        BinOp::EqEq => Ok(JValue::Bool(expr_eq(lv, rv))),
        BinOp::Neq => Ok(JValue::Bool(!expr_eq(lv, rv))),
        BinOp::Lt => compare_values(lv, rv, Ord3::Less, false),
        BinOp::Gt => compare_values(lv, rv, Ord3::Greater, false),
        BinOp::LtEq => compare_values(lv, rv, Ord3::Less, true),
        BinOp::GtEq => compare_values(lv, rv, Ord3::Greater, true),
        BinOp::And => Ok(JValue::Bool(truthy(lv) && truthy(rv))),
        BinOp::Or => Ok(JValue::Bool(truthy(lv) || truthy(rv))),
    }
}

/// Value of an expression tree (operands evaluated left to right).
pub open spec fn eval_spec(e: ExprView) -> Result<JValue, EvalErrorView>
    decreases e,
{
    match e {
        ExprView::Num(n) => Ok(JValue::Number(n)),
        ExprView::Bool(b) => Ok(JValue::Bool(b)),
        ExprView::Str(s) => Ok(JValue::Str(s)),
        ExprView::Un(op, x) => match eval_spec(*x) {
            Err(err) => Err(err),
            Ok(v) => match op {
                UnOp::Not => Ok(JValue::Bool(!truthy(v))),
                UnOp::Neg => match number_operand(v) {
                    Err(err) => Err(err),
                    Ok(n) => checked(spec_neg(n)),
                },
            },
        },
        ExprView::Bin(op, l, r) => match eval_spec(*l) {
            Err(err) => Err(err),
            Ok(lv) => match eval_spec(*r) {
                Err(err) => Err(err),
                Ok(rv) => eval_bin(op, lv, rv),
            },
        },
    }
}

// ---------------------------------------------------------------------------
// Evaluation
// ---------------------------------------------------------------------------

fn is_truthy(v: &Value) -> (r: bool)
    ensures
        r == truthy(v@),
{
    match v {
        Value::Bool(b) => *b,
        Value::Null => false,
        Value::Number(n) => n.num != 0,
        Value::String(s) => {
            let cs = chars_of(s.as_str());
            cs.len() > 0
        },
        _ => true,
    }
}

fn concat_string(v: &Value) -> (r: String)
    ensures
        r@ == concat_text(v@),
{
    match v {
        Value::String(s) => s.clone(),
        _ => to_json_string(v),
    }
}

fn number_of(v: &Value) -> (r: Result<Number, EvaluationError>)
    ensures
        match r {
            Ok(n) => number_operand(v@) == Ok::<Number, EvalErrorView>(n),
            Err(e) => number_operand(v@) == Err::<Number, EvalErrorView>(e@),
        },
{
    match v {
        Value::Number(n) => Ok(*n),
        _ => {
            let mut m = crate::text::owned("expected number, got ");
            let t = to_json_string(v);
            push_str(&mut m, t.as_str());
            Err(EvaluationError::Expression(m))
        },
    }
}

fn checked_value(r: Option<Number>) -> (out: Result<Value, EvaluationError>)
    ensures
        match out {
            Ok(v) => checked(r) == Ok::<JValue, EvalErrorView>(v@),
            Err(e) => checked(r) == Err::<JValue, EvalErrorView>(e@),
        },
{
    match r {
        Some(n) => Ok(Value::Number(n)),
        None => Err(EvaluationError::Overflow),
    }
}

fn arith_values(op: BinOp, lv: &Value, rv: &Value) -> (r: Result<Value, EvaluationError>)
    requires
        op == BinOp::Add || op == BinOp::Sub || op == BinOp::Mul || op == BinOp::Div || op
            == BinOp::Mod,
        op == BinOp::Div || op == BinOp::Mod ==> (rv@ matches JValue::Number(b) && b.num != 0),
    ensures
        match r {
            Ok(v) => arith(op, lv@, rv@) == Ok::<JValue, EvalErrorView>(v@),
            Err(e) => arith(op, lv@, rv@) == Err::<JValue, EvalErrorView>(e@),
        },
{
    let a = match number_of(lv) {
        Ok(a) => a,
        Err(e) => {
            return Err(e);
        },
    };
    let b = match number_of(rv) {
        Ok(b) => b,
        Err(e) => {
            return Err(e);
        },
    };
    match op {
        BinOp::Add => checked_value(num_add(&a, &b)),
        BinOp::Sub => checked_value(num_sub(&a, &b)),
        BinOp::Mul => checked_value(num_mul(&a, &b)),
        BinOp::Div => checked_value(num_div(&a, &b)),
        _ => checked_value(num_rem(&a, &b)),
    }
}

fn compare_for(lv: &Value, rv: &Value, ord: Ord3, or_equal: bool) -> (r: Result<Value, EvaluationError>)
    ensures
        match r {
            Ok(v) => compare_values(lv@, rv@, ord, or_equal) == Ok::<JValue, EvalErrorView>(v@),
            Err(e) => compare_values(lv@, rv@, ord, or_equal) == Err::<JValue, EvalErrorView>(e@),
        },
{
    match (lv, rv) {
        (Value::Number(x), Value::Number(y)) => {
            let o = compare_numbers(x, y);
            Ok(Value::Bool(o == ord || (or_equal && o == Ord3::Equal)))
        },
        (Value::String(x), Value::String(y)) => {
            let xc = chars_of(x.as_str());
            let yc = chars_of(y.as_str());
            let o = compare_chars(xc.as_slice(), yc.as_slice());
            proof {
                crate::text::lemma_lex_order_equal(x@, y@);
            }
            Ok(Value::Bool(o == ord || (or_equal && str_eq(x.as_str(), y.as_str()))))
        },
        _ => {
            let mut m = crate::text::owned("cannot compare ");
            let a = to_json_string(lv);
            push_str(&mut m, a.as_str());
            push_str(&mut m, " and ");
            let b = to_json_string(rv);
            push_str(&mut m, b.as_str());
            assert(m@ =~= "cannot compare "@ + json_text(lv@) + " and "@ + json_text(rv@));
            Err(EvaluationError::Expression(m))
        },
    }
}

fn values_loosely_equal(a: &Value, b: &Value) -> (r: bool)
    ensures
        r == expr_eq(a@, b@),
{
    match (a, b) {
        (Value::Number(x), Value::Number(y)) => compare_numbers(x, y) == Ord3::Equal,
        _ => values_equal(a, b),
    }
}

fn apply_bin(op: BinOp, lv: Value, rv: Value) -> (r: Result<Value, EvaluationError>)
    ensures
        match r {
            Ok(v) => eval_bin(op, lv@, rv@) == Ok::<JValue, EvalErrorView>(v@),
            Err(e) => eval_bin(op, lv@, rv@) == Err::<JValue, EvalErrorView>(e@),
        },
{
    match op {
        BinOp::Add => {
            match &lv {
                Value::String(a) => {
                    let mut s = a.clone();
                    let t = concat_string(&rv);
                    push_str(&mut s, t.as_str());
                    return Ok(Value::String(s));
                },
                _ => {},
            }
            match &rv {
                Value::String(b) => {
                    let mut s = concat_string(&lv);
                    push_str(&mut s, b.as_str());
                    return Ok(Value::String(s));
                },
                _ => {},
            }
            arith_values(BinOp::Add, &lv, &rv)
        },
        BinOp::Sub => arith_values(BinOp::Sub, &lv, &rv),
        BinOp::Mul => arith_values(BinOp::Mul, &lv, &rv),
        BinOp::Div => {
            match number_of(&rv) {
                Err(e) => Err(e),
                Ok(b) => {
                    if b.num == 0 {
                        Err(expression_error("division by zero"))
                    } else {
                        arith_values(BinOp::Div, &lv, &rv)
                    }
                },
            }
        },
        BinOp::Mod => {
            match number_of(&rv) {
                Err(e) => Err(e),
                Ok(b) => {
                    if b.num == 0 {
                        Err(expression_error("modulo by zero"))
                    } else {
                        arith_values(BinOp::Mod, &lv, &rv)
                    }
                },
            }
        },
        BinOp::EqEq => Ok(Value::Bool(values_loosely_equal(&lv, &rv))),
        BinOp::Neq => Ok(Value::Bool(!values_loosely_equal(&lv, &rv))),
        BinOp::Lt => compare_for(&lv, &rv, Ord3::Less, false),
        BinOp::Gt => compare_for(&lv, &rv, Ord3::Greater, false),
        BinOp::LtEq => compare_for(&lv, &rv, Ord3::Less, true),
        BinOp::GtEq => compare_for(&lv, &rv, Ord3::Greater, true),
        BinOp::And => Ok(Value::Bool(is_truthy(&lv) && is_truthy(&rv))),
        BinOp::Or => Ok(Value::Bool(is_truthy(&lv) || is_truthy(&rv))),
    }
}

/// Evaluates an expression tree.
pub fn eval_expr(e: &Expr) -> (r: Result<Value, EvaluationError>)
    ensures
        match r {
            Ok(v) => eval_spec(e@) == Ok::<JValue, EvalErrorView>(v@),
            Err(x) => eval_spec(e@) == Err::<JValue, EvalErrorView>(x@),
        },
    decreases e,
{
    match e {
        Expr::Num(n) => Ok(Value::Number(*n)),
        Expr::Bool(b) => Ok(Value::Bool(*b)),
        Expr::Str(s) => Ok(Value::String(s.clone())),
        Expr::UnOp { op, operand } => {
            let v = match eval_expr(operand) {
                Ok(v) => v,
                Err(x) => {
                    return Err(x);
                },
            };
            match op {
                UnOp::Not => Ok(Value::Bool(!is_truthy(&v))),
                UnOp::Neg => match number_of(&v) {
                    Err(x) => Err(x),
                    Ok(n) => checked_value(num_neg(&n)),
                },
            }
        },
        Expr::BinOp { op, left, right } => {
            let lv = match eval_expr(left) {
                Ok(v) => v,
                Err(x) => {
                    return Err(x);
                },
            };
            let rv = match eval_expr(right) {
                Ok(v) => v,
                Err(x) => {
                    return Err(x);
                },
            };
            apply_bin(*op, lv, rv)
        },
    }
}

// ---------------------------------------------------------------------------
// Templates
// ---------------------------------------------------------------------------

/// The token a field reference stands for: the scalar it resolves to in
/// the context (`null` reads as 0, numbers as floating-point numbers).
pub open spec fn resolve_token(t: TokenView, ctx: JValue) -> Result<TokenView, EvalErrorView> {
    match t {
        TokenView::Ident(path) => match resolve(ctx, path) {
            JValue::Number(n) => Ok(TokenView::Number(Number { num: n.num, den: n.den, float: true })),
            JValue::Bool(b) => Ok(TokenView::Bool(b)),
            JValue::Str(s) => Ok(TokenView::Str(s)),
            JValue::Null => Ok(TokenView::Number(Number { num: 0, den: 1, float: true })),
            _ => Err(
                EvalErrorView::Expression("field '"@ + path + "' resolved to non-scalar type"@),
            ),
        },
        _ => Ok(t),
    }
}

/// Resolves every field reference, failing at the first non-scalar one.
pub open spec fn resolve_tokens_spec(ts: Seq<TokenView>, ctx: JValue) -> Result<
    Seq<TokenView>,
    EvalErrorView,
>
    decreases ts.len(),
{
    if ts.len() == 0 {
        Ok(Seq::empty())
    } else {
        match resolve_tokens_spec(ts.drop_last(), ctx) {
            Err(e) => Err(e),
            Ok(p) => match resolve_token(ts.last(), ctx) {
                Err(e) => Err(e),
                Ok(t) => Ok(p.push(t)),
            },
        }
    }
}

/// The inner expression of `{{ ... }}` (after trimming), if `s` is one.
pub open spec fn extract_spec(s: Seq<char>) -> Option<Seq<char>> {
    let t = crate::text::trim_seq(s);
    if crate::text::seq_starts_with(t, "{{"@) && crate::text::seq_ends_with(t, "}}"@) && t.len()
        >= 4 {
        Some(crate::text::trim_seq(t.subrange(2, t.len() - 2)))
    } else {
        None
    }
}

/// The value of a template in a context.
pub open spec fn template_spec(template: Seq<char>, ctx: JValue) -> Result<JValue, EvalErrorView> {
    match extract_spec(template) {
        None => Err(EvalErrorView::Expression("not a template: "@ + template)),
        Some(inner) => match tokenize_spec(inner) {
            Err(e) => Err(e),
            Ok(ts) => match resolve_tokens_spec(ts, ctx) {
                Err(e) => Err(e),
                Ok(rs) => match parse_spec(rs) {
                    Err(e) => Err(e),
                    Ok(ast) => eval_spec(ast),
                },
            },
        },
    }
}

fn copy_token(t: &Token) -> (r: Token)
    ensures
        r@ == t@,
{
    match t {
        Token::Number(n) => Token::Number(*n),
        Token::Bool(b) => Token::Bool(*b),
        Token::Str(s) => Token::Str(s.clone()),
        Token::Ident(s) => Token::Ident(s.clone()),
        Token::Plus => Token::Plus,
        Token::Minus => Token::Minus,
        Token::Star => Token::Star,
        Token::Slash => Token::Slash,
        Token::Percent => Token::Percent,
        Token::EqEq => Token::EqEq,
        Token::BangEq => Token::BangEq,
        Token::Lt => Token::Lt,
        Token::Gt => Token::Gt,
        Token::LtEq => Token::LtEq,
        Token::GtEq => Token::GtEq,
        Token::AndAnd => Token::AndAnd,
        Token::OrOr => Token::OrOr,
        Token::Bang => Token::Bang,
        Token::LParen => Token::LParen,
        Token::RParen => Token::RParen,
    }
}

fn resolve_one(t: &Token, context: &Value) -> (r: Result<Token, EvaluationError>)
    ensures
        match r {
            Ok(x) => resolve_token(t@, context@) == Ok::<TokenView, EvalErrorView>(x@),
            Err(e) => resolve_token(t@, context@) == Err::<TokenView, EvalErrorView>(e@),
        },
{
    match t {
        Token::Ident(path) => {
            let val = resolve_owned(context, path.as_str());
            match val {
                Value::Number(n) => Ok(Token::Number(Number { num: n.num, den: n.den, float: true })),
                Value::Bool(b) => Ok(Token::Bool(b)),
                Value::String(s) => Ok(Token::Str(s)),
                Value::Null => Ok(Token::Number(Number { num: 0, den: 1, float: true })),
                _ => {
                    let mut m = crate::text::owned("field '");
                    push_str(&mut m, path.as_str());
                    push_str(&mut m, "' resolved to non-scalar type");
                    assert(m@ =~= "field '"@ + path@ + "' resolved to non-scalar type"@);
                    Err(EvaluationError::Expression(m))
                },
            }
        },
        _ => Ok(copy_token(t)),
    }
}

/// Replaces field references by the scalars they resolve to.
pub fn resolve_tokens(tokens: &Vec<Token>, context: &Value) -> (r: Result<Vec<Token>, EvaluationError>)
    ensures
        match r {
            Ok(ts) => resolve_tokens_spec(token_views(tokens@), context@) == Ok::<
                Seq<TokenView>,
                EvalErrorView,
            >(token_views(ts@)),
            Err(e) => resolve_tokens_spec(token_views(tokens@), context@) == Err::<
                Seq<TokenView>,
                EvalErrorView,
            >(e@),
        },
{
    let ghost tv = token_views(tokens@);
    let mut out: Vec<Token> = Vec::new();
    let mut i: usize = 0;
    assert(tv.take(0) =~= Seq::<TokenView>::empty());
    assert(token_views(out@) =~= Seq::<TokenView>::empty());
    while i < tokens.len()
        invariant
            i <= tokens@.len(),
            tv == token_views(tokens@),
            resolve_tokens_spec(tv.take(i as int), context@) == Ok::<Seq<TokenView>, EvalErrorView>(
                token_views(out@),
            ),
        decreases tokens@.len() - i,
    {
        proof {
            assert(tv.take(i + 1).drop_last() =~= tv.take(i as int));
            assert(tv.take(i + 1).last() == tokens@[i as int]@);
        }
        match resolve_one(&tokens[i], context) {
            Ok(t) => {
                let ghost before = token_views(out@);
                out.push(t);
                assert(token_views(out@) =~= before.push(t@));
            },
            Err(e) => {
                proof {
                    lemma_resolve_tokens_prefix_err(tv, context@, i + 1);
                }
                return Err(e);
            },
        }
        i = i + 1;
    }
    assert(tv.take(i as int) =~= tv);
    Ok(out)
}

/// An error on a prefix is the error of the whole list.
proof fn lemma_resolve_tokens_prefix_err(ts: Seq<TokenView>, ctx: JValue, k: int)
    requires
        0 <= k <= ts.len(),
        resolve_tokens_spec(ts.take(k), ctx) is Err,
    ensures
        resolve_tokens_spec(ts, ctx) == resolve_tokens_spec(ts.take(k), ctx),
    decreases ts.len() - k,
{
    if k < ts.len() {
        assert(ts.take(k + 1).drop_last() =~= ts.take(k));
        lemma_resolve_tokens_prefix_err(ts, ctx, k + 1);
    } else {
        assert(ts.take(k) =~= ts);
    }
}

/// The inner expression of a template `{{ ... }}`, trimmed.
pub fn extract_template(s: &str) -> (r: Option<String>)
    ensures
        match r {
            Some(x) => extract_spec(s@) == Some(x@),
            None => extract_spec(s@) is None,
        },
{
    let cs = chars_of(s);
    let t = crate::text::trim_chars(cs.as_slice());
    let open = chars_of("{{");
    let close = chars_of("}}");
    let n = t.len();
    if n >= 4 && crate::text::starts_with_chars(t.as_slice(), open.as_slice())
        && crate::text::ends_with_chars(t.as_slice(), close.as_slice()) {
        let mid = slice_to_vec_range(t.as_slice(), 2, n - 2);
        let inner = crate::text::trim_chars(mid.as_slice());
        Some(string_from_chars(inner.as_slice()))
    } else {
        proof {
            reveal_strlit("{{");
            reveal_strlit("}}");
        }
        None
    }
}

/// Evaluates a template such as `{{ income * 3 }}` in a context.
pub fn eval_template(template: &str, context: &Value) -> (r: Result<Value, EvaluationError>)
    ensures
        match r {
            Ok(v) => template_spec(template@, context@) == Ok::<JValue, EvalErrorView>(v@),
            Err(e) => template_spec(template@, context@) == Err::<JValue, EvalErrorView>(e@),
        },
{
    let inner = match extract_template(template) {
        Some(x) => x,
        None => {
            let mut m = crate::text::owned("not a template: ");
            push_str(&mut m, template);
            return Err(EvaluationError::Expression(m));
        },
    };
    let raw = match tokenize(inner.as_str()) {
        Ok(ts) => ts,
        Err(e) => {
            return Err(e);
        },
    };
    let resolved = match resolve_tokens(&raw, context) {
        Ok(ts) => ts,
        Err(e) => {
            return Err(e);
        },
    };
    let ast = match parse_tokens(&resolved) {
        Ok(a) => a,
        Err(e) => {
            return Err(e);
        },
    };
    eval_expr(&ast)
}

} // verus!

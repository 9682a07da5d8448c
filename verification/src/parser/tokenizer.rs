//! The lexer of formulas: from the characters after the leading `=` to tokens.

use crate::common_types::{Numeric, Token, TokenView};
use crate::parser::number::{digits_end, is_exponent_mark, is_sign, literal_decimal, parse_decimal};
use crate::text::{digit, is_digit, is_upper, string_of, upper};
use vstd::prelude::*;

verus! {

/// Why a formula could not be split into tokens.
#[derive(Debug, PartialEq, Clone)]
pub enum TokenizeError {
    UnexpectedCharacter(char),
    InvalidCellName(String),
    InvalidNumber(String),
    UnterminatedString,
}

/// The mathematical view of a [`TokenizeError`].
pub enum TokenizeFault {
    UnexpectedCharacter(char),
    InvalidCellName(Seq<char>),
    InvalidNumber(Seq<char>),
    UnterminatedString,
}

impl View for TokenizeError {
    type V = TokenizeFault;

    open spec fn view(&self) -> TokenizeFault {
        match self {
            TokenizeError::UnexpectedCharacter(c) => TokenizeFault::UnexpectedCharacter(*c),
            TokenizeError::InvalidCellName(s) => TokenizeFault::InvalidCellName(s@),
            TokenizeError::InvalidNumber(s) => TokenizeFault::InvalidNumber(s@),
            TokenizeError::UnterminatedString => TokenizeFault::UnterminatedString,
        }
    }
}

/// What scanning one token yields: the token and where the next one may
/// start, or the fault that ends the scan.
pub enum Scan<N> {
    Token { token: TokenView<N>, next: int },
    Fault(TokenizeFault),
}

/// Whether the character is a blank or a line feed.
pub open spec fn is_space(c: char) -> bool {
    c == ' ' || c == '\n'
}

/// The first position at or after `from` that holds no white space.
pub open spec fn spaces_end(s: Seq<char>, from: int) -> int
    decreases s.len() - from,
{
    if 0 <= from < s.len() && is_space(s[from]) {
        spaces_end(s, from + 1)
    } else {
        from
    }
}

/// The first position at or after `from` that holds no upper-case letter.
pub open spec fn upper_end(s: Seq<char>, from: int) -> int
    decreases s.len() - from,
{
    if 0 <= from < s.len() && is_upper(s[from]) {
        upper_end(s, from + 1)
    } else {
        from
    }
}

/// The first position at or after `from` that holds a double quote, or the
/// length of `s` where there is none.
pub open spec fn quote_at(s: Seq<char>, from: int) -> int
    decreases s.len() - from,
{
    if 0 <= from < s.len() && s[from] != '"' {
        quote_at(s, from + 1)
    } else {
        from
    }
}

/// Whether the characters are `TRUE`.
pub open spec fn spells_true(s: Seq<char>) -> bool {
    s.len() == 4 && s[0] == 'T' && s[1] == 'R' && s[2] == 'U' && s[3] == 'E'
}

/// Whether the characters are `FALSE`.
pub open spec fn spells_false(s: Seq<char>) -> bool {
    s.len() == 5 && s[0] == 'F' && s[1] == 'A' && s[2] == 'L' && s[3] == 'S' && s[4] == 'E'
}

/// A string literal: everything between the quote at `p` and the next one.
pub open spec fn scan_string<N: Numeric>(s: Seq<char>, p: int) -> Scan<N> {
    let q = quote_at(s, p + 1);
    if q >= s.len() {
        Scan::Fault(TokenizeFault::UnterminatedString)
    } else {
        Scan::Token { token: TokenView::Text(s.subrange(p + 1, q)), next: q + 1 }
    }
}

/// A number: digits, an optional point with digits after it, an optional
/// exponent.  A point or an exponent mark without digits is a fault.
pub open spec fn scan_number<N: Numeric>(s: Seq<char>, p: int) -> Scan<N> {
    let n = s.len() as int;
    let b = digits_end(s, p);
    let dotted = b < n && s[b] == '.';
    let c = if dotted {
        digits_end(s, b + 1)
    } else {
        b
    };
    let marked = c < n && is_exponent_mark(s[c]);
    let signed = marked && c + 1 < n && is_sign(s[c + 1]);
    let d = if signed {
        c + 2
    } else {
        c + 1
    };
    let e = if marked {
        digits_end(s, d)
    } else {
        c
    };
    if dotted && c == b + 1 {
        Scan::Fault(TokenizeFault::InvalidNumber(s.subrange(p, c)))
    } else if marked && e == d {
        Scan::Fault(TokenizeFault::InvalidNumber(s.subrange(p, d)))
    } else {
        match literal_decimal(s.subrange(p, e)) {
            Some(value) => Scan::Token { token: TokenView::Number(N::decimal(value)), next: e },
            None => Scan::Fault(TokenizeFault::InvalidNumber(s.subrange(p, e))),
        }
    }
}

/// A run of upper-case letters: a cell name where digits follow, a function
/// name where `(` follows, else `TRUE` or `FALSE`, else a fault.
pub open spec fn scan_name<N: Numeric>(s: Seq<char>, p: int) -> Scan<N> {
    let u = upper_end(s, p);
    let word = s.subrange(p, u);
    if u < s.len() && is_digit(s[u]) {
        let e = digits_end(s, u);
        Scan::Token { token: TokenView::CellName(s.subrange(p, e)), next: e }
    } else if u < s.len() && s[u] == '(' {
        Scan::Token { token: TokenView::FunctionName(word), next: u }
    } else if spells_true(word) {
        Scan::Token { token: TokenView::Bool(true), next: u }
    } else if spells_false(word) {
        Scan::Token { token: TokenView::Bool(false), next: u }
    } else {
        Scan::Fault(TokenizeFault::InvalidCellName(word))
    }
}

/// An operator or a punctuation mark; the two-character operators win over
/// their one-character beginnings.
pub open spec fn scan_operator<N: Numeric>(s: Seq<char>, p: int) -> Scan<N> {
    let c = s[p];
    let followed = p + 1 < s.len();
    let doubled = followed && s[p + 1] == c;
    let assigned = followed && s[p + 1] == '=';
    if c == '+' {
        Scan::Token { token: TokenView::Plus, next: p + 1 }
    } else if c == '-' {
        Scan::Token { token: TokenView::Minus, next: p + 1 }
    } else if c == '*' {
        Scan::Token { token: TokenView::Multiply, next: p + 1 }
    } else if c == '/' {
        Scan::Token { token: TokenView::Division, next: p + 1 }
    } else if c == '(' {
        Scan::Token { token: TokenView::LParen, next: p + 1 }
    } else if c == ')' {
        Scan::Token { token: TokenView::RParen, next: p + 1 }
    } else if c == ',' {
        Scan::Token { token: TokenView::ArgSeparator, next: p + 1 }
    } else if c == ':' {
        Scan::Token { token: TokenView::RangeSep, next: p + 1 }
    } else if c == '=' && assigned {
        Scan::Token { token: TokenView::Equals, next: p + 2 }
    } else if c == '!' && assigned {
        Scan::Token { token: TokenView::NotEquals, next: p + 2 }
    } else if c == '!' {
        Scan::Token { token: TokenView::Not, next: p + 1 }
    } else if c == '>' && assigned {
        Scan::Token { token: TokenView::GreaterEquals, next: p + 2 }
    } else if c == '>' {
        Scan::Token { token: TokenView::GreaterThan, next: p + 1 }
    } else if c == '<' && assigned {
        Scan::Token { token: TokenView::LessEquals, next: p + 2 }
    } else if c == '<' {
        Scan::Token { token: TokenView::LessThan, next: p + 1 }
    } else if c == '&' && doubled {
        Scan::Token { token: TokenView::And, next: p + 2 }
    } else if c == '|' && doubled {
        Scan::Token { token: TokenView::Or, next: p + 2 }
    } else {
        Scan::Fault(TokenizeFault::UnexpectedCharacter(c))
    }
}

/// The token that starts at `p`, a position that holds a character other
/// than white space.
pub open spec fn scan<N: Numeric>(s: Seq<char>, p: int) -> Scan<N> {
    if s[p] == '"' {
        scan_string(s, p)
    } else if is_digit(s[p]) {
        scan_number(s, p)
    } else if is_upper(s[p]) {
        scan_name(s, p)
    } else {
        scan_operator(s, p)
    }
}

/// `prefix` followed by what `rest` holds, or the fault of `rest`.
pub open spec fn prepend<N: Numeric>(
    prefix: Seq<TokenView<N>>,
    rest: Result<Seq<TokenView<N>>, TokenizeFault>,
) -> Result<Seq<TokenView<N>>, TokenizeFault> {
    match rest {
        Ok(tokens) => Ok(prefix + tokens),
        Err(fault) => Err(fault),
    }
}

/// The tokens of `s` from position `from` on, or the first fault.
pub open spec fn tokens_from<N: Numeric>(s: Seq<char>, from: int) -> Result<
    Seq<TokenView<N>>,
    TokenizeFault,
>
    decreases s.len() - from,
{
    let p = spaces_end(s, from);
    if from < 0 || p >= s.len() {
        Ok(Seq::empty())
    } else {
        match scan::<N>(s, p) {
            Scan::Fault(fault) => Err(fault),
            Scan::Token { token, next } => {
                if next <= from || next > s.len() {
                    Ok(Seq::empty())
                } else {
                    prepend(seq![token], tokens_from(s, next))
                }
            },
        }
    }
}

/// The tokens of a formula body.
pub open spec fn tokenize<N: Numeric>(s: Seq<char>) -> Result<Seq<TokenView<N>>, TokenizeFault> {
    tokens_from(s, 0)
}

/// The view of what the tokenizer returns.
pub open spec fn tokenize_view<N: Numeric>(r: Result<Vec<Token<N>>, TokenizeError>) -> Result<
    Seq<TokenView<N>>,
    TokenizeFault,
> {
    match r {
        Ok(tokens) => Ok(tokens@.map_values(|t: Token<N>| t@)),
        Err(e) => Err(e@),
    }
}

/// The view of what scanning one token returns, given where the scan stopped.
pub open spec fn scan_view<N: Numeric>(r: Result<Token<N>, TokenizeError>, stopped: int) -> Scan<
    N,
> {
    match r {
        Ok(token) => Scan::Token { token: token@, next: stopped },
        Err(e) => Scan::Fault(e@),
    }
}

/// A tokenizer over the characters of a formula body.
pub struct ExpressionTokenizer {
    index: usize,
    chars: Vec<char>,
}

impl ExpressionTokenizer {
    /// The characters that the tokenizer reads.
    pub closed spec fn input(&self) -> Seq<char> {
        self.chars@
    }

    /// The position of the next character to read.
    pub closed spec fn position(&self) -> int {
        self.index as int
    }

    /// A tokenizer at the start of the given characters.
    pub fn new(chars: Vec<char>) -> (r: Self)
        ensures
            r.input() == chars@,
            r.position() == 0,
    {
        Self { index: 0, chars }
    }

    /// Splits the input from the current position on into tokens.
    ///
    /// Returns the tokens in order, or the fault of the first stretch that
    /// is no token.
    pub fn tokenize_expression<N: Numeric>(&mut self) -> (r: Result<Vec<Token<N>>, TokenizeError>)
        ensures
            tokenize_view(r) == tokens_from::<N>(old(self).input(), old(self).position()),
            final(self).input() == old(self).input(),
    {
        let ghost s = self.chars@;
        let ghost start = self.index as int;
        let mut expr_tokens: Vec<Token<N>> = Vec::new();
        assert(expr_tokens@.map_values(|t: Token<N>| t@) == Seq::<TokenView<N>>::empty());
        loop
            invariant
                self.chars@ == s,
                s == old(self).chars@,
                start == old(self).index,
                tokens_from::<N>(s, start) == prepend(
                    expr_tokens@.map_values(|t: Token<N>| t@),
                    tokens_from::<N>(s, self.index as int),
                ),
            decreases s.len() - self.index,
        {
            let ghost before = self.index as int;
            let ghost taken = expr_tokens@.map_values(|t: Token<N>| t@);
            if !self.skip_whitespace() {
                proof {
                    assert(tokens_from::<N>(s, before) == Ok::<
                        Seq<TokenView<N>>,
                        TokenizeFault,
                    >(Seq::empty()));
                    assert(taken + Seq::<TokenView<N>>::empty() == taken);
                }
                return Ok(expr_tokens);
            }
            let ghost p = self.index as int;
            let c = self.chars[self.index];
            let scanned = if c == '"' {
                self.parse_string::<N>()
            } else if digit(c) {
                self.parse_number::<N>()
            } else if upper(c) {
                self.parse_cell_name::<N>()
            } else {
                self.parse_operator::<N>()
            };
            match scanned {
                Err(e) => {
                    return Err(e);
                },
                Ok(token) => {
                    proof {
                        let rest = tokens_from::<N>(s, self.index as int);
                        assert(tokens_from::<N>(s, before) == prepend(seq![token@], rest));
                        assert(expr_tokens@.push(token).map_values(|t: Token<N>| t@)
                            == taken.push(token@));
                        match rest {
                            Ok(more) => {
                                assert(taken + (seq![token@] + more) == taken.push(token@) + more);
                            },
                            Err(_) => {},
                        }
                    }
                    expr_tokens.push(token);
                },
            }
        }
    }

    /// Reads a string literal; the current character is its opening quote.
    fn parse_string<N: Numeric>(&mut self) -> (r: Result<Token<N>, TokenizeError>)
        requires
            old(self).index < old(self).chars.len(),
        ensures
            final(self).chars@ == old(self).chars@,
            scan_view(r, final(self).index as int) == scan_string::<N>(
                old(self).chars@,
                old(self).index as int,
            ),
            r is Ok ==> old(self).index < final(self).index <= old(self).chars.len(),
    {
        let ghost s = self.chars@;
        let start = self.index + 1;
        let n = self.chars.len();
        let mut q = start;
        while q < n && self.chars[q] != '"'
            invariant
                self.chars@ == s,
                n == s.len(),
                start <= q <= n,
                quote_at(s, start as int) == quote_at(s, q as int),
            decreases n - q,
        {
            q = q + 1;
        }
        if q >= n {
            return Err(TokenizeError::UnterminatedString);
        }
        let text = string_of(&self.chars, start, q);
        self.index = q + 1;
        Ok(Token::Text(text))
    }

    /// Reads a number; the current character is its first digit.
    fn parse_number<N: Numeric>(&mut self) -> (r: Result<Token<N>, TokenizeError>)
        requires
            old(self).index < old(self).chars.len(),
            is_digit(old(self).chars@[old(self).index as int]),
        ensures
            final(self).chars@ == old(self).chars@,
            scan_view(r, final(self).index as int) == scan_number::<N>(
                old(self).chars@,
                old(self).index as int,
            ),
            r is Ok ==> old(self).index < final(self).index <= old(self).chars.len(),
    {
        let ghost s = self.chars@;
        let p = self.index;
        let n = self.chars.len();
        let b = self.digits_until(p);
        let dotted = b < n && self.chars[b] == '.';
        let c = if dotted {
            self.digits_until(b + 1)
        } else {
            b
        };
        if dotted && c == b + 1 {
            return Err(TokenizeError::InvalidNumber(string_of(&self.chars, p, c)));
        }
        let marked = c < n && (self.chars[c] == 'e' || self.chars[c] == 'E');
        let signed = marked && c + 1 < n && (self.chars[c + 1] == '+' || self.chars[c + 1] == '-');
        let d = if signed {
            c + 2
        } else if marked {
            c + 1
        } else {
            c
        };
        let e = if marked {
            self.digits_until(d)
        } else {
            c
        };
        if marked && e == d {
            return Err(TokenizeError::InvalidNumber(string_of(&self.chars, p, d)));
        }
        match parse_decimal(&self.chars, p, e) {
            Some(value) => {
                self.index = e;
                Ok(Token::Number(N::from_decimal(value)))
            },
            None => Err(TokenizeError::InvalidNumber(string_of(&self.chars, p, e))),
        }
    }

    /// The first position at or after `from` that holds no digit.
    fn digits_until(&self, from: usize) -> (r: usize)
        requires
            from <= self.chars.len(),
        ensures
            r == digits_end(self.chars@, from as int),
            from <= r <= self.chars.len(),
            from < self.chars.len() && is_digit(self.chars@[from as int]) ==> from < r,
    {
        let n = self.chars.len();
        let mut i = from;
        while i < n && digit(self.chars[i])
            invariant
                n == self.chars.len(),
                from <= i <= n,
                digits_end(self.chars@, from as int) == digits_end(self.chars@, i as int),
                from < n && is_digit(self.chars@[from as int]) && i == from ==> is_digit(
                    self.chars@[i as int],
                ),
            decreases n - i,
        {
            i = i + 1;
        }
        i
    }

    /// Reads a run of upper-case letters and what it names; the current
    /// character is its first letter.
    fn parse_cell_name<N: Numeric>(&mut self) -> (r: Result<Token<N>, TokenizeError>)
        requires
            old(self).index < old(self).chars.len(),
            is_upper(old(self).chars@[old(self).index as int]),
        ensures
            final(self).chars@ == old(self).chars@,
            scan_view(r, final(self).index as int) == scan_name::<N>(
                old(self).chars@,
                old(self).index as int,
            ),
            r is Ok ==> old(self).index < final(self).index <= old(self).chars.len(),
    {
        let ghost s = self.chars@;
        let p = self.index;
        let n = self.chars.len();
        let mut u = p;
        while u < n && upper(self.chars[u])
            invariant
                self.chars@ == s,
                n == s.len(),
                p <= u <= n,
                p < n,
                is_upper(s[p as int]),
                upper_end(s, p as int) == upper_end(s, u as int),
                u == p ==> is_upper(s[u as int]),
            decreases n - u,
        {
            u = u + 1;
        }
        assert(p < u);
        if u < n && digit(self.chars[u]) {
            let e = self.digits_until(u);
            self.index = e;
            return Ok(Token::CellName(string_of(&self.chars, p, e)));
        }
        if u < n && self.chars[u] == '(' {
            self.index = u;
            return Ok(Token::FunctionName(string_of(&self.chars, p, u)));
        }
        let length = u - p;
        if length == 4 && self.chars[p] == 'T' && self.chars[p + 1] == 'R' && self.chars[p + 2]
            == 'U' && self.chars[p + 3] == 'E' {
            self.index = u;
            return Ok(Token::Bool(true));
        }
        if length == 5 && self.chars[p] == 'F' && self.chars[p + 1] == 'A' && self.chars[p + 2]
            == 'L' && self.chars[p + 3] == 'S' && self.chars[p + 4] == 'E' {
            self.index = u;
            return Ok(Token::Bool(false));
        }
        Err(TokenizeError::InvalidCellName(string_of(&self.chars, p, u)))
    }

    /// Reads an operator or a punctuation mark at the current character.
    fn parse_operator<N: Numeric>(&mut self) -> (r: Result<Token<N>, TokenizeError>)
        requires
            old(self).index < old(self).chars.len(),
        ensures
            final(self).chars@ == old(self).chars@,
            scan_view(r, final(self).index as int) == scan_operator::<N>(
                old(self).chars@,
                old(self).index as int,
            ),
            r is Ok ==> old(self).index < final(self).index <= old(self).chars.len(),
    {
        let p = self.index;
        let n = self.chars.len();
        let c = self.chars[p];
        let followed = p + 1 < n;
        let doubled = followed && self.chars[p + 1] == c;
        let assigned = followed && self.chars[p + 1] == '=';
        let (token, width): (Token<N>, usize) = if c == '+' {
            (Token::Plus, 1)
        } else if c == '-' {
            (Token::Minus, 1)
        } else if c == '*' {
            (Token::Multiply, 1)
        } else if c == '/' {
            (Token::Division, 1)
        } else if c == '(' {
            (Token::LParen, 1)
        } else if c == ')' {
            (Token::RParen, 1)
        } else if c == ',' {
            (Token::ArgSeparator, 1)
        } else if c == ':' {
            (Token::RangeSep, 1)
        } else if c == '=' && assigned {
            (Token::Equals, 2)
        } else if c == '!' && assigned {
            (Token::NotEquals, 2)
        } else if c == '!' {
            (Token::Not, 1)
        } else if c == '>' && assigned {
            (Token::GreaterEquals, 2)
        } else if c == '>' {
            (Token::GreaterThan, 1)
        } else if c == '<' && assigned {
            (Token::LessEquals, 2)
        } else if c == '<' {
            (Token::LessThan, 1)
        } else if c == '&' && doubled {
            (Token::And, 2)
        } else if c == '|' && doubled {
            (Token::Or, 2)
        } else {
            return Err(TokenizeError::UnexpectedCharacter(c));
        };
        self.index = p + width;
        Ok(token)
    }

    /// The next character, if there is one.
    pub fn peek(&self) -> (r: Option<char>)
        ensures
            r == if self.position() < self.input().len() {
                Some(self.input()[self.position()])
            } else {
                None
            },
    {
        if self.index < self.chars.len() {
            Some(self.chars[self.index])
        } else {
            None
        }
    }

    /// Whether every character has been read.
    pub fn is_done(&self) -> (r: bool)
        ensures
            r == (self.position() >= self.input().len()),
    {
        self.index >= self.chars.len()
    }

    /// Reads the next character, if there is one, and moves past it.
    pub fn pop(&mut self) -> (r: Option<char>)
        ensures
            final(self).input() == old(self).input(),
            r == if old(self).position() < old(self).input().len() {
                Some(old(self).input()[old(self).position()])
            } else {
                None
            },
            final(self).position() == if old(self).position() < old(self).input().len() {
                old(self).position() + 1
            } else {
                old(self).position()
            },
    {
        if self.index < self.chars.len() {
            let c = self.chars[self.index];
            self.index = self.index + 1;
            Some(c)
        } else {
            None
        }
    }

    /// Moves past blanks and line feeds; returns whether a character is left.
    pub fn skip_whitespace(&mut self) -> (r: bool)
        ensures
            final(self).input() == old(self).input(),
            old(self).position() <= old(self).input().len() ==> final(self).position()
                == spaces_end(old(self).input(), old(self).position()),
            old(self).position() > old(self).input().len() ==> final(self).position() == old(
                self,
            ).position(),
            r == (final(self).position() < final(self).input().len()),
            old(self).position() <= final(self).position(),
    {
        let ghost s = self.chars@;
        let ghost start = self.index as int;
        let n = self.chars.len();
        while self.index < n && (self.chars[self.index] == ' ' || self.chars[self.index] == '\n')
            invariant
                self.chars@ == s,
                n == s.len(),
                start <= self.index,
                start <= n ==> self.index <= n,
                start > n ==> self.index == start,
                spaces_end(s, start) == spaces_end(s, self.index as int),
            decreases n - self.index,
        {
            self.index = self.index + 1;
        }
        self.index < n
    }
}

} // verus!

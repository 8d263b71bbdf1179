//! Lexical analysis: splits an expression string into number, operator,
//! whitespace and end-of-input tokens, one token per call.

use vstd::prelude::*;
use vstd::string::StrSliceExecFns;

verus! {

/// A lexical token. A number carries the characters of its literal exactly as
/// they appear in the input (a run of decimal digits with at most one `.`).
#[derive(Debug, PartialEq)]
pub enum Token {
    PLUS,
    MINUS,
    TIMES,
    DIVIDE,
    NUMBER(Vec<char>),
    SPACE,
    EOF,
    UNKNOWN,
}

/// The mathematical image of a [`Token`]: the number payload is a `Seq<char>`.
pub enum TokenV {
    Plus,
    Minus,
    Times,
    Divide,
    Number(Seq<char>),
    Space,
    Eof,
    Unknown,
}

impl View for Token {
    type V = TokenV;

    open spec fn view(&self) -> TokenV {
        match self {
            Token::PLUS => TokenV::Plus,
            Token::MINUS => TokenV::Minus,
            Token::TIMES => TokenV::Times,
            Token::DIVIDE => TokenV::Divide,
            Token::NUMBER(v) => TokenV::Number(v@),
            Token::SPACE => TokenV::Space,
            Token::EOF => TokenV::Eof,
            Token::UNKNOWN => TokenV::Unknown,
        }
    }
}

/// A decimal digit `0` through `9`.
pub open spec fn is_digit(c: char) -> bool {
    '0' <= c && c <= '9'
}

/// The whitespace characters the lexer recognizes: space, tab, newline.
pub open spec fn is_space_char(c: char) -> bool {
    c == ' ' || c == '\t' || c == '\n'
}

/// A character that may continue a number literal: a digit or a dot.
pub open spec fn is_num_char(c: char) -> bool {
    is_digit(c) || c == '.'
}

/// Where the number run that is in progress at `i` ends: the first position at
/// or after `i` holding neither a digit nor (while none has been seen) a dot.
pub open spec fn num_run_end(s: Seq<char>, i: int, has_dot: bool) -> int
    decreases s.len() - i,
{
    if i < 0 || i >= s.len() {
        i
    } else if is_digit(s[i]) {
        num_run_end(s, i + 1, has_dot)
    } else if s[i] == '.' && !has_dot {
        num_run_end(s, i + 1, true)
    } else {
        i
    }
}

/// Whether the run holds at least one digit; a run without one (a lone dot) is
/// not a number.
pub open spec fn has_digit(s: Seq<char>) -> bool {
    exists|i: int| 0 <= i < s.len() && is_digit(s[i])
}

/// The token that starts at position `pos` of `s`.
pub open spec fn token_at(s: Seq<char>, pos: int) -> TokenV {
    if pos < 0 || pos >= s.len() {
        TokenV::Eof
    } else if is_space_char(s[pos]) {
        TokenV::Space
    } else if is_num_char(s[pos]) {
        let text = s.subrange(pos, num_run_end(s, pos, false));
        if has_digit(text) {
            TokenV::Number(text)
        } else {
            TokenV::Unknown
        }
    } else if s[pos] == '+' {
        TokenV::Plus
    } else if s[pos] == '-' {
        TokenV::Minus
    } else if s[pos] == '*' {
        TokenV::Times
    } else if s[pos] == '/' {
        TokenV::Divide
    } else {
        TokenV::Unknown
    }
}

/// The position of the first character after the token that starts at `pos`.
/// At end of input the position does not move.
pub open spec fn pos_after(s: Seq<char>, pos: int) -> int {
    if pos < 0 || pos >= s.len() {
        pos
    } else if is_space_char(s[pos]) {
        pos + 1
    } else if is_num_char(s[pos]) {
        num_run_end(s, pos, false)
    } else {
        pos + 1
    }
}

proof fn lemma_num_run_end_bounds(s: Seq<char>, i: int, has_dot: bool)
    requires
        0 <= i <= s.len(),
    ensures
        i <= num_run_end(s, i, has_dot) <= s.len(),
    decreases s.len() - i,
{
    if i < s.len() {
        if is_digit(s[i]) {
            lemma_num_run_end_bounds(s, i + 1, has_dot);
        } else if s[i] == '.' && !has_dot {
            lemma_num_run_end_bounds(s, i + 1, true);
        }
    }
}

/// Every token consumes at least one character, so lexing advances.
pub proof fn lemma_pos_after_advances(s: Seq<char>, pos: int)
    requires
        0 <= pos < s.len(),
    ensures
        pos < pos_after(s, pos) <= s.len(),
{
    if !is_space_char(s[pos]) && is_num_char(s[pos]) {
        lemma_num_run_end_bounds(s, pos + 1, is_digit(s[pos]) == false);
        assert(num_run_end(s, pos, false) == if is_digit(s[pos]) {
            num_run_end(s, pos + 1, false)
        } else {
            num_run_end(s, pos + 1, true)
        });
    }
}

/// The significant tokens from position `pos` to the end of the input:
/// whitespace dropped, the end marker not included.
pub open spec fn sig_tokens(s: Seq<char>, pos: int) -> Seq<TokenV>
    decreases s.len() - pos,
    via sig_tokens_decreases
{
    if pos < 0 || pos >= s.len() {
        Seq::empty()
    } else {
        let t = token_at(s, pos);
        let rest = sig_tokens(s, pos_after(s, pos));
        if t is Space {
            rest
        } else {
            seq![t] + rest
        }
    }
}

#[via_fn]
proof fn sig_tokens_decreases(s: Seq<char>, pos: int) {
    if 0 <= pos < s.len() {
        lemma_pos_after_advances(s, pos);
    }
}

/// Whether a token is one of the four operator tokens.
pub open spec fn is_op_token(t: TokenV) -> bool {
    t is Plus || t is Minus || t is Times || t is Divide
}

/// Binding strength of an operator token: the multiplicative tier sits above
/// the additive tier, and all operators are left-associative.
pub open spec fn op_prec(t: TokenV) -> u8
    recommends
        is_op_token(t),
{
    match t {
        TokenV::Times | TokenV::Divide => 1,
        _ => 0,
    }
}

/// The precedence of a token: a tier for the four operators, `None` otherwise.
pub open spec fn spec_precedence(t: TokenV) -> Option<u8> {
    if is_op_token(t) {
        Some(op_prec(t))
    } else {
        None
    }
}

impl Token {
    /// The precedence tier of an operator token, `*` and `/` above `+` and
    /// `-`; `None` for anything that is not an operator.
    pub fn get_precedence(&self) -> (r: Option<u8>)
        ensures
            r == spec_precedence(self@),
    {
        match self {
            Token::PLUS | Token::MINUS => Some(0u8),
            Token::TIMES | Token::DIVIDE => Some(1u8),
            _ => None,
        }
    }
}

/// Walks an expression string one character position at a time and hands out
/// one token per call of [`Lexer::next_token`].
pub struct Lexer<'a> {
    input: &'a str,
    pos: usize,
}

impl<'a> Lexer<'a> {
    /// The characters being lexed.
    pub closed spec fn text(&self) -> Seq<char> {
        self.input@
    }

    /// The current scan position, as a mathematical index.
    pub closed spec fn at(&self) -> int {
        self.pos as int
    }

    /// The scan position never leaves the input.
    pub open spec fn wf(&self) -> bool {
        0 <= self.at() <= self.text().len()
    }

    pub fn new(input: &'a str) -> (r: Self)
        ensures
            r.wf(),
            r.text() == input@,
            r.at() == 0,
    {
        Self { input, pos: 0 }
    }

    fn advance(&mut self) -> (c: Option<char>)
        requires
            old(self).wf(),
        ensures
            final(self).wf(),
            final(self).text() == old(self).text(),
            final(self).at() == if old(self).at() < old(self).text().len() {
                old(self).at() + 1
            } else {
                old(self).at()
            },
            c matches Some(ch) ==> final(self).at() < final(self).text().len()
                && ch == final(self).text()[final(self).at()],
            c is None ==> final(self).at() >= final(self).text().len(),
    {
        if self.pos < self.input.unicode_len() {
            self.pos = self.pos + 1;
        }
        if self.pos < self.input.unicode_len() {
            Some(self.input.get_char(self.pos))
        } else {
            None
        }
    }

    /// Hands out the token that starts at the current position and moves past
    /// it. Once the input is exhausted every further call returns
    /// [`Token::EOF`] and the position stays put.
    pub fn next_token(&mut self) -> (t: Token)
        requires
            old(self).wf(),
        ensures
            final(self).wf(),
            final(self).text() == old(self).text(),
            t@ == token_at(old(self).text(), old(self).at()),
            final(self).at() == pos_after(old(self).text(), old(self).at()),
            old(self).at() >= old(self).text().len() ==> t@ is Eof && final(self).at()
                == old(self).at(),
    {
        if self.pos < self.input.unicode_len() {
            let c = self.input.get_char(self.pos);
            if c == ' ' || c == '\t' || c == '\n' {
                self.advance();
                Token::SPACE
            } else if (c >= '0' && c <= '9') || c == '.' {
                self.next_number()
            } else if c == '+' {
                self.advance();
                Token::PLUS
            } else if c == '-' {
                self.advance();
                Token::MINUS
            } else if c == '*' {
                self.advance();
                Token::TIMES
            } else if c == '/' {
                self.advance();
                Token::DIVIDE
            } else {
                self.advance();
                Token::UNKNOWN
            }
        } else {
            Token::EOF
        }
    }

    /// Scans the number run that starts at the current position: digits with
    /// at most one dot, taken greedily. A run without a single digit (a lone
    /// dot) is not a number and comes back as [`Token::UNKNOWN`].
    fn next_number(&mut self) -> (t: Token)
        requires
            old(self).wf(),
            old(self).at() < old(self).text().len(),
            is_num_char(old(self).text()[old(self).at()]),
        ensures
            final(self).wf(),
            final(self).text() == old(self).text(),
            t@ == token_at(old(self).text(), old(self).at()),
            final(self).at() == pos_after(old(self).text(), old(self).at()),
    {
        let ghost s = self.text();
        let ghost start = self.at();
        let mut num: Vec<char> = Vec::new();
        let mut has_dot = false;
        let mut saw_digit = false;
        loop
            invariant
                self.wf(),
                self.text() == s,
                0 <= start <= self.at() <= s.len(),
                num@ == s.subrange(start, self.at()),
                saw_digit == has_digit(num@),
                num_run_end(s, start, false) == num_run_end(s, self.at(), has_dot),
            ensures
                self.wf(),
                self.text() == s,
                0 <= start <= self.at() <= s.len(),
                num@ == s.subrange(start, self.at()),
                saw_digit == has_digit(num@),
                num_run_end(s, start, false) == self.at(),
            decreases s.len() - self.at(),
        {
            if self.pos < self.input.unicode_len() {
                let c = self.input.get_char(self.pos);
                if c >= '0' && c <= '9' {
                    num.push(c);
                    saw_digit = true;
                    proof {
                        assert(num@[num@.len() - 1] == c);
                        assert(num@ =~= s.subrange(start, self.at() + 1));
                    }
                    self.pos = self.pos + 1;
                } else if c == '.' && !has_dot {
                    let ghost prev = num@;
                    num.push(c);
                    has_dot = true;
                    proof {
                        assert(num@ =~= s.subrange(start, self.at() + 1));
                        if !saw_digit {
                            assert forall|i: int| 0 <= i < num@.len() implies !is_digit(
                                num@[i],
                            ) by {
                                if i < num@.len() - 1 {
                                    assert(num@[i] == prev[i]);
                                }
                            }
                        }
                    }
                    self.pos = self.pos + 1;
                } else {
                    break;
                }
            } else {
                break;
            }
        }

        if saw_digit {
            Token::NUMBER(num)
        } else {
            Token::UNKNOWN
        }
    }
}

} // verus!

//! Tokenizer: turns a line of text into a stream of single-character
//! tokens, stripping ASCII whitespace.

use vstd::prelude::*;

verus! {

/// A single-character token: an alphanumeric atom, an operator
/// character, or the end-of-input sentinel that the stream hands out
/// once it is exhausted.
#[derive(Debug, Clone, Copy, PartialEq, Eq, Structural)]
pub enum Token {
    Atom(char),
    Op(char),
    Eof,
}

/// The ASCII whitespace characters, which the tokenizer removes.
pub open spec fn is_ascii_whitespace_char(c: char) -> bool {
    c == ' ' || c == '\t' || c == '\n' || c == '\u{c}' || c == '\r'
}

/// A decimal digit character.
pub open spec fn is_digit_char(c: char) -> bool {
    '0' <= c && c <= '9'
}

/// An ASCII letter, usable as a variable name.
pub open spec fn is_letter_char(c: char) -> bool {
    ('a' <= c && c <= 'z') || ('A' <= c && c <= 'Z')
}

/// Characters that tokenize as atoms: digits and letters.
pub open spec fn is_atom_char(c: char) -> bool {
    is_digit_char(c) || is_letter_char(c)
}

/// How a single non-whitespace character tokenizes.
pub open spec fn classify_char(c: char) -> Token {
    if is_atom_char(c) {
        Token::Atom(c)
    } else {
        Token::Op(c)
    }
}

/// The token sequence of a line of text, in left-to-right order:
/// whitespace is dropped, every other character becomes one token.
pub open spec fn tokenize(s: Seq<char>) -> Seq<Token>
    decreases s.len(),
{
    if s.len() == 0 {
        Seq::empty()
    } else if is_ascii_whitespace_char(s[0]) {
        tokenize(s.drop_first())
    } else {
        seq![classify_char(s[0])] + tokenize(s.drop_first())
    }
}

/// A token stream over one line of input. Tokens are stored in
/// reverse order so that taking the logically first token is a pop
/// from the end of the vector; the view hides this and presents the
/// tokens in left-to-right order.
#[derive(Debug)]
pub struct Lexer {
    tokens: Vec<Token>,
}

impl View for Lexer {
    type V = Seq<Token>;

    closed spec fn view(&self) -> Seq<Token> {
        self.tokens@.reverse()
    }
}

impl Lexer {
    /// Tokenizes one line of input.
    pub fn new(input: &str) -> (l: Lexer)
        ensures
            l@ == tokenize(input@),
    {
        let n = input.unicode_len();
        let mut tokens: Vec<Token> = Vec::new();
        let mut i = n;
        while i > 0
            invariant
                i <= n,
                n == input@.len(),
                tokens@.reverse() == tokenize(input@.skip(i as int)),
            decreases i,
        {
            i = i - 1;
            let c = input.get_char(i);
            proof {
                assert(input@.skip(i as int).drop_first() =~= input@.skip(i as int + 1));
            }
            if !(c == ' ' || c == '\t' || c == '\n' || c == '\u{c}' || c == '\r') {
                let t = if ('0' <= c && c <= '9') || ('a' <= c && c <= 'z') || ('A' <= c && c <= 'Z') {
                    Token::Atom(c)
                } else {
                    Token::Op(c)
                };
                tokens.push(t);
                proof {
                    assert(tokens@.reverse() =~= seq![t] + tokens@.drop_last().reverse());
                }
            }
        }
        proof {
            assert(input@.skip(0) =~= input@);
        }
        Lexer { tokens }
    }

    /// Removes and returns the logically first token, or `Eof` if the
    /// stream is exhausted.
    pub fn next(&mut self) -> (t: Token)
        ensures
            old(self)@.len() == 0 ==> t == Token::Eof && final(self)@ == old(self)@,
            old(self)@.len() > 0 ==> t == old(self)@[0] && final(self)@ == old(self)@.drop_first(),
    {
        let r = self.tokens.pop();
        match r {
            Some(t) => {
                proof {
                    assert(self@ =~= old(self)@.drop_first());
                }
                t
            },
            None => Token::Eof,
        }
    }

    /// Returns the logically first token without removing it, or
    /// `Eof` if the stream is exhausted.
    pub fn peek(&mut self) -> (t: Token)
        ensures
            final(self)@ == old(self)@,
            old(self)@.len() == 0 ==> t == Token::Eof,
            old(self)@.len() > 0 ==> t == old(self)@[0],
    {
        if self.tokens.len() > 0 {
            self.tokens[self.tokens.len() - 1]
        } else {
            Token::Eof
        }
    }
}

} // verus!

//! The words of an expression line: numbers, memory commands,
//! operators and parentheses.

use vstd::prelude::*;
use vstd::string::StrSliceExecFns;
use vstd::string::StringExecFns;
use super::text::{split_pieces, split_whitespace, texts};

verus! {

/// One word of an expression line. A number is kept as its text.
#[derive(Debug, PartialEq)]
pub enum Token {
    /// A number, e.g. `1.23`.
    Number(String),
    /// Reading a memory slot, e.g. `memA`.
    MemoryRef(String),
    /// Adding to a memory slot, e.g. `memA+`.
    MemoryPlus(String),
    /// Subtracting from a memory slot, e.g. `memA-`.
    MemoryMinus(String),
    Plus,
    Minus,
    Asterisk,
    Slash,
    LParen,
    RParen,
}

/// `v` begins with the three letters `mem`.
pub open spec fn starts_with_mem(v: Seq<char>) -> bool {
    v.len() >= 3 && v[0] == 'm' && v[1] == 'e' && v[2] == 'm'
}

/// `t` is what the word `v` reads as: one of the six operator and
/// parenthesis words; else, for a word that begins with `mem`, a memory
/// command on the slot named by the rest of the word (without a final
/// `+` or `-`, which selects adding or subtracting); else a number with
/// the word as its text.
pub open spec fn reads_as(v: Seq<char>, t: Token) -> bool {
    if v == seq!['+'] {
        t is Plus
    } else if v == seq!['-'] {
        t is Minus
    } else if v == seq!['*'] {
        t is Asterisk
    } else if v == seq!['/'] {
        t is Slash
    } else if v == seq!['('] {
        t is LParen
    } else if v == seq![')'] {
        t is RParen
    } else if starts_with_mem(v) {
        if v.last() == '+' {
            t matches Token::MemoryPlus(n) && n@ == v.subrange(3, v.len() - 1)
        } else if v.last() == '-' {
            t matches Token::MemoryMinus(n) && n@ == v.subrange(3, v.len() - 1)
        } else {
            t matches Token::MemoryRef(n) && n@ == v.subrange(3, v.len() as int)
        }
    } else {
        t matches Token::Number(x) && x@ == v
    }
}

impl Token {
    /// Reads one word.
    pub fn parse(value: &str) -> (t: Token)
        ensures
            reads_as(value@, t),
    {
        let n = value.unicode_len();
        if n == 1 {
            let c = value.get_char(0);
            assert(value@ =~= seq![c]);
            if c == '+' {
                return Token::Plus;
            } else if c == '-' {
                return Token::Minus;
            } else if c == '*' {
                return Token::Asterisk;
            } else if c == '/' {
                return Token::Slash;
            } else if c == '(' {
                return Token::LParen;
            } else if c == ')' {
                return Token::RParen;
            }
        }
        proof {
            if n != 1 {
                assert(seq!['+'].len() == 1);
            }
        }
        if n >= 3 && value.get_char(0) == 'm' && value.get_char(1) == 'e' && value.get_char(2) == 'm' {
            let last = value.get_char(n - 1);
            assert(n != 1);
            if last == '+' {
                Token::MemoryPlus(String::from_str(value.substring_char(3, n - 1)))
            } else if last == '-' {
                Token::MemoryMinus(String::from_str(value.substring_char(3, n - 1)))
            } else {
                Token::MemoryRef(String::from_str(value.substring_char(3, n)))
            }
        } else {
            Token::Number(String::from_str(value))
        }
    }

    /// Splits `text` at every whitespace character and reads each piece.
    pub fn split(text: &str) -> (tokens: Vec<Token>)
        ensures
            tokens@.len() == split_pieces(text@).len(),
            tokens@.len() >= 1,
            forall|i: int| 0 <= i < tokens@.len() ==> reads_as(split_pieces(text@)[i], #[trigger] tokens@[i]),
    {
        let pieces = split_whitespace(text);
        let mut tokens: Vec<Token> = Vec::new();
        let n = pieces.len();
        for i in 0..n
            invariant
                n == pieces@.len(),
                texts(pieces@) == split_pieces(text@),
                tokens@.len() == i,
                forall|j: int| 0 <= j < i ==> reads_as(split_pieces(text@)[j], #[trigger] tokens@[j]),
        {
            assert(split_pieces(text@)[i as int] == pieces@[i as int]@);
            tokens.push(Token::parse(pieces[i].as_str()));
        }
        tokens
    }
}

} // verus!

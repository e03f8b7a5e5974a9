//! Reading a whole line of the simpler calculators: `left op right`,
//! optionally with memory commands. Each reader returns `None` exactly
//! where a line that is no memory command has fewer than three words or
//! an unknown operator as its second word.

use vstd::prelude::*;
use vstd::string::StrSliceExecFns;
use vstd::string::StringExecFns;
use super::text::{split_pieces, split_whitespace, texts};

verus! {

/// One of the four arithmetic operators.
#[derive(Debug, Clone, Copy, PartialEq, Eq)]
pub enum Operator {
    Add,
    Sub,
    Mul,
    Div,
}

/// The operator that the word `v` names, if any.
pub open spec fn operator_of(v: Seq<char>) -> Option<Operator> {
    if v == seq!['+'] {
        Some(Operator::Add)
    } else if v == seq!['-'] {
        Some(Operator::Sub)
    } else if v == seq!['*'] {
        Some(Operator::Mul)
    } else if v == seq!['/'] {
        Some(Operator::Div)
    } else {
        None
    }
}

impl Operator {
    /// Reads an operator word: `+`, `-`, `*` or `/`.
    pub fn parse(word: &str) -> (op: Option<Operator>)
        ensures
            op == operator_of(word@),
    {
        if word.unicode_len() != 1 {
            assert(seq!['+'].len() == 1);
            return None;
        }
        let c = word.get_char(0);
        assert(word@ =~= seq![c]);
        if c == '+' {
            Some(Operator::Add)
        } else if c == '-' {
            Some(Operator::Sub)
        } else if c == '*' {
            Some(Operator::Mul)
        } else if c == '/' {
            Some(Operator::Div)
        } else {
            None
        }
    }
}

/// An operand of a calculation: a memory slot, or a number given by its
/// text.
#[derive(Debug, Clone, PartialEq, Eq)]
pub enum Operand {
    Memory(String),
    Number(String),
}

/// What a line of a memory calculator asks for: add or subtract the
/// last result to or from a memory slot, or calculate `left op right`.
/// The single-memory calculator names its one memory by the empty name.
#[derive(Debug, Clone, PartialEq, Eq)]
pub enum Command {
    MemoryPlus(String),
    MemoryMinus(String),
    Calculate(Operand, Operator, Operand),
}

/// `c` is `Calculate(l, op, r)` with operands read from the first and
/// third words by `operand` and the operator named by the second word;
/// false when the line has fewer than three words or the second word
/// names no operator.
pub open spec fn calculates(p: Seq<Seq<char>>, c: Command, operand: spec_fn(Seq<char>, Operand) -> bool) -> bool {
    &&& p.len() >= 3
    &&& operator_of(p[1]) is Some
    &&& c matches Command::Calculate(l, op, r) && operand(p[0], l) && op == operator_of(p[1])->0
        && operand(p[2], r)
}

/// The word `v` in the single-memory calculator: `mem` is the memory,
/// anything else a number.
pub open spec fn single_memory_operand(v: Seq<char>, x: Operand) -> bool {
    if v == seq!['m', 'e', 'm'] {
        x matches Operand::Memory(n) && n@ == Seq::<char>::empty()
    } else {
        x matches Operand::Number(t) && t@ == v
    }
}

/// The word `v` in the named-memory calculator: a word beginning with
/// `mem` reads the slot named by the rest of it, anything else is a
/// number.
pub open spec fn named_memory_operand(v: Seq<char>, x: Operand) -> bool {
    if v.len() >= 3 && v.take(3) == seq!['m', 'e', 'm'] {
        x matches Operand::Memory(n) && n@ == v.skip(3)
    } else {
        x matches Operand::Number(t) && t@ == v
    }
}

/// The words of a line of the plain calculator: `left op right`.
pub open spec fn binary_line(p: Seq<Seq<char>>, r: Option<(String, Operator, String)>) -> bool {
    if p.len() >= 3 && operator_of(p[1]) is Some {
        r matches Some((l, op, rt)) && l@ == p[0] && op == operator_of(p[1])->0 && rt@ == p[2]
    } else {
        r is None
    }
}

/// What a line of the single-memory calculator asks for: `mem+` and
/// `mem-` as the first word change the memory, else `left op right`.
pub open spec fn single_memory_line(p: Seq<Seq<char>>, r: Option<Command>) -> bool {
    if p[0] == seq!['m', 'e', 'm', '+'] {
        r matches Some(Command::MemoryPlus(n)) && n@ == Seq::<char>::empty()
    } else if p[0] == seq!['m', 'e', 'm', '-'] {
        r matches Some(Command::MemoryMinus(n)) && n@ == Seq::<char>::empty()
    } else if p.len() >= 3 && operator_of(p[1]) is Some {
        r matches Some(c) && calculates(p, c, |v: Seq<char>, x: Operand| single_memory_operand(v, x))
    } else {
        r is None
    }
}

/// What a line of the named-memory calculator asks for: a first word
/// `mem<name>+` or `mem<name>-` changes the slot `<name>`, else
/// `left op right`.
pub open spec fn named_memory_line(p: Seq<Seq<char>>, r: Option<Command>) -> bool {
    let w = p[0];
    let is_memory = w.len() >= 3 && w.take(3) == seq!['m', 'e', 'm'];
    if is_memory && w.last() == '+' {
        r matches Some(Command::MemoryPlus(n)) && n@ == w.subrange(3, w.len() - 1)
    } else if is_memory && w.last() == '-' {
        r matches Some(Command::MemoryMinus(n)) && n@ == w.subrange(3, w.len() - 1)
    } else if p.len() >= 3 && operator_of(p[1]) is Some {
        r matches Some(c) && calculates(p, c, |v: Seq<char>, x: Operand| named_memory_operand(v, x))
    } else {
        r is None
    }
}

fn is_word(w: &str, a: char, b: char, c: char, d: char, len: usize) -> (same: bool)
    requires
        len == 3 || len == 4,
    ensures
        len == 3 ==> same == (w@ == seq![a, b, c]),
        len == 4 ==> same == (w@ == seq![a, b, c, d]),
{
    let n = w.unicode_len();
    if n != len {
        return false;
    }
    let same = w.get_char(0) == a && w.get_char(1) == b && w.get_char(2) == c && (len == 3
        || w.get_char(3) == d);
    if len == 3 {
        assert(same == (w@ =~= seq![a, b, c]));
    } else {
        assert(same == (w@ =~= seq![a, b, c, d]));
    }
    same
}

fn begins_with_mem(w: &str) -> (b: bool)
    ensures
        b == (w@.len() >= 3 && w@.take(3) == seq!['m', 'e', 'm']),
{
    let n = w.unicode_len();
    if n < 3 {
        return false;
    }
    let b = w.get_char(0) == 'm' && w.get_char(1) == 'e' && w.get_char(2) == 'm';
    assert(b == (w@.take(3) =~= seq!['m', 'e', 'm']));
    b
}

/// Reads an operand of the single-memory calculator.
pub fn single_memory_operand_of(word: &str) -> (x: Operand)
    ensures
        single_memory_operand(word@, x),
{
    if is_word(word, 'm', 'e', 'm', ' ', 3) {
        Operand::Memory(String::new())
    } else {
        Operand::Number(String::from_str(word))
    }
}

/// Reads an operand of the named-memory calculator.
pub fn named_memory_operand_of(word: &str) -> (x: Operand)
    ensures
        named_memory_operand(word@, x),
{
    if begins_with_mem(word) {
        let n = word.unicode_len();
        Operand::Memory(String::from_str(word.substring_char(3, n)))
    } else {
        Operand::Number(String::from_str(word))
    }
}

/// Reads a line of the plain calculator: `left op right`. Words after
/// the third are ignored.
pub fn parse_binary_line(line: &str) -> (r: Option<(String, Operator, String)>)
    ensures
        binary_line(split_pieces(line@), r),
{
    let words = split_whitespace(line);
    if words.len() < 3 {
        return None;
    }
    proof {
        assert(texts(words@)[1] == words@[1]@);
        assert(texts(words@)[0] == words@[0]@);
        assert(texts(words@)[2] == words@[2]@);
    }
    match Operator::parse(words[1].as_str()) {
        Some(op) => Some((words[0].clone(), op, words[2].clone())),
        None => None,
    }
}

/// Reads a line of the single-memory calculator.
pub fn parse_single_memory_line(line: &str) -> (r: Option<Command>)
    ensures
        single_memory_line(split_pieces(line@), r),
{
    let words = split_whitespace(line);
    let ghost p = split_pieces(line@);
    assert(texts(words@)[0] == words@[0]@);
    if is_word(words[0].as_str(), 'm', 'e', 'm', '+', 4) {
        return Some(Command::MemoryPlus(String::new()));
    }
    if is_word(words[0].as_str(), 'm', 'e', 'm', '-', 4) {
        return Some(Command::MemoryMinus(String::new()));
    }
    if words.len() < 3 {
        return None;
    }
    assert(texts(words@)[1] == words@[1]@);
    assert(texts(words@)[2] == words@[2]@);
    match Operator::parse(words[1].as_str()) {
        Some(op) => {
            let left = single_memory_operand_of(words[0].as_str());
            let right = single_memory_operand_of(words[2].as_str());
            Some(Command::Calculate(left, op, right))
        },
        None => None,
    }
}

/// Reads a line of the named-memory calculator.
pub fn parse_named_memory_line(line: &str) -> (r: Option<Command>)
    ensures
        named_memory_line(split_pieces(line@), r),
{
    let words = split_whitespace(line);
    assert(texts(words@)[0] == words@[0]@);
    let first = words[0].as_str();
    if begins_with_mem(first) {
        let n = first.unicode_len();
        let last = first.get_char(n - 1);
        if last == '+' {
            return Some(Command::MemoryPlus(String::from_str(first.substring_char(3, n - 1))));
        } else if last == '-' {
            return Some(Command::MemoryMinus(String::from_str(first.substring_char(3, n - 1))));
        }
    }
    if words.len() < 3 {
        return None;
    }
    assert(texts(words@)[1] == words@[1]@);
    assert(texts(words@)[2] == words@[2]@);
    match Operator::parse(words[1].as_str()) {
        Some(op) => {
            let left = named_memory_operand_of(words[0].as_str());
            let right = named_memory_operand_of(words[2].as_str());
            Some(Command::Calculate(left, op, right))
        },
        None => None,
    }
}

/// Law: in the single-memory calculator a line `left op right` whose
/// first word is no memory command is a calculation whose operator is the
/// second word, and both operands are read alike: a word `mem` is the
/// memory (by the empty name), on the left as on the right, and any
/// other word is a number whose text is that word.
pub proof fn law_single_memory_operands(p: Seq<Seq<char>>, r: Option<Command>)
    requires
        p.len() >= 3,
        p[0] != seq!['m', 'e', 'm', '+'],
        p[0] != seq!['m', 'e', 'm', '-'],
        operator_of(p[1]) is Some,
        single_memory_line(p, r),
    ensures
        r matches Some(Command::Calculate(_, op, _)) && op == operator_of(p[1])->0,
        r matches Some(Command::Calculate(l, _, _)) && (p[0] == seq!['m', 'e', 'm'] <==> l is Memory),
        r matches Some(Command::Calculate(_, _, rt)) && (p[2] == seq!['m', 'e', 'm'] <==> rt is Memory),
        r matches Some(Command::Calculate(Operand::Memory(n), _, _)) ==> n@.len() == 0,
        r matches Some(Command::Calculate(_, _, Operand::Memory(n))) ==> n@.len() == 0,
        r matches Some(Command::Calculate(Operand::Number(t), _, _)) ==> t@ == p[0],
        r matches Some(Command::Calculate(_, _, Operand::Number(t))) ==> t@ == p[2],
{
}

/// Law: in the named-memory calculator a line `left op right` whose
/// first word is no memory command is a calculation whose operator is the
/// second word, and both operands are read alike: a word that begins with
/// `mem` is the slot named by the rest of it, on the left as on the
/// right, and any other word is a number whose text is that word.
pub proof fn law_named_memory_operands(p: Seq<Seq<char>>, r: Option<Command>)
    requires
        p.len() >= 3,
        !(p[0].len() >= 3 && p[0].take(3) == seq!['m', 'e', 'm'] && (p[0].last() == '+' || p[0].last()
            == '-')),
        operator_of(p[1]) is Some,
        named_memory_line(p, r),
    ensures
        r matches Some(Command::Calculate(_, op, _)) && op == operator_of(p[1])->0,
        r matches Some(Command::Calculate(l, _, _)) && (p[0].len() >= 3 && p[0].take(3) == seq!['m', 'e', 'm']
            <==> l is Memory),
        r matches Some(Command::Calculate(_, _, rt)) && (p[2].len() >= 3 && p[2].take(3) == seq!['m', 'e', 'm']
            <==> rt is Memory),
        r matches Some(Command::Calculate(Operand::Memory(n), _, _)) ==> n@ == p[0].skip(3),
        r matches Some(Command::Calculate(_, _, Operand::Memory(n))) ==> n@ == p[2].skip(3),
        r matches Some(Command::Calculate(Operand::Number(t), _, _)) ==> t@ == p[0],
        r matches Some(Command::Calculate(_, _, Operand::Number(t))) ==> t@ == p[2],
{
}

} // verus!

//! Parsing a line of words into an expression tree: `*` and `/` bind
//! tighter than `+` and `-`, operators of one level group from the
//! left, and parentheses nest.

use vstd::prelude::*;
use super::token::Token;

verus! {

/// An arithmetic expression. Numbers are kept as their text, memory
/// reads by their slot name.
#[derive(Debug, PartialEq)]
pub enum Expr {
    Number(String),
    Memory(String),
    Add(Box<Expr>, Box<Expr>),
    Sub(Box<Expr>, Box<Expr>),
    Mul(Box<Expr>, Box<Expr>),
    Div(Box<Expr>, Box<Expr>),
}

/// A primary expression at `i`: a number, a memory read, or an
/// expression in parentheses. Gives the tree and the position after it,
/// or `None` where there is none.
pub open spec fn primary_at(t: Seq<Token>, i: int) -> Option<(Expr, int)>
    decreases t.len() - i, 0int,
{
    if 0 <= i < t.len() {
        match t[i] {
            Token::LParen => match additive_at(t, i + 1) {
                Some((e, j)) => if 0 <= j < t.len() && t[j] is RParen {
                    Some((e, j + 1))
                } else {
                    None
                },
                None => None,
            },
            Token::Number(v) => Some((Expr::Number(v), i + 1)),
            Token::MemoryRef(n) => Some((Expr::Memory(n), i + 1)),
            _ => None,
        }
    } else {
        None
    }
}

/// Primary expressions joined by `*` and `/`, starting at `i`.
pub open spec fn multiplicative_at(t: Seq<Token>, i: int) -> Option<(Expr, int)>
    decreases t.len() - i, 1int,
{
    match primary_at(t, i) {
        Some((e, j)) => if i < j <= t.len() {
            multiplicative_rest(t, e, j)
        } else {
            None
        },
        None => None,
    }
}

/// The `*` and `/` steps from position `j` on, folded onto `acc` from
/// the left. Stops at the end or at any other word.
pub open spec fn multiplicative_rest(t: Seq<Token>, acc: Expr, j: int) -> Option<(Expr, int)>
    decreases t.len() - j, 2int,
{
    if 0 <= j < t.len() && (t[j] is Asterisk || t[j] is Slash) {
        match primary_at(t, j + 1) {
            Some((v, k)) => if j + 1 < k <= t.len() {
                let next = if t[j] is Asterisk {
                    Expr::Mul(Box::new(acc), Box::new(v))
                } else {
                    Expr::Div(Box::new(acc), Box::new(v))
                };
                multiplicative_rest(t, next, k)
            } else {
                None
            },
            None => None,
        }
    } else {
        Some((acc, j))
    }
}

/// Multiplicative expressions joined by `+` and `-`, starting at `i`.
pub open spec fn additive_at(t: Seq<Token>, i: int) -> Option<(Expr, int)>
    decreases t.len() - i, 3int,
{
    match multiplicative_at(t, i) {
        Some((e, j)) => if i < j <= t.len() {
            additive_rest(t, e, j)
        } else {
            None
        },
        None => None,
    }
}

/// The `+` and `-` steps from position `j` on, folded onto `acc` from
/// the left. Stops at the end or at any other word.
pub open spec fn additive_rest(t: Seq<Token>, acc: Expr, j: int) -> Option<(Expr, int)>
    decreases t.len() - j, 4int,
{
    if 0 <= j < t.len() && (t[j] is Plus || t[j] is Minus) {
        match multiplicative_at(t, j + 1) {
            Some((v, k)) => if j + 1 < k <= t.len() {
                let next = if t[j] is Plus {
                    Expr::Add(Box::new(acc), Box::new(v))
                } else {
                    Expr::Sub(Box::new(acc), Box::new(v))
                };
                additive_rest(t, next, k)
            } else {
                None
            },
            None => None,
        }
    } else {
        Some((acc, j))
    }
}

/// The tree of the whole line: an additive expression that uses up
/// every word.
pub open spec fn expression_of(t: Seq<Token>) -> Option<Expr> {
    match additive_at(t, 0) {
        Some((e, j)) => if j == t.len() {
            Some(e)
        } else {
            None
        },
        None => None,
    }
}

/// `r` is the spec result `s`, with the position as a `usize`.
pub open spec fn agrees(r: Option<(Expr, usize)>, s: Option<(Expr, int)>) -> bool {
    match r {
        Some((e, j)) => s == Some((e, j as int)),
        None => s is None,
    }
}

proof fn lemma_primary_bounds(t: Seq<Token>, i: int)
    ensures
        primary_at(t, i) matches Some((e, k)) ==> i < k <= t.len(),
    decreases t.len() - i, 0int,
{
    if 0 <= i < t.len() && t[i] is LParen {
        lemma_additive_bounds(t, i + 1);
    }
}

proof fn lemma_multiplicative_bounds(t: Seq<Token>, i: int)
    ensures
        multiplicative_at(t, i) matches Some((e, k)) ==> i < k <= t.len(),
    decreases t.len() - i, 1int,
{
    if let Some((e, j)) = primary_at(t, i) {
        if i < j <= t.len() {
            lemma_multiplicative_rest_bounds(t, e, j);
        }
    }
}

proof fn lemma_multiplicative_rest_bounds(t: Seq<Token>, acc: Expr, j: int)
    requires
        j <= t.len(),
    ensures
        multiplicative_rest(t, acc, j) matches Some((e, k)) ==> j <= k <= t.len(),
    decreases t.len() - j, 2int,
{
    if 0 <= j < t.len() && (t[j] is Asterisk || t[j] is Slash) {
        if let Some((v, k)) = primary_at(t, j + 1) {
            if j + 1 < k <= t.len() {
                let next = if t[j] is Asterisk {
                    Expr::Mul(Box::new(acc), Box::new(v))
                } else {
                    Expr::Div(Box::new(acc), Box::new(v))
                };
                lemma_multiplicative_rest_bounds(t, next, k);
            }
        }
    }
}

proof fn lemma_additive_bounds(t: Seq<Token>, i: int)
    ensures
        additive_at(t, i) matches Some((e, k)) ==> i < k <= t.len(),
    decreases t.len() - i, 3int,
{
    if let Some((e, j)) = multiplicative_at(t, i) {
        if i < j <= t.len() {
            lemma_additive_rest_bounds(t, e, j);
        }
    }
}

proof fn lemma_additive_rest_bounds(t: Seq<Token>, acc: Expr, j: int)
    requires
        j <= t.len(),
    ensures
        additive_rest(t, acc, j) matches Some((e, k)) ==> j <= k <= t.len(),
    decreases t.len() - j, 4int,
{
    if 0 <= j < t.len() && (t[j] is Plus || t[j] is Minus) {
        if let Some((v, k)) = multiplicative_at(t, j + 1) {
            if j + 1 < k <= t.len() {
                let next = if t[j] is Plus {
                    Expr::Add(Box::new(acc), Box::new(v))
                } else {
                    Expr::Sub(Box::new(acc), Box::new(v))
                };
                lemma_additive_rest_bounds(t, next, k);
            }
        }
    }
}

/// Parses a primary expression at `index`: a number, a memory read, or
/// an additive expression in parentheses. `None` where there is none
/// (past the end, an operator, or a missing `)`).
pub fn parse_primary_expression(tokens: &[Token], index: usize) -> (r: Option<(Expr, usize)>)
    ensures
        agrees(r, primary_at(tokens@, index as int)),
        r matches Some((e, k)) ==> index < k <= tokens@.len(),
    decreases tokens@.len() - index, 0int,
{
    proof {
        lemma_primary_bounds(tokens@, index as int);
    }
    if index >= tokens.len() {
        return None;
    }
    match &tokens[index] {
        Token::LParen => {
            match parse_additive_expression(tokens, index + 1) {
                Some((e, next)) => {
                    if next < tokens.len() {
                        match &tokens[next] {
                            Token::RParen => Some((e, next + 1)),
                            _ => None,
                        }
                    } else {
                        None
                    }
                },
                None => None,
            }
        },
        Token::Number(v) => Some((Expr::Number(v.clone()), index + 1)),
        Token::MemoryRef(n) => Some((Expr::Memory(n.clone()), index + 1)),
        _ => None,
    }
}

/// Parses primary expressions joined by `*` and `/` from `index`,
/// grouping from the left.
pub fn parse_multiplicative_expression(tokens: &[Token], index: usize) -> (r: Option<(Expr, usize)>)
    ensures
        agrees(r, multiplicative_at(tokens@, index as int)),
        r matches Some((e, k)) ==> index < k <= tokens@.len(),
    decreases tokens@.len() - index, 1int,
{
    proof {
        lemma_multiplicative_bounds(tokens@, index as int);
    }
    let mut acc: Expr;
    let mut cur: usize;
    match parse_primary_expression(tokens, index) {
        Some((e, j)) => {
            acc = e;
            cur = j;
        },
        None => {
            return None;
        },
    }
    loop
        invariant
            index < cur <= tokens@.len(),
            multiplicative_at(tokens@, index as int) == multiplicative_rest(tokens@, acc, cur as int),
        decreases tokens@.len() - cur,
    {
        if cur >= tokens.len() {
            return Some((acc, cur));
        }
        let is_mul = match &tokens[cur] {
            Token::Asterisk => true,
            Token::Slash => false,
            _ => {
                return Some((acc, cur));
            },
        };
        match parse_primary_expression(tokens, cur + 1) {
            Some((v, next)) => {
                acc = if is_mul {
                    Expr::Mul(Box::new(acc), Box::new(v))
                } else {
                    Expr::Div(Box::new(acc), Box::new(v))
                };
                cur = next;
            },
            None => {
                return None;
            },
        }
    }
}

/// Parses multiplicative expressions joined by `+` and `-` from
/// `index`, grouping from the left.
pub fn parse_additive_expression(tokens: &[Token], index: usize) -> (r: Option<(Expr, usize)>)
    ensures
        agrees(r, additive_at(tokens@, index as int)),
        r matches Some((e, k)) ==> index < k <= tokens@.len(),
    decreases tokens@.len() - index, 3int,
{
    proof {
        lemma_additive_bounds(tokens@, index as int);
    }
    let mut acc: Expr;
    let mut cur: usize;
    match parse_multiplicative_expression(tokens, index) {
        Some((e, j)) => {
            acc = e;
            cur = j;
        },
        None => {
            return None;
        },
    }
    loop
        invariant
            index < cur <= tokens@.len(),
            additive_at(tokens@, index as int) == additive_rest(tokens@, acc, cur as int),
        decreases tokens@.len() - cur,
    {
        if cur >= tokens.len() {
            return Some((acc, cur));
        }
        let is_add = match &tokens[cur] {
            Token::Plus => true,
            Token::Minus => false,
            _ => {
                return Some((acc, cur));
            },
        };
        match parse_multiplicative_expression(tokens, cur + 1) {
            Some((v, next)) => {
                acc = if is_add {
                    Expr::Add(Box::new(acc), Box::new(v))
                } else {
                    Expr::Sub(Box::new(acc), Box::new(v))
                };
                cur = next;
            },
            None => {
                return None;
            },
        }
    }
}

/// Parses a whole line of words into one expression tree. `None` when
/// the words do not form one expression that uses all of them.
pub fn parse_expression(tokens: &[Token]) -> (r: Option<Expr>)
    ensures
        r == expression_of(tokens@),
{
    match parse_additive_expression(tokens, 0) {
        Some((e, j)) => {
            if j == tokens.len() {
                Some(e)
            } else {
                None
            }
        },
        None => None,
    }
}

/// The words of `e` written out with every compound expression in
/// parentheses, e.g. `( 1 + ( 2 * 3 ) )`.
pub open spec fn words_of(e: Expr) -> Seq<Token>
    decreases e,
{
    match e {
        Expr::Number(v) => seq![Token::Number(v)],
        Expr::Memory(n) => seq![Token::MemoryRef(n)],
        Expr::Add(a, b) => seq![Token::LParen] + words_of(*a) + seq![Token::Plus] + words_of(*b) + seq![Token::RParen],
        Expr::Sub(a, b) => seq![Token::LParen] + words_of(*a) + seq![Token::Minus] + words_of(*b) + seq![Token::RParen],
        Expr::Mul(a, b) => seq![Token::LParen] + words_of(*a) + seq![Token::Asterisk] + words_of(*b) + seq![Token::RParen],
        Expr::Div(a, b) => seq![Token::LParen] + words_of(*a) + seq![Token::Slash] + words_of(*b) + seq![Token::RParen],
    }
}

proof fn lemma_words_nonempty(e: Expr)
    ensures
        words_of(e).len() >= 1,
    decreases e,
{
    match e {
        Expr::Number(_) => {},
        Expr::Memory(_) => {},
        Expr::Add(a, b) => { lemma_words_nonempty(*a); },
        Expr::Sub(a, b) => { lemma_words_nonempty(*a); },
        Expr::Mul(a, b) => { lemma_words_nonempty(*a); },
        Expr::Div(a, b) => { lemma_words_nonempty(*a); },
    }
}

/// `e` is `a op b` for the operator word `op`.
spec fn combined(a: Expr, b: Expr, op: Token) -> Expr {
    match op {
        Token::Plus => Expr::Add(Box::new(a), Box::new(b)),
        Token::Minus => Expr::Sub(Box::new(a), Box::new(b)),
        Token::Asterisk => Expr::Mul(Box::new(a), Box::new(b)),
        _ => Expr::Div(Box::new(a), Box::new(b)),
    }
}

/// Where the written-out words of `a op b` stand in `t`, the words of
/// `a` and of `b` stand in it too, after the `(` and after `op`.
proof fn lemma_compound_parts(t: Seq<Token>, i: int, a: Expr, b: Expr, op: Token)
    requires
        op is Plus || op is Minus || op is Asterisk || op is Slash,
        0 <= i,
        i + words_of(combined(a, b, op)).len() <= t.len(),
        t.subrange(i, i + words_of(combined(a, b, op)).len()) == words_of(combined(a, b, op)),
    ensures
        ({
            let ja = i + 1 + words_of(a).len();
            let kb = ja + 1 + words_of(b).len();
            &&& kb + 1 == i + words_of(combined(a, b, op)).len()
            &&& t.subrange(i + 1, ja) == words_of(a)
            &&& t.subrange(ja + 1, kb) == words_of(b)
            &&& t[i] is LParen
            &&& t[ja] == op
            &&& t[kb] is RParen
        }),
{
    let e = combined(a, b, op);
    let w = words_of(e);
    let wa = words_of(a);
    let wb = words_of(b);
    assert(w == seq![Token::LParen] + wa + seq![op] + wb + seq![Token::RParen]);
    let ja = i + 1 + wa.len();
    let kb = ja + 1 + wb.len();
    assert(t.subrange(i + 1, ja) =~= wa) by {
        assert forall|x: int| 0 <= x < wa.len() implies t.subrange(i + 1, ja)[x] == wa[x] by {
            assert(t[i + 1 + x] == w[1 + x]);
        }
    }
    assert(t.subrange(ja + 1, kb) =~= wb) by {
        assert forall|x: int| 0 <= x < wb.len() implies t.subrange(ja + 1, kb)[x] == wb[x] by {
            assert(t[ja + 1 + x] == w[1 + wa.len() + 1 + x]);
        }
    }
    assert(t[i] == w[0]);
    assert(t[ja] == w[1 + wa.len() as int]);
    assert(t[kb] == w[1 + wa.len() + 1 + wb.len() as int]);
}

/// Where `a` and `b` parse back from their words, `a op b` parses back
/// from its words.
proof fn lemma_compound_reads(t: Seq<Token>, i: int, a: Expr, b: Expr, op: Token)
    requires
        op is Plus || op is Minus || op is Asterisk || op is Slash,
        0 <= i,
        ({
            let ja = i + 1 + words_of(a).len();
            let kb = ja + 1 + words_of(b).len();
            &&& kb + 1 <= t.len()
            &&& t[i] is LParen
            &&& t[ja] == op
            &&& t[kb] is RParen
            &&& primary_at(t, i + 1) == Some((a, ja))
            &&& primary_at(t, ja + 1) == Some((b, kb))
        }),
    ensures
        primary_at(t, i) == Some((combined(a, b, op), i + words_of(a).len() + words_of(b).len() + 3)),
{
    let e = combined(a, b, op);
    let ja = i + 1 + words_of(a).len();
    let kb = ja + 1 + words_of(b).len();
    lemma_words_nonempty(a);
    lemma_words_nonempty(b);
    if op is Plus || op is Minus {
        assert(multiplicative_rest(t, a, ja) == Some((a, ja)));
        assert(multiplicative_at(t, i + 1) == Some((a, ja)));
        assert(multiplicative_rest(t, b, kb) == Some((b, kb)));
        assert(multiplicative_at(t, ja + 1) == Some((b, kb)));
        assert(additive_rest(t, e, kb) == Some((e, kb)));
        assert(additive_rest(t, a, ja) == Some((e, kb)));
    } else {
        assert(multiplicative_rest(t, e, kb) == Some((e, kb)));
        assert(multiplicative_rest(t, a, ja) == Some((e, kb)));
        assert(multiplicative_at(t, i + 1) == Some((e, kb)));
        assert(additive_rest(t, e, kb) == Some((e, kb)));
    }
    assert(additive_at(t, i + 1) == Some((e, kb)));
}

/// The written-out words of `e`, found anywhere in a line, parse as a
/// primary expression back to `e`, whatever stands around them.
proof fn lemma_primary_reads_words(t: Seq<Token>, i: int, e: Expr)
    requires
        0 <= i,
        i + words_of(e).len() <= t.len(),
        t.subrange(i, i + words_of(e).len()) == words_of(e),
    ensures
        primary_at(t, i) == Some((e, i + words_of(e).len())),
    decreases e,
{
    let w = words_of(e);
    assert(t[i] == w[0]);
    match e {
        Expr::Number(v) => {},
        Expr::Memory(n) => {},
        Expr::Add(a, b) => {
            lemma_compound_parts(t, i, *a, *b, Token::Plus);
            lemma_primary_reads_words(t, i + 1, *a);
            lemma_primary_reads_words(t, i + 2 + words_of(*a).len(), *b);
            lemma_compound_reads(t, i, *a, *b, Token::Plus);
        },
        Expr::Sub(a, b) => {
            lemma_compound_parts(t, i, *a, *b, Token::Minus);
            lemma_primary_reads_words(t, i + 1, *a);
            lemma_primary_reads_words(t, i + 2 + words_of(*a).len(), *b);
            lemma_compound_reads(t, i, *a, *b, Token::Minus);
        },
        Expr::Mul(a, b) => {
            lemma_compound_parts(t, i, *a, *b, Token::Asterisk);
            lemma_primary_reads_words(t, i + 1, *a);
            lemma_primary_reads_words(t, i + 2 + words_of(*a).len(), *b);
            lemma_compound_reads(t, i, *a, *b, Token::Asterisk);
        },
        Expr::Div(a, b) => {
            lemma_compound_parts(t, i, *a, *b, Token::Slash);
            lemma_primary_reads_words(t, i + 1, *a);
            lemma_primary_reads_words(t, i + 2 + words_of(*a).len(), *b);
            lemma_compound_reads(t, i, *a, *b, Token::Slash);
        },
    }
}

/// Law: writing an expression out with every compound part in
/// parentheses and parsing the words gives the expression back.
pub proof fn law_parse_written_expression(e: Expr)
    ensures
        expression_of(words_of(e)) == Some(e),
{
    let w = words_of(e);
    assert(w.subrange(0, w.len() as int) =~= w);
    lemma_primary_reads_words(w, 0, e);
    lemma_words_nonempty(e);
    assert(multiplicative_rest(w, e, w.len() as int) == Some((e, w.len() as int)));
    assert(multiplicative_at(w, 0) == Some((e, w.len() as int)));
    assert(additive_rest(w, e, w.len() as int) == Some((e, w.len() as int)));
}

/// `e1` and `e2` are the same tree, except that any `Add` node may be a
/// `Sub` node in the other and the other way round.
pub open spec fn alike_but_add_sub(e1: Expr, e2: Expr) -> bool
    decreases e1,
{
    match e1 {
        Expr::Number(v) => e2 == Expr::Number(v),
        Expr::Memory(n) => e2 == Expr::Memory(n),
        Expr::Add(a1, b1) => match e2 {
            Expr::Add(a2, b2) => alike_but_add_sub(*a1, *a2) && alike_but_add_sub(*b1, *b2),
            Expr::Sub(a2, b2) => alike_but_add_sub(*a1, *a2) && alike_but_add_sub(*b1, *b2),
            _ => false,
        },
        Expr::Sub(a1, b1) => match e2 {
            Expr::Add(a2, b2) => alike_but_add_sub(*a1, *a2) && alike_but_add_sub(*b1, *b2),
            Expr::Sub(a2, b2) => alike_but_add_sub(*a1, *a2) && alike_but_add_sub(*b1, *b2),
            _ => false,
        },
        Expr::Mul(a1, b1) => match e2 {
            Expr::Mul(a2, b2) => alike_but_add_sub(*a1, *a2) && alike_but_add_sub(*b1, *b2),
            _ => false,
        },
        Expr::Div(a1, b1) => match e2 {
            Expr::Div(a2, b2) => alike_but_add_sub(*a1, *a2) && alike_but_add_sub(*b1, *b2),
            _ => false,
        },
    }
}

/// `w` is one of the words `+` and `-`.
pub open spec fn is_additive_word(w: Token) -> bool {
    w is Plus || w is Minus
}

/// `t1` and `t2` have the same words, except that a `+` in one may be a
/// `-` in the other and the other way round.
pub open spec fn alike_but_plus_minus(t1: Seq<Token>, t2: Seq<Token>) -> bool {
    &&& t1.len() == t2.len()
    &&& forall|i: int|
        0 <= i < t1.len() ==> #[trigger] t1[i] == t2[i] || (is_additive_word(t1[i])
            && is_additive_word(t2[i]))
}

/// Both parse results fail, or both succeed at one position with alike
/// trees.
pub open spec fn results_alike(r1: Option<(Expr, int)>, r2: Option<(Expr, int)>) -> bool {
    match r1 {
        Some((e1, k1)) => match r2 {
            Some((e2, k2)) => k1 == k2 && alike_but_add_sub(e1, e2),
            None => false,
        },
        None => r2 is None,
    }
}

proof fn lemma_primary_alike(t1: Seq<Token>, t2: Seq<Token>, i: int)
    requires
        alike_but_plus_minus(t1, t2),
    ensures
        results_alike(primary_at(t1, i), primary_at(t2, i)),
    decreases t1.len() - i, 0int,
{
    if 0 <= i < t1.len() {
        assert(t1[i] == t2[i] || (is_additive_word(t1[i]) && is_additive_word(t2[i])));
        if t1[i] is LParen {
            lemma_additive_alike(t1, t2, i + 1);
            if let Some((e, j)) = additive_at(t1, i + 1) {
                if 0 <= j < t1.len() {
                    assert(t1[j] == t2[j] || (is_additive_word(t1[j]) && is_additive_word(t2[j])));
                }
            }
        }
    }
}

proof fn lemma_multiplicative_alike(t1: Seq<Token>, t2: Seq<Token>, i: int)
    requires
        alike_but_plus_minus(t1, t2),
    ensures
        results_alike(multiplicative_at(t1, i), multiplicative_at(t2, i)),
    decreases t1.len() - i, 1int,
{
    lemma_primary_alike(t1, t2, i);
    if let Some((e1, j)) = primary_at(t1, i) {
        if i < j <= t1.len() {
            let e2 = (primary_at(t2, i)->0).0;
            lemma_multiplicative_rest_alike(t1, t2, e1, e2, j);
        }
    }
}

proof fn lemma_multiplicative_rest_alike(t1: Seq<Token>, t2: Seq<Token>, acc1: Expr, acc2: Expr, j: int)
    requires
        alike_but_plus_minus(t1, t2),
        alike_but_add_sub(acc1, acc2),
        j <= t1.len(),
    ensures
        results_alike(multiplicative_rest(t1, acc1, j), multiplicative_rest(t2, acc2, j)),
    decreases t1.len() - j, 2int,
{
    if 0 <= j < t1.len() {
        assert(t1[j] == t2[j] || (is_additive_word(t1[j]) && is_additive_word(t2[j])));
        if t1[j] is Asterisk || t1[j] is Slash {
            lemma_primary_alike(t1, t2, j + 1);
            if let Some((v1, k)) = primary_at(t1, j + 1) {
                if j + 1 < k <= t1.len() {
                    let v2 = (primary_at(t2, j + 1)->0).0;
                    let next1 = if t1[j] is Asterisk {
                        Expr::Mul(Box::new(acc1), Box::new(v1))
                    } else {
                        Expr::Div(Box::new(acc1), Box::new(v1))
                    };
                    let next2 = if t2[j] is Asterisk {
                        Expr::Mul(Box::new(acc2), Box::new(v2))
                    } else {
                        Expr::Div(Box::new(acc2), Box::new(v2))
                    };
                    lemma_multiplicative_rest_alike(t1, t2, next1, next2, k);
                }
            }
        }
    }
}

proof fn lemma_additive_alike(t1: Seq<Token>, t2: Seq<Token>, i: int)
    requires
        alike_but_plus_minus(t1, t2),
    ensures
        results_alike(additive_at(t1, i), additive_at(t2, i)),
    decreases t1.len() - i, 3int,
{
    lemma_multiplicative_alike(t1, t2, i);
    if let Some((e1, j)) = multiplicative_at(t1, i) {
        if i < j <= t1.len() {
            let e2 = (multiplicative_at(t2, i)->0).0;
            lemma_additive_rest_alike(t1, t2, e1, e2, j);
        }
    }
}

proof fn lemma_additive_rest_alike(t1: Seq<Token>, t2: Seq<Token>, acc1: Expr, acc2: Expr, j: int)
    requires
        alike_but_plus_minus(t1, t2),
        alike_but_add_sub(acc1, acc2),
        j <= t1.len(),
    ensures
        results_alike(additive_rest(t1, acc1, j), additive_rest(t2, acc2, j)),
    decreases t1.len() - j, 4int,
{
    if 0 <= j < t1.len() {
        assert(t1[j] == t2[j] || (is_additive_word(t1[j]) && is_additive_word(t2[j])));
        if t1[j] is Plus || t1[j] is Minus {
            lemma_multiplicative_alike(t1, t2, j + 1);
            if let Some((v1, k)) = multiplicative_at(t1, j + 1) {
                if j + 1 < k <= t1.len() {
                    let v2 = (multiplicative_at(t2, j + 1)->0).0;
                    let next1 = if t1[j] is Plus {
                        Expr::Add(Box::new(acc1), Box::new(v1))
                    } else {
                        Expr::Sub(Box::new(acc1), Box::new(v1))
                    };
                    let next2 = if t2[j] is Plus {
                        Expr::Add(Box::new(acc2), Box::new(v2))
                    } else {
                        Expr::Sub(Box::new(acc2), Box::new(v2))
                    };
                    lemma_additive_rest_alike(t1, t2, next1, next2, k);
                }
            }
        }
    }
}

/// Law: `+` and `-` parse alike. Writing `-` for a `+` anywhere in a
/// line changes neither whether the line parses nor the shape of its
/// tree: the two trees differ only in `Add` and `Sub` nodes. So the
/// right operand of `-`, like that of `+`, is a whole product.
pub proof fn law_minus_parses_like_plus(t: Seq<Token>, j: int)
    requires
        0 <= j < t.len(),
        t[j] is Plus,
    ensures
        expression_of(t) is Some <==> expression_of(t.update(j, Token::Minus)) is Some,
        expression_of(t) is Some ==> alike_but_add_sub(
            expression_of(t)->0,
            expression_of(t.update(j, Token::Minus))->0,
        ),
{
    let t2 = t.update(j, Token::Minus);
    assert(alike_but_plus_minus(t, t2));
    lemma_additive_alike(t, t2, 0);
}

/// A single word that stands for a value: a number or a memory read.
pub open spec fn is_value_word(w: Token) -> bool {
    w is Number || w is MemoryRef
}

/// The tree of a single value word.
pub open spec fn value_of_word(w: Token) -> Expr {
    match w {
        Token::Number(v) => Expr::Number(v),
        Token::MemoryRef(n) => Expr::Memory(n),
        _ => Expr::Number(arbitrary()),
    }
}

/// Law: `a - b * c` subtracts the product: `*` binds tighter than `-`,
/// for any three value words.
pub proof fn law_minus_then_times(a: Token, b: Token, c: Token)
    requires
        is_value_word(a),
        is_value_word(b),
        is_value_word(c),
    ensures
        expression_of(seq![a, Token::Minus, b, Token::Asterisk, c]) == Some(
            Expr::Sub(
                Box::new(value_of_word(a)),
                Box::new(Expr::Mul(Box::new(value_of_word(b)), Box::new(value_of_word(c)))),
            ),
        ),
{
    let t = seq![a, Token::Minus, b, Token::Asterisk, c];
    let ea = value_of_word(a);
    let eb = value_of_word(b);
    let ec = value_of_word(c);
    let prod = Expr::Mul(Box::new(eb), Box::new(ec));
    let whole = Expr::Sub(Box::new(ea), Box::new(prod));
    assert(t[0] == a && t[1] is Minus && t[2] == b && t[3] is Asterisk && t[4] == c);
    assert(primary_at(t, 0) == Some((ea, 1int)));
    assert(multiplicative_rest(t, ea, 1) == Some((ea, 1int)));
    assert(multiplicative_at(t, 0) == Some((ea, 1int)));
    assert(primary_at(t, 2) == Some((eb, 3int)));
    assert(primary_at(t, 4) == Some((ec, 5int)));
    assert(multiplicative_rest(t, prod, 5) == Some((prod, 5int)));
    assert(multiplicative_rest(t, eb, 3) == Some((prod, 5int)));
    assert(multiplicative_at(t, 2) == Some((prod, 5int)));
    assert(additive_rest(t, whole, 5) == Some((whole, 5int)));
    assert(additive_rest(t, ea, 1) == Some((whole, 5int)));
    assert(additive_at(t, 0) == Some((whole, 5int)));
}

} // verus!

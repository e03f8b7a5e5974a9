//! Checking that a sequence of brackets is correctly nested.

use vstd::prelude::*;

verus! {

/// Opening brackets minus closing brackets in `s`. Every character
/// other than `(` is read as a closing bracket.
pub open spec fn balance(s: Seq<char>) -> int
    decreases s.len(),
{
    if s.len() == 0 {
        0
    } else {
        balance(s.drop_last()) + if s.last() == '(' {
            1int
        } else {
            -1int
        }
    }
}

/// No prefix of `s` closes more brackets than it opened, and `s` as a
/// whole closes every bracket it opened.
pub open spec fn is_balanced(s: Seq<char>) -> bool {
    &&& forall|k: int| 0 <= k <= s.len() ==> balance(#[trigger] s.take(k)) >= 0
    &&& balance(s) == 0
}

/// Tells whether `s` is a correctly nested sequence of brackets:
/// reading left to right, the count of open brackets never drops below
/// zero and ends at zero.
pub fn solve(s: Vec<char>) -> (ok: bool)
    ensures
        ok == is_balanced(s@),
{
    let n = s.len();
    let mut left: usize = 0;
    assert(s@.take(0) =~= Seq::<char>::empty());
    for i in 0..n
        invariant
            n == s.len(),
            left == balance(s@.take(i as int)),
            left <= i,
            forall|k: int| 0 <= k <= i ==> balance(#[trigger] s@.take(k)) >= 0,
    {
        assert(s@.take(i + 1).drop_last() =~= s@.take(i as int));
        if s[i] == '(' {
            left += 1;
        } else {
            if left == 0 {
                assert(balance(s@.take(i + 1)) < 0);
                return false;
            } else {
                left -= 1;
            }
        }
    }
    assert(s@.take(n as int) =~= s@);
    if left == 0 {
        return true;
    } else {
        return false;
    }
}

proof fn lemma_balance_concat(x: Seq<char>, y: Seq<char>)
    ensures
        balance(x + y) == balance(x) + balance(y),
    decreases y.len(),
{
    if y.len() == 0 {
        assert(x + y =~= x);
    } else {
        assert((x + y).drop_last() =~= x + y.drop_last());
        lemma_balance_concat(x, y.drop_last());
    }
}

proof fn lemma_prefix_of_concat(x: Seq<char>, y: Seq<char>, k: int)
    requires
        0 <= k <= x.len() + y.len(),
    ensures
        k <= x.len() ==> (x + y).take(k) == x.take(k),
        k > x.len() ==> (x + y).take(k) == x + y.take(k - x.len()),
{
    if k <= x.len() {
        assert((x + y).take(k) =~= x.take(k));
    } else {
        assert((x + y).take(k) =~= x + y.take(k - x.len()));
    }
}

/// Law: two correctly nested sequences written one after the other are
/// correctly nested.
pub proof fn law_balanced_concat(x: Seq<char>, y: Seq<char>)
    requires
        is_balanced(x),
        is_balanced(y),
    ensures
        is_balanced(x + y),
{
    assert forall|k: int| 0 <= k <= (x + y).len() implies balance(#[trigger] (x + y).take(k)) >= 0 by {
        lemma_prefix_of_concat(x, y, k);
        if k > x.len() {
            lemma_balance_concat(x, y.take(k - x.len()));
            assert(x.take(x.len() as int) =~= x);
        }
    }
    lemma_balance_concat(x, y);
}

/// Law: a correctly nested sequence inside one more pair of brackets is
/// correctly nested.
pub proof fn law_balanced_wrap(x: Seq<char>)
    requires
        is_balanced(x),
    ensures
        is_balanced(seq!['('] + x + seq![')']),
{
    let w = seq!['('] + x + seq![')'];
    assert(balance(seq!['(']) == 1) by {
        assert(seq!['('].drop_last() =~= Seq::<char>::empty());
        assert(balance(Seq::<char>::empty()) == 0);
        assert(seq!['('].last() == '(');
    }
    assert(balance(seq![')']) == -1) by {
        assert(seq![')'].drop_last() =~= Seq::<char>::empty());
        assert(balance(Seq::<char>::empty()) == 0);
        assert(seq![')'].last() == ')');
    }
    assert forall|k: int| 0 <= k <= w.len() implies balance(#[trigger] w.take(k)) >= 0 by {
        if k == 0 {
            assert(w.take(0) =~= Seq::<char>::empty());
        } else if k <= x.len() + 1 {
            assert(w.take(k) =~= seq!['('] + x.take(k - 1));
            lemma_balance_concat(seq!['('], x.take(k - 1));
        } else {
            assert(w.take(k) =~= w);
            lemma_balance_concat(seq!['('], x);
            lemma_balance_concat(seq!['('] + x, seq![')']);
        }
    }
    lemma_balance_concat(seq!['('], x);
    lemma_balance_concat(seq!['('] + x, seq![')']);
}

/// Law: a correctly nested sequence has as many `(` as other
/// characters, so its length is even.
pub proof fn law_balanced_even_length(x: Seq<char>)
    requires
        is_balanced(x),
    ensures
        x.len() % 2 == 0,
{
    lemma_balance_parity(x);
}

proof fn lemma_balance_parity(s: Seq<char>)
    ensures
        (s.len() - balance(s)) % 2 == 0,
    decreases s.len(),
{
    if s.len() > 0 {
        lemma_balance_parity(s.drop_last());
    }
}

} // verus!

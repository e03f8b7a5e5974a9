//! Merging two integer sequences into one ascending sequence, once by
//! concatenating and sorting, once by the classic two-pointer merge.

use vstd::prelude::*;
use vstd::multiset::Multiset;
use vstd::relations::{sorted_by, total_ordering};
use vstd::seq_lib::{lemma_multiset_commutative, lemma_sorted_unique};

verus! {

/// The ascending order on `i32`.
pub open spec fn ascending() -> spec_fn(i32, i32) -> bool {
    |x: i32, y: i32| x <= y
}

/// `s` is in ascending order.
pub open spec fn is_sorted(s: Seq<i32>) -> bool {
    sorted_by(s, ascending())
}

/// What the two-pointer merge produces: repeatedly take the smaller of
/// the two front elements, taking from `b` when the fronts are equal.
pub open spec fn merged(a: Seq<i32>, b: Seq<i32>) -> Seq<i32>
    decreases a.len() + b.len(),
{
    if a.len() == 0 {
        b
    } else if b.len() == 0 {
        a
    } else if a[0] < b[0] {
        seq![a[0]] + merged(a.drop_first(), b)
    } else {
        seq![b[0]] + merged(a, b.drop_first())
    }
}

/// Sorts `v` in ascending order with `slice::sort`.
/// Trusted: the result is in ascending order and holds the same
/// elements, each as often, as before.
#[verifier::external_body]
fn sort_ascending(v: &mut Vec<i32>)
    ensures
        is_sorted(final(v)@),
        final(v)@.to_multiset() == old(v)@.to_multiset(),
{
    v.sort();
}

proof fn lemma_ascending_total()
    ensures
        total_ordering(ascending()),
{
}

/// A sequence that is ascending and has the same elements as `s` is
/// the sorted form of `s`.
proof fn lemma_is_sort_of(r: Seq<i32>, s: Seq<i32>)
    requires
        is_sorted(r),
        r.to_multiset() == s.to_multiset(),
    ensures
        r == s.sort_by(ascending()),
{
    lemma_ascending_total();
    s.lemma_sort_by_ensures(ascending());
    lemma_sorted_unique(r, s.sort_by(ascending()), ascending());
}

/// Concatenates `a` and `b` and sorts the result in ascending order.
pub fn solve1(a: Vec<i32>, b: Vec<i32>) -> (ans: Vec<i32>)
    ensures
        ans@ == (a@ + b@).sort_by(ascending()),
        is_sorted(ans@),
        ans@.to_multiset() == (a@ + b@).to_multiset(),
{
    let n = a.len();
    let m = b.len();
    let mut ans: Vec<i32> = Vec::new();
    for i in 0..n
        invariant
            n == a.len(),
            ans@ == a@.take(i as int),
    {
        ans.push(a[i]);
        assert(a@.take(i + 1) == a@.take(i as int).push(a@[i as int]));
    }
    assert(a@.take(n as int) == a@);
    for j in 0..m
        invariant
            m == b.len(),
            ans@ == a@ + b@.take(j as int),
    {
        ans.push(b[j]);
        assert(b@.take(j + 1) == b@.take(j as int).push(b@[j as int]));
        assert(a@ + b@.take(j + 1) == (a@ + b@.take(j as int)).push(b@[j as int]));
    }
    assert(b@.take(m as int) == b@);
    let ghost joined = ans@;
    sort_ascending(&mut ans);
    proof {
        lemma_is_sort_of(ans@, joined);
    }
    ans
}

proof fn lemma_merged_len(a: Seq<i32>, b: Seq<i32>)
    ensures
        merged(a, b).len() == a.len() + b.len(),
    decreases a.len() + b.len(),
{
    if a.len() != 0 && b.len() != 0 {
        if a[0] < b[0] {
            lemma_merged_len(a.drop_first(), b);
        } else {
            lemma_merged_len(a, b.drop_first());
        }
    }
}

proof fn lemma_front_split(a: Seq<i32>)
    requires
        a.len() > 0,
    ensures
        a == seq![a[0]] + a.drop_first(),
        a.to_multiset() == seq![a[0]].to_multiset().add(a.drop_first().to_multiset()),
{
    assert(a =~= seq![a[0]] + a.drop_first());
    lemma_multiset_commutative(seq![a[0]], a.drop_first());
}

proof fn lemma_merged_multiset(a: Seq<i32>, b: Seq<i32>)
    ensures
        merged(a, b).to_multiset() == a.to_multiset().add(b.to_multiset()),
    decreases a.len() + b.len(),
{
    broadcast use vstd::multiset::group_multiset_axioms;
    broadcast use vstd::seq_lib::group_to_multiset_ensures;

    if a.len() == 0 {
        vstd::multiset::lemma_multiset_empty_len(a.to_multiset());
        assert(a.to_multiset() =~= Multiset::empty());
        assert(merged(a, b).to_multiset() =~= a.to_multiset().add(b.to_multiset()));
    } else if b.len() == 0 {
        vstd::multiset::lemma_multiset_empty_len(b.to_multiset());
        assert(b.to_multiset() =~= Multiset::empty());
        assert(merged(a, b).to_multiset() =~= a.to_multiset().add(b.to_multiset()));
    } else if a[0] < b[0] {
        let rest = merged(a.drop_first(), b);
        lemma_merged_multiset(a.drop_first(), b);
        lemma_front_split(a);
        lemma_multiset_commutative(seq![a[0]], rest);
        assert(merged(a, b).to_multiset() =~= a.to_multiset().add(b.to_multiset()));
    } else {
        let rest = merged(a, b.drop_first());
        lemma_merged_multiset(a, b.drop_first());
        lemma_front_split(b);
        lemma_multiset_commutative(seq![b[0]], rest);
        assert(merged(a, b).to_multiset() =~= a.to_multiset().add(b.to_multiset()));
    }
}

proof fn lemma_sorted_front_is_least(s: Seq<i32>, x: i32)
    requires
        is_sorted(s),
        s.len() > 0,
        s.to_multiset().count(x) > 0,
    ensures
        s[0] <= x,
{
    broadcast use vstd::seq_lib::group_to_multiset_ensures;

    assert(s.contains(x));
    let k = choose|k: int| 0 <= k < s.len() && s[k] == x;
    if k > 0 {
        assert(ascending()(s[0], s[k]));
    }
}

proof fn lemma_prepend_sorted(x: i32, s: Seq<i32>)
    requires
        is_sorted(s),
        forall|y: i32| s.to_multiset().count(y) > 0 ==> x <= y,
    ensures
        is_sorted(seq![x] + s),
{
    broadcast use vstd::seq_lib::group_to_multiset_ensures;

    let t = seq![x] + s;
    assert forall|i: int, j: int| 0 <= i < j < t.len() implies #[trigger] ascending()(t[i], t[j]) by {
        assert(t[j] == s[j - 1]);
        if i == 0 {
            assert(t[0] == x);
            assert(s.contains(s[j - 1]));
            assert(s.to_multiset().count(s[j - 1]) > 0);
            assert(x <= s[j - 1]);
        } else {
            assert(t[i] == s[i - 1]);
            assert(ascending()(s[i - 1], s[j - 1]));
        }
    }
}

proof fn lemma_merged_sorted(a: Seq<i32>, b: Seq<i32>)
    requires
        is_sorted(a),
        is_sorted(b),
    ensures
        is_sorted(merged(a, b)),
    decreases a.len() + b.len(),
{
    broadcast use vstd::multiset::group_multiset_axioms;

    if a.len() != 0 && b.len() != 0 {
        if a[0] < b[0] {
            let rest = merged(a.drop_first(), b);
            lemma_merged_sorted(a.drop_first(), b);
            lemma_merged_multiset(a.drop_first(), b);
            assert forall|y: i32| rest.to_multiset().count(y) > 0 implies a[0] <= y by {
                if a.drop_first().to_multiset().count(y) > 0 {
                    lemma_front_split(a);
                    lemma_sorted_front_is_least(a, y);
                } else {
                    lemma_sorted_front_is_least(b, y);
                }
            }
            lemma_prepend_sorted(a[0], rest);
        } else {
            let rest = merged(a, b.drop_first());
            lemma_merged_sorted(a, b.drop_first());
            lemma_merged_multiset(a, b.drop_first());
            assert forall|y: i32| rest.to_multiset().count(y) > 0 implies b[0] <= y by {
                if b.drop_first().to_multiset().count(y) > 0 {
                    lemma_front_split(b);
                    lemma_sorted_front_is_least(b, y);
                } else {
                    lemma_sorted_front_is_least(a, y);
                }
            }
            lemma_prepend_sorted(b[0], rest);
        }
    }
}

/// Law: the two-pointer merge never loses or invents an element, and
/// merging two ascending sequences gives an ascending sequence.
pub proof fn law_merge_is_sorted_permutation(a: Seq<i32>, b: Seq<i32>)
    ensures
        merged(a, b).to_multiset() == (a + b).to_multiset(),
        is_sorted(a) && is_sorted(b) ==> is_sorted(merged(a, b)),
{
    lemma_merged_multiset(a, b);
    lemma_multiset_commutative(a, b);
    if is_sorted(a) && is_sorted(b) {
        lemma_merged_sorted(a, b);
    }
}

/// Law: on ascending inputs both solutions give the same answer, the
/// sorted concatenation of the inputs.
pub proof fn law_merge_agrees_with_sort(a: Seq<i32>, b: Seq<i32>)
    requires
        is_sorted(a),
        is_sorted(b),
    ensures
        merged(a, b) == (a + b).sort_by(ascending()),
{
    law_merge_is_sorted_permutation(a, b);
    lemma_is_sort_of(merged(a, b), a + b);
}

/// Merges `a` and `b` by repeatedly moving the smaller front element to
/// the answer (the front of `b` on a tie). On ascending inputs the
/// answer is ascending.
pub fn solve2(a: Vec<i32>, b: Vec<i32>) -> (ans: Vec<i32>)
    ensures
        ans@ == merged(a@, b@),
        ans@.to_multiset() == (a@ + b@).to_multiset(),
        is_sorted(a@) && is_sorted(b@) ==> is_sorted(ans@),
{
    let n = a.len();
    let m = b.len();
    let mut ans: Vec<i32> = Vec::new();
    let mut i: usize = 0;
    let mut j: usize = 0;
    assert(a@.skip(0) =~= a@);
    assert(b@.skip(0) =~= b@);
    assert(ans@ + merged(a@, b@) =~= merged(a@, b@));
    while i < n || j < m
        invariant
            n == a.len(),
            m == b.len(),
            i <= n,
            j <= m,
            ans@ + merged(a@.skip(i as int), b@.skip(j as int)) == merged(a@, b@),
        decreases n - i + m - j,
    {
        let ghost sa = a@.skip(i as int);
        let ghost sb = b@.skip(j as int);
        let ghost before = ans@;
        if i == n {
            ans.push(b[j]);
            j += 1;
            proof {
                assert(sa.len() == 0);
                assert(sb.drop_first() =~= b@.skip(j as int));
                assert(merged(sa, sb) == sb);
                assert(merged(a@.skip(i as int), b@.skip(j as int)) == sb.drop_first());
                assert(sb =~= seq![sb[0]] + sb.drop_first());
                assert(ans@ + sb.drop_first() =~= before + sb);
            }
        } else if j == m {
            ans.push(a[i]);
            i += 1;
            proof {
                assert(sb.len() == 0);
                assert(sa.drop_first() =~= a@.skip(i as int));
                assert(merged(sa, sb) == sa);
                assert(merged(a@.skip(i as int), b@.skip(j as int)) == sa.drop_first());
                assert(sa =~= seq![sa[0]] + sa.drop_first());
                assert(ans@ + sa.drop_first() =~= before + sa);
            }
        } else if a[i] < b[j] {
            ans.push(a[i]);
            i += 1;
            proof {
                assert(sa.drop_first() =~= a@.skip(i as int));
                assert(merged(sa, sb) == seq![sa[0]] + merged(sa.drop_first(), sb));
                assert(ans@ + merged(sa.drop_first(), sb) =~= before + (seq![sa[0]] + merged(
                    sa.drop_first(),
                    sb,
                )));
            }
        } else {
            ans.push(b[j]);
            j += 1;
            proof {
                assert(sb.drop_first() =~= b@.skip(j as int));
                assert(merged(sa, sb) == seq![sb[0]] + merged(sa, sb.drop_first()));
                assert(ans@ + merged(sa, sb.drop_first()) =~= before + (seq![sb[0]] + merged(
                    sa,
                    sb.drop_first(),
                )));
            }
        }
    }
    proof {
        assert(a@.skip(i as int).len() == 0);
        assert(b@.skip(j as int).len() == 0);
        assert(merged(a@.skip(i as int), b@.skip(j as int)) =~= Seq::<i32>::empty());
        assert(ans@ =~= merged(a@, b@));
        law_merge_is_sorted_permutation(a@, b@);
    }
    ans
}

} // verus!

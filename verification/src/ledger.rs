//! A household account book: entries of date, usage and amount, and
//! the monthly totals over a set of entries.

use vstd::prelude::*;

verus! {

/// A calendar date.
#[derive(Clone, Copy, Debug, PartialEq, Eq)]
pub struct Date {
    pub year: i32,
    pub month: u32,
    pub day: u32,
}

/// One entry of an account: when, what for, and how much (negative for
/// money paid out).
#[derive(Clone, Debug, PartialEq, Eq)]
pub struct Record {
    pub date: Date,
    pub usage: String,
    pub amount: i32,
}

/// The total of one month.
#[derive(Clone, Copy, Debug, PartialEq, Eq)]
pub struct MonthTotal {
    pub year: i32,
    pub month: u32,
    pub total: i32,
}

/// The sum of all amounts in `rs`.
pub open spec fn amount_sum(rs: Seq<Record>) -> int
    decreases rs.len(),
{
    if rs.len() == 0 {
        0
    } else {
        amount_sum(rs.drop_last()) + rs.last().amount
    }
}

/// The sum of all month totals in `ts`.
pub open spec fn total_sum(ts: Seq<MonthTotal>) -> int
    decreases ts.len(),
{
    if ts.len() == 0 {
        0
    } else {
        total_sum(ts.drop_last()) + ts.last().total
    }
}

proof fn lemma_total_sum_update(ts: Seq<MonthTotal>, j: int, t: MonthTotal)
    requires
        0 <= j < ts.len(),
    ensures
        total_sum(ts.update(j, t)) == total_sum(ts) - ts[j].total + t.total,
    decreases ts.len(),
{
    if j == ts.len() - 1 {
        assert(ts.update(j, t).drop_last() =~= ts.drop_last());
    } else {
        assert(ts.update(j, t).drop_last() =~= ts.drop_last().update(j, t));
        lemma_total_sum_update(ts.drop_last(), j, t);
    }
}

/// `r` falls in month `month` of year `year`.
pub open spec fn in_month(r: Record, year: i32, month: u32) -> bool {
    r.date.year == year && r.date.month == month
}

/// The sum of the amounts of the records of `rs` in the given month.
pub open spec fn month_sum(rs: Seq<Record>, year: i32, month: u32) -> int
    decreases rs.len(),
{
    if rs.len() == 0 {
        0
    } else {
        month_sum(rs.drop_last(), year, month) + if in_month(rs.last(), year, month) {
            rs.last().amount as int
        } else {
            0int
        }
    }
}

/// Some record of `rs` falls in the given month.
pub open spec fn has_month(rs: Seq<Record>, year: i32, month: u32) -> bool {
    exists|i: int| 0 <= i < rs.len() && in_month(#[trigger] rs[i], year, month)
}

/// Every running total of every month, adding the records of `rs` one
/// after the other, fits in an `i32`.
pub open spec fn sums_fit(rs: Seq<Record>) -> bool {
    forall|k: int, year: i32, month: u32|
        0 <= k <= rs.len() ==> i32::MIN <= #[trigger] month_sum(rs.take(k), year, month) <= i32::MAX
}

/// `totals` holds, once each, exactly the months in which some record
/// of `rs` falls, each with the sum of that month's amounts.
pub open spec fn is_report_of(totals: Seq<MonthTotal>, rs: Seq<Record>) -> bool {
    &&& forall|a: int, b: int|
        0 <= a < b < totals.len() ==> !(totals[a].year == totals[b].year && totals[a].month
            == totals[b].month)
    &&& forall|a: int|
        0 <= a < totals.len() ==> has_month(rs, (#[trigger] totals[a]).year, totals[a].month)
            && totals[a].total == month_sum(rs, totals[a].year, totals[a].month)
    &&& forall|i: int|
        0 <= i < rs.len() ==> exists|a: int|
            0 <= a < totals.len() && totals[a].year == (#[trigger] rs[i]).date.year
                && totals[a].month == rs[i].date.month
}

/// The month of `first` occurs in `rs` before the month of `second`
/// first does.
pub open spec fn occurs_before(rs: Seq<Record>, first: MonthTotal, second: MonthTotal) -> bool {
    exists|w: int|
        0 <= w < rs.len() && in_month(#[trigger] rs[w], first.year, first.month) && !has_month(
            rs.take(w + 1),
            second.year,
            second.month,
        )
}

/// For every two months listed in `totals`, the earlier one occurs in
/// `rs` before the later one first does.
pub open spec fn in_first_occurrence_order(totals: Seq<MonthTotal>, rs: Seq<Record>) -> bool {
    forall|a: int, b: int|
        #![trigger totals[a], totals[b]]
        0 <= a < b < totals.len() ==> occurs_before(rs, totals[a], totals[b])
}

proof fn lemma_occurs_before_extends(pre: Seq<Record>, post: Seq<Record>, x: MonthTotal, y: MonthTotal)
    requires
        post.len() == pre.len() + 1,
        forall|k: int| 0 <= k < pre.len() ==> #[trigger] post[k] == pre[k],
        occurs_before(pre, x, y),
    ensures
        occurs_before(post, x, y),
{
    let w = choose|w: int|
        0 <= w < pre.len() && in_month(#[trigger] pre[w], x.year, x.month) && !has_month(
            pre.take(w + 1),
            y.year,
            y.month,
        );
    assert(post.take(w + 1) =~= pre.take(w + 1));
    assert(post[w] == pre[w]);
}

proof fn lemma_occurs_before_new(pre: Seq<Record>, post: Seq<Record>, x: MonthTotal, y: MonthTotal)
    requires
        post.len() == pre.len() + 1,
        forall|k: int| 0 <= k < pre.len() ==> #[trigger] post[k] == pre[k],
        has_month(pre, x.year, x.month),
        !has_month(pre, y.year, y.month),
    ensures
        occurs_before(post, x, y),
{
    let w = choose|w: int| 0 <= w < pre.len() && in_month(#[trigger] pre[w], x.year, x.month);
    assert(post[w] == pre[w]);
    assert(post.take(w + 1) =~= pre.take(w + 1));
    if has_month(pre.take(w + 1), y.year, y.month) {
        let v = choose|v: int| 0 <= v < pre.take(w + 1).len() && in_month(#[trigger] pre.take(w + 1)[v], y.year, y.month);
        assert(pre.take(w + 1)[v] == pre[v]);
    }
}

proof fn lemma_order_extends(totals: Seq<MonthTotal>, pre: Seq<Record>, post: Seq<Record>)
    requires
        post.len() == pre.len() + 1,
        forall|k: int| 0 <= k < pre.len() ==> #[trigger] post[k] == pre[k],
        in_first_occurrence_order(totals, pre),
    ensures
        in_first_occurrence_order(totals, post),
{
    assert forall|a: int, b: int| #![trigger totals[a], totals[b]] 0 <= a < b < totals.len() implies occurs_before(post, totals[a], totals[b]) by {
        lemma_occurs_before_extends(pre, post, totals[a], totals[b]);
    }
}

proof fn lemma_order_push(totals: Seq<MonthTotal>, pre: Seq<Record>, post: Seq<Record>, new: MonthTotal)
    requires
        post.len() == pre.len() + 1,
        forall|k: int| 0 <= k < pre.len() ==> #[trigger] post[k] == pre[k],
        in_first_occurrence_order(totals, pre),
        forall|a: int| 0 <= a < totals.len() ==> has_month(pre, (#[trigger] totals[a]).year, totals[a].month),
        !has_month(pre, new.year, new.month),
    ensures
        in_first_occurrence_order(totals.push(new), post),
{
    let t = totals.push(new);
    assert forall|a: int, b: int| #![trigger t[a], t[b]] 0 <= a < b < t.len() implies occurs_before(post, t[a], t[b]) by {
        assert(t[a] == totals[a]);
        if b < totals.len() {
            assert(t[b] == totals[b]);
            lemma_occurs_before_extends(pre, post, totals[a], totals[b]);
        } else {
            assert(t[b] == new);
            assert(has_month(pre, totals[a].year, totals[a].month));
            lemma_occurs_before_new(pre, post, totals[a], new);
        }
    }
}

/// Sums the amounts of the records month by month, adding the records
/// one after the other. The months come in the order in which they
/// first occur. `None` when a running total of some month leaves the
/// range of `i32`.
#[verifier::rlimit(40)]
pub fn monthly_totals(records: &Vec<Record>) -> (report: Option<Vec<MonthTotal>>)
    ensures
        report is None <==> !sums_fit(records@),
        report matches Some(totals) ==> is_report_of(totals@, records@) && total_sum(totals@)
            == amount_sum(records@) && in_first_occurrence_order(totals@, records@),
{
    let n = records.len();
    let mut totals: Vec<MonthTotal> = Vec::new();
    for i in 0..n
        invariant
            n == records@.len(),
            forall|k: int, y: i32, m: u32|
                0 <= k <= i ==> i32::MIN <= #[trigger] month_sum(records@.take(k), y, m) <= i32::MAX,
            is_report_of(totals@, records@.take(i as int)),
            total_sum(totals@) == amount_sum(records@.take(i as int)),
            in_first_occurrence_order(totals@, records@.take(i as int)),
    {
        let ghost pre = records@.take(i as int);
        let ghost post = records@.take(i + 1);
        let r = &records[i];
        assert(post.drop_last() =~= pre);
        assert(post.last() == *r);
        assert forall|k: int| 0 <= k < pre.len() implies #[trigger] post[k] == pre[k] by {}
        let year = r.date.year;
        let month = r.date.month;
        let mut found = false;
        let m = totals.len();
        let mut j: usize = 0;
        while j < m
            invariant_except_break
                j <= m,
                !found,
                forall|a: int| 0 <= a < j ==> !(#[trigger] totals@[a].year == year && totals@[a].month == month),
            invariant
                m == totals@.len(),
            ensures
                found ==> j < m && totals@[j as int].year == year && totals@[j as int].month == month,
                !found ==> j == m && forall|a: int| 0 <= a < m ==> !(#[trigger] totals@[a].year == year && totals@[a].month == month),
            decreases m - j,
        {
            if totals[j].year == year && totals[j].month == month {
                found = true;
                break;
            }
            j += 1;
        }
        proof {
            assert(month_sum(post, year, month) == month_sum(pre, year, month) + r.amount);
            assert forall|y: i32, mo: u32| !(y == year && mo == month) implies month_sum(post, y, mo)
                == month_sum(pre, y, mo) by {}
            assert forall|y: i32, mo: u32| has_month(pre, y, mo) implies has_month(post, y, mo) by {
                let w = choose|w: int| 0 <= w < pre.len() && in_month(pre[w], y, mo);
                assert(post[w] == pre[w]);
            }
            assert(has_month(post, year, month)) by {
                assert(in_month(post[i as int], year, month));
            }
        }
        if found {
            let ghost old_totals = totals@;
            let old_total = totals[j].total;
            assert(old_total == month_sum(pre, year, month));
            let sum = match old_total.checked_add(r.amount) {
                Some(sum) => sum,
                None => {
                    assert(!(i32::MIN <= month_sum(records@.take(i + 1), year, month) <= i32::MAX));
                    return None;
                },
            };
            let updated = MonthTotal { year, month, total: sum };
            totals.set(j, updated);
            proof {
                lemma_total_sum_update(old_totals, j as int, updated);
                assert forall|a: int| 0 <= a < totals@.len() implies totals@[a].year == old_totals[a].year
                    && totals@[a].month == old_totals[a].month by {}
                lemma_order_extends(old_totals, pre, post);
                assert(in_first_occurrence_order(totals@, post));
                assert(amount_sum(post) == amount_sum(pre) + r.amount);
                assert forall|w: int| 0 <= w < post.len() implies exists|a: int|
                    0 <= a < totals@.len() && totals@[a].year == (#[trigger] post[w]).date.year
                        && totals@[a].month == post[w].date.month by {
                    if w < pre.len() {
                        assert(post[w] == pre[w]);
                        let a = choose|a: int|
                            0 <= a < old_totals.len() && old_totals[a].year == pre[w].date.year
                                && old_totals[a].month == pre[w].date.month;
                        assert(totals@[a].year == old_totals[a].year);
                    } else {
                        assert(totals@[j as int].year == year);
                    }
                }
            }
        } else {
            let ghost old_totals = totals@;
            proof {
                if has_month(pre, year, month) {
                    let w = choose|w: int| 0 <= w < pre.len() && in_month(pre[w], year, month);
                    let a = choose|a: int|
                        0 <= a < old_totals.len() && old_totals[a].year == pre[w].date.year
                            && old_totals[a].month == pre[w].date.month;
                    assert(!(old_totals[a].year == year && old_totals[a].month == month));
                }
                assert(!has_month(pre, year, month));
                assert(month_sum(pre, year, month) == 0) by {
                    lemma_month_sum_absent(pre, year, month);
                }
            }
            totals.push(MonthTotal { year, month, total: r.amount });
            proof {
                lemma_order_push(old_totals, pre, post, MonthTotal { year, month, total: r.amount });
                assert(totals@.drop_last() =~= old_totals);
                assert(amount_sum(post) == amount_sum(pre) + r.amount);
                assert forall|w: int| 0 <= w < post.len() implies exists|a: int|
                    0 <= a < totals@.len() && totals@[a].year == (#[trigger] post[w]).date.year
                        && totals@[a].month == post[w].date.month by {
                    if w < pre.len() {
                        assert(post[w] == pre[w]);
                        let a = choose|a: int|
                            0 <= a < old_totals.len() && old_totals[a].year == pre[w].date.year
                                && old_totals[a].month == pre[w].date.month;
                        assert(totals@[a] == old_totals[a]);
                    } else {
                        assert(totals@[m as int].year == year);
                    }
                }
            }
        }
    }
    assert(records@.take(n as int) =~= records@);
    Some(totals)
}

/// A month in which no record falls sums to zero.
proof fn lemma_month_sum_absent(rs: Seq<Record>, year: i32, month: u32)
    requires
        !has_month(rs, year, month),
    ensures
        month_sum(rs, year, month) == 0,
    decreases rs.len(),
{
    if rs.len() > 0 {
        assert(!in_month(rs[rs.len() - 1], year, month));
        assert forall|i: int| 0 <= i < rs.drop_last().len() implies !in_month(
            #[trigger] rs.drop_last()[i],
            year,
            month,
        ) by {
            assert(rs.drop_last()[i] == rs[i]);
        }
        lemma_month_sum_absent(rs.drop_last(), year, month);
    }
}

} // verus!

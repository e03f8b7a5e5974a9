//! A calendar of study-group schedules: a schedule is added only if it
//! overlaps no schedule already in the calendar, and schedules are
//! deleted by id.

use vstd::prelude::*;

verus! {

/// A point in time: whole seconds since 1970-01-01T00:00:00 and the
/// nanoseconds into that second. Points are ordered by seconds, then by
/// nanoseconds.
#[derive(Clone, Copy, Debug, PartialEq, Eq)]
pub struct DateTime {
    pub secs: i64,
    pub nanos: u32,
}

/// `a` comes strictly before `b`.
pub open spec fn precedes(a: DateTime, b: DateTime) -> bool {
    a.secs < b.secs || (a.secs == b.secs && a.nanos < b.nanos)
}

impl DateTime {
    /// Tells whether `self` comes strictly before `other`.
    pub fn is_before(&self, other: &DateTime) -> (r: bool)
        ensures
            r == precedes(*self, *other),
    {
        self.secs < other.secs || (self.secs == other.secs && self.nanos < other.nanos)
    }
}

/// One schedule: an id, a subject and the time from `start` to `end`.
#[derive(Clone, Debug, PartialEq, Eq)]
pub struct Schedule {
    pub id: u64,
    pub subject: String,
    pub start: DateTime,
    pub end: DateTime,
}

/// The times of `a` and `b` overlap: each starts before the other ends.
pub open spec fn overlaps(a: Schedule, b: Schedule) -> bool {
    precedes(a.start, b.end) && precedes(b.start, a.end)
}

impl Schedule {
    /// Tells whether the times of `self` and `other` overlap.
    pub fn intersects(&self, other: &Schedule) -> (r: bool)
        ensures
            r == overlaps(*self, *other),
    {
        self.start.is_before(&other.end) && other.start.is_before(&self.end)
    }
}

/// The schedules of a calendar, in the order they were added.
#[derive(Clone, Debug, PartialEq, Eq)]
pub struct Calendar {
    pub schedules: Vec<Schedule>,
}

/// The id that the next added schedule gets: one more than the id of
/// the last schedule, or 0 in an empty calendar.
pub open spec fn next_id(s: Seq<Schedule>) -> int {
    if s.len() == 0 {
        0
    } else {
        s.last().id + 1
    }
}

/// Some schedule in `s` overlaps `t`.
pub open spec fn overlaps_any(s: Seq<Schedule>, t: Schedule) -> bool {
    exists|i: int| 0 <= i < s.len() && overlaps(#[trigger] s[i], t)
}

/// Some schedule in `s` has the id `id`.
pub open spec fn has_id(s: Seq<Schedule>, id: u64) -> bool {
    exists|i: int| 0 <= i < s.len() && #[trigger] s[i].id == id
}

/// `after` is `before` without its first schedule whose id is `id`.
pub open spec fn removes_first_with_id(before: Seq<Schedule>, id: u64, after: Seq<Schedule>) -> bool {
    exists|k: int|
        0 <= k < before.len() && #[trigger] before[k].id == id && (forall|j: int|
            0 <= j < k ==> before[j].id != id) && after == before.remove(k)
}

/// The ids of `s` strictly increase from first to last.
pub open spec fn ids_increasing(s: Seq<Schedule>) -> bool {
    forall|i: int, j: int| 0 <= i < j < s.len() ==> s[i].id < s[j].id
}

/// No two schedules of `s` overlap.
pub open spec fn pairwise_disjoint(s: Seq<Schedule>) -> bool {
    forall|i: int, j: int| 0 <= i < s.len() && 0 <= j < s.len() && i != j ==> !overlaps(s[i], s[j])
}

/// What every calendar built by `add_schedule` and `delete_schedule`
/// from an empty one satisfies.
pub open spec fn well_formed(s: Seq<Schedule>) -> bool {
    ids_increasing(s) && pairwise_disjoint(s)
}

/// Adds a schedule with the given subject and times, under the next id,
/// unless it overlaps a schedule already in the calendar. Returns
/// whether it was added.
pub fn add_schedule(calendar: &mut Calendar, subject: String, start: DateTime, end: DateTime) -> (added: bool)
    requires
        old(calendar).schedules@.len() > 0 ==> old(calendar).schedules@.last().id < u64::MAX,
    ensures
        ({
            let new = Schedule { id: next_id(old(calendar).schedules@) as u64, subject, start, end };
            &&& added == !overlaps_any(old(calendar).schedules@, new)
            &&& added ==> final(calendar).schedules@ == old(calendar).schedules@.push(new)
            &&& !added ==> final(calendar).schedules@ == old(calendar).schedules@
        }),
{
    let id = if calendar.schedules.len() == 0 {
        0
    } else {
        calendar.schedules[calendar.schedules.len() - 1].id + 1
    };
    let new_schedule = Schedule { id, subject, start, end };
    assert(id == next_id(old(calendar).schedules@));
    let n = calendar.schedules.len();
    for i in 0..n
        invariant
            n == calendar.schedules.len(),
            calendar.schedules@ == old(calendar).schedules@,
            new_schedule == (Schedule { id: next_id(old(calendar).schedules@) as u64, subject, start, end }),
            forall|j: int| 0 <= j < i ==> !overlaps(#[trigger] calendar.schedules@[j], new_schedule),
    {
        if calendar.schedules[i].intersects(&new_schedule) {
            assert(overlaps(calendar.schedules@[i as int], new_schedule));
            return false;
        }
    }
    calendar.schedules.push(new_schedule);
    true
}

/// Deletes the first schedule whose id is `id`. Returns whether there
/// was one.
pub fn delete_schedule(calendar: &mut Calendar, id: u64) -> (deleted: bool)
    ensures
        deleted == has_id(old(calendar).schedules@, id),
        deleted ==> removes_first_with_id(old(calendar).schedules@, id, final(calendar).schedules@),
        !deleted ==> final(calendar).schedules@ == old(calendar).schedules@,
{
    let n = calendar.schedules.len();
    for i in 0..n
        invariant
            n == calendar.schedules.len(),
            calendar.schedules@ == old(calendar).schedules@,
            forall|j: int| 0 <= j < i ==> #[trigger] calendar.schedules@[j].id != id,
    {
        if calendar.schedules[i].id == id {
            let ghost k = i as int;
            calendar.schedules.remove(i);
            assert(old(calendar).schedules@[k].id == id);
            return true;
        }
    }
    false
}

/// Law: adding keeps a well-formed calendar well-formed.
pub proof fn law_add_keeps_well_formed(before: Seq<Schedule>, new: Schedule)
    requires
        well_formed(before),
        new.id == next_id(before),
        !overlaps_any(before, new),
    ensures
        well_formed(before.push(new)),
{
    let after = before.push(new);
    assert forall|i: int, j: int| 0 <= i < j < after.len() implies after[i].id < after[j].id by {
        if j == before.len() && i < before.len() - 1 {
            assert(before[i].id < before[before.len() - 1].id);
        }
    }
    assert forall|i: int, j: int|
        0 <= i < after.len() && 0 <= j < after.len() && i != j implies !overlaps(after[i], after[j]) by {
        if i == before.len() {
            assert(!overlaps(before[j], new));
        } else if j == before.len() {
            assert(!overlaps(before[i], new));
        }
    }
}

/// Law: deleting keeps a well-formed calendar well-formed.
pub proof fn law_delete_keeps_well_formed(before: Seq<Schedule>, id: u64, after: Seq<Schedule>)
    requires
        well_formed(before),
        removes_first_with_id(before, id, after),
    ensures
        well_formed(after),
{
    let k = choose|k: int|
        0 <= k < before.len() && #[trigger] before[k].id == id && (forall|j: int|
            0 <= j < k ==> before[j].id != id) && after == before.remove(k);
    assert forall|i: int, j: int| 0 <= i < j < after.len() implies after[i].id < after[j].id by {
        let bi = if i < k { i } else { i + 1 };
        let bj = if j < k { j } else { j + 1 };
        assert(after[i] == before[bi]);
        assert(after[j] == before[bj]);
    }
    assert forall|i: int, j: int|
        0 <= i < after.len() && 0 <= j < after.len() && i != j implies !overlaps(after[i], after[j]) by {
        let bi = if i < k { i } else { i + 1 };
        let bj = if j < k { j } else { j + 1 };
        assert(after[i] == before[bi]);
        assert(after[j] == before[bj]);
    }
}

/// Law: in a calendar whose ids increase, deleting the id that the last
/// addition gave out undoes that addition.
pub proof fn law_delete_undoes_add(before: Seq<Schedule>, new: Schedule, after: Seq<Schedule>)
    requires
        ids_increasing(before),
        new.id == next_id(before),
        removes_first_with_id(before.push(new), new.id, after),
    ensures
        after == before,
{
    let added = before.push(new);
    let k = choose|k: int|
        0 <= k < added.len() && #[trigger] added[k].id == new.id && (forall|j: int|
            0 <= j < k ==> added[j].id != new.id) && after == added.remove(k);
    if k < before.len() {
        if k < before.len() - 1 {
            assert(before[k].id < before[before.len() - 1].id);
        }
        assert(false);
    }
    assert(after =~= before);
}

/// Law: a well-formed calendar holds each id at most once, so deleting
/// an id leaves no schedule with that id.
pub proof fn law_delete_removes_id(before: Seq<Schedule>, id: u64, after: Seq<Schedule>)
    requires
        ids_increasing(before),
        removes_first_with_id(before, id, after),
    ensures
        !has_id(after, id),
{
    let k = choose|k: int|
        0 <= k < before.len() && #[trigger] before[k].id == id && (forall|j: int|
            0 <= j < k ==> before[j].id != id) && after == before.remove(k);
    assert forall|i: int| 0 <= i < after.len() implies #[trigger] after[i].id != id by {
        if i < k {
            assert(after[i] == before[i]);
        } else {
            assert(after[i] == before[i + 1]);
            assert(before[k].id < before[i + 1].id);
        }
    }
}

} // verus!

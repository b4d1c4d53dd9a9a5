//! Selecting entries by date, and totalling minutes per day and per project.

use vstd::prelude::*;
use vstd::string::*;

use crate::calendar::Date;
use crate::entry::{Entry, EntryModel};
use crate::text::{
    chars_lt, chars_of, lemma_seq_lt_irreflexive, lemma_seq_lt_transitive,
    lemma_seq_lt_trichotomy, seq_lt,
};

verus! {

/// The entries' models, in order.
pub open spec fn models(s: Seq<Entry>) -> Seq<EntryModel> {
    s.map_values(|e: Entry| e@)
}

/// Every entry's length can be computed (see [`EntryModel::has_duration`]).
pub open spec fn all_have_duration(s: Seq<EntryModel>) -> bool {
    forall|i: int| 0 <= i < s.len() ==> (#[trigger] s[i]).has_duration()
}

/// Minutes of all entries together.
pub open spec fn total_minutes(s: Seq<EntryModel>) -> int
    decreases s.len(),
{
    if s.len() == 0 {
        0
    } else {
        total_minutes(s.drop_last()) + s.last().minutes()
    }
}

/// Sum of the minutes in a list of totals.
pub open spec fn sum_of_totals<K>(t: Seq<(K, u32)>) -> int
    decreases t.len(),
{
    if t.len() == 0 {
        0
    } else {
        sum_of_totals(t.drop_last()) + t.last().1
    }
}

pub proof fn lemma_sum_update<K>(t: Seq<(K, u32)>, p: int, x: (K, u32))
    requires
        0 <= p < t.len(),
    ensures
        sum_of_totals(t.update(p, x)) == sum_of_totals(t) - t[p].1 + x.1,
    decreases t.len(),
{
    if p == t.len() - 1 {
        assert(t.update(p, x).drop_last() =~= t.drop_last());
    } else {
        lemma_sum_update(t.drop_last(), p, x);
        assert(t.update(p, x).drop_last() =~= t.drop_last().update(p, x));
    }
}

pub proof fn lemma_sum_insert<K>(t: Seq<(K, u32)>, p: int, x: (K, u32))
    requires
        0 <= p <= t.len(),
    ensures
        sum_of_totals(t.insert(p, x)) == sum_of_totals(t) + x.1,
    decreases t.len(),
{
    if p == t.len() {
        assert(t.insert(p, x).drop_last() =~= t);
    } else {
        lemma_sum_insert(t.drop_last(), p, x);
        assert(t.insert(p, x).drop_last() =~= t.drop_last().insert(p, x));
    }
}

// ---------------------------------------------------------------------------
// Selecting by date
// ---------------------------------------------------------------------------

/// `d` lies within `[from, to]`, a missing bound leaving that side open.
pub open spec fn in_range(d: Date, from: Option<Date>, to: Option<Date>) -> bool {
    &&& from matches Some(f) ==> f.on_or_before(d)
    &&& to matches Some(t) ==> d.on_or_before(t)
}

pub open spec fn dated_within(from: Option<Date>, to: Option<Date>) -> spec_fn(EntryModel) -> bool {
    |e: EntryModel| in_range(e.date, from, to)
}

/// Keeps only entries whose date falls within `[from, to]`, in their order.
/// Either bound can be omitted to leave that side of the range open.
pub fn filter_by_date_range(entries: &[Entry], from: Option<Date>, to: Option<Date>) -> (r: Vec<
    Entry,
>)
    ensures
        models(r@) == models(entries@).filter(dated_within(from, to)),
{
    let mut r: Vec<Entry> = Vec::new();
    let n = entries.len();
    let ghost all = models(entries@);
    let ghost keep = dated_within(from, to);
    for i in 0..n
        invariant
            n == entries@.len(),
            all == models(entries@),
            keep == dated_within(from, to),
            models(r@) == all.take(i as int).filter(keep),
    {
        let e = &entries[i];
        let inside = match from {
            Some(f) => f.is_on_or_before(&e.date),
            None => true,
        } && match to {
            Some(t) => e.date.is_on_or_before(&t),
            None => true,
        };
        proof {
            reveal_with_fuel(Seq::filter, 1);
            assert(all.take(i + 1).drop_last() =~= all.take(i as int));
            assert(all.take(i + 1).last() == e@);
        }
        if inside {
            let c = e.clone();
            r.push(c);
            assert(models(r@) =~= all.take(i as int).filter(keep).push(e@));
        } else {
            assert(models(r@) =~= all.take(i as int).filter(keep));
        }
    }
    assert(all.take(n as int) =~= all);
    r
}

// ---------------------------------------------------------------------------
// Per-day totals
// ---------------------------------------------------------------------------

/// Some entry is dated `d`.
pub open spec fn has_day(s: Seq<EntryModel>, d: Date) -> bool
    decreases s.len(),
{
    s.len() > 0 && (s.last().date == d || has_day(s.drop_last(), d))
}

/// Minutes of the entries dated `d`. An entry that runs past midnight
/// counts, whole, on the day it starts.
pub open spec fn day_minutes(s: Seq<EntryModel>, d: Date) -> int
    decreases s.len(),
{
    if s.len() == 0 {
        0
    } else {
        day_minutes(s.drop_last(), d) + if s.last().date == d {
            s.last().minutes()
        } else {
            0
        }
    }
}

/// Days in strictly increasing order, so each day once.
pub open spec fn days_ascending(t: Seq<(Date, u32)>) -> bool {
    forall|i: int, j: int| 0 <= i < j < t.len() ==> (#[trigger] t[i]).0.before((#[trigger] t[j]).0)
}

pub proof fn lemma_day_minutes_absent(s: Seq<EntryModel>, d: Date)
    requires
        !has_day(s, d),
    ensures
        day_minutes(s, d) == 0,
    decreases s.len(),
{
    if s.len() > 0 {
        lemma_day_minutes_absent(s.drop_last(), d);
    }
}

pub proof fn lemma_day_minutes_prefix(s: Seq<EntryModel>, k: int, d: Date)
    requires
        0 <= k <= s.len(),
        all_have_duration(s),
    ensures
        0 <= day_minutes(s.take(k), d) <= day_minutes(s, d),
    decreases s.len(),
{
    if k == s.len() {
        assert(s.take(k) =~= s);
        if s.len() > 0 {
            assert(s.drop_last().take(k - 1) =~= s.drop_last());
            assert(s.last() == s[s.len() - 1]);
            lemma_day_minutes_prefix(s.drop_last(), k - 1, d);
        }
    } else {
        assert(s.drop_last().take(k) =~= s.take(k));
        assert(s.last() == s[s.len() - 1]);
        assert(all_have_duration(s.drop_last()));
        lemma_day_minutes_prefix(s.drop_last(), k, d);
        lemma_day_minutes_prefix(s.drop_last(), s.len() - 1, d);
        assert(s.drop_last().take(s.len() - 1) =~= s.drop_last());
    }
}

/// Minutes per day, days in date order.
pub struct DayTotals {
    totals: Vec<(Date, u32)>,
}

impl View for DayTotals {
    type V = Seq<(Date, u32)>;

    closed spec fn view(&self) -> Seq<(Date, u32)> {
        self.totals@
    }
}

impl DayTotals {
    #[verifier::type_invariant]
    spec fn ascending(self) -> bool {
        days_ascending(self.totals@)
    }

    /// Minutes recorded on `date`, or `None` for a day with no entries.
    pub fn get(&self, date: &Date) -> (r: Option<&u32>)
        ensures
            match r {
                Some(m) => exists|i: int|
                    0 <= i < self@.len() && (#[trigger] self@[i]).0 == *date && self@[i].1 == *m,
                None => forall|i: int| 0 <= i < self@.len() ==> (#[trigger] self@[i]).0 != *date,
            },
            days_ascending(self@),
    {
        proof {
            use_type_invariant(self);
        }
        let n = self.totals.len();
        for i in 0..n
            invariant
                n == self@.len(),
                days_ascending(self@),
                forall|j: int| 0 <= j < i ==> (#[trigger] self@[j]).0 != *date,
        {
            if self.totals[i].0 == *date {
                return Some(&self.totals[i].1);
            }
        }
        None
    }

    /// Number of days.
    pub fn len(&self) -> (n: usize)
        ensures
            n == self@.len(),
    {
        self.totals.len()
    }

    /// The days and their minutes, in date order.
    pub fn as_slice(&self) -> (r: &[(Date, u32)])
        ensures
            r@ == self@,
            days_ascending(r@),
    {
        proof {
            use_type_invariant(self);
        }
        self.totals.as_slice()
    }
}

/// Total minutes worked per day, in date order.
///
/// An entry that crosses midnight is attributed to its start date, not split
/// across the two days it touches.
pub fn summarize_by_day(entries: &[Entry]) -> (r: DayTotals)
    requires
        all_have_duration(models(entries@)),
        forall|d: Date| day_minutes(models(entries@), d) <= u32::MAX,
    ensures
        days_ascending(r@),
        forall|i: int|
            0 <= i < r@.len() ==> {
                &&& has_day(models(entries@), (#[trigger] r@[i]).0)
                &&& r@[i].1 == day_minutes(models(entries@), r@[i].0)
            },
        forall|d: Date|
            has_day(models(entries@), d) ==> exists|i: int|
                0 <= i < r@.len() && (#[trigger] r@[i]).0 == d,
        sum_of_totals(r@) == total_minutes(models(entries@)),
{
    let ghost all = models(entries@);
    let n = entries.len();
    let mut totals: Vec<(Date, u32)> = Vec::new();
    let ghost mut seen: Seq<EntryModel> = Seq::empty();
    for i in 0..n
        invariant
            n == entries@.len(),
            all == models(entries@),
            all_have_duration(all),
            forall|d: Date| day_minutes(all, d) <= u32::MAX,
            seen == all.take(i as int),
            sum_of_totals(totals@) == total_minutes(seen),
            days_ascending(totals@),
            forall|q: int|
                0 <= q < totals@.len() ==> {
                    &&& has_day(seen, (#[trigger] totals@[q]).0)
                    &&& totals@[q].1 == day_minutes(seen, totals@[q].0)
                },
            forall|d: Date|
                has_day(seen, d) ==> exists|q: int|
                    0 <= q < totals@.len() && (#[trigger] totals@[q]).0 == d,
    {
        let e = &entries[i];
        let date = e.date;
        assert(all[i as int] == e@);
        let m = e.duration_minutes();
        let ghost prev = seen;
        let ghost next = all.take(i + 1);
        assert(next.drop_last() =~= prev);
        assert(next.last() == e@);
        let ghost old_totals = totals@;

        let mut p: usize = 0;
        while p < totals.len() && totals[p].0.is_before(&date)
            invariant
                p <= totals@.len(),
                forall|q: int| 0 <= q < p ==> (#[trigger] totals@[q]).0.before(date),
            decreases totals@.len() - p,
        {
            p = p + 1;
        }
        proof {
            lemma_day_minutes_prefix(all, i + 1, date);
        }

        if p < totals.len() && totals[p].0 == date {
            let v = totals[p].1 + m;
            totals.set(p, (date, v));
            proof {
                lemma_sum_update(old_totals, p as int, (date, v));
            }
            assert forall|q: int| 0 <= q < totals@.len() implies {
                &&& has_day(next, (#[trigger] totals@[q]).0)
                &&& totals@[q].1 == day_minutes(next, totals@[q].0)
            } by {
                if q != p {
                    assert(old_totals[q] == totals@[q]);
                    if q < p {
                        assert(old_totals[q].0.before(old_totals[p as int].0));
                    } else {
                        assert(old_totals[p as int].0.before(old_totals[q].0));
                    }
                }
            }
            assert forall|d: Date| has_day(next, d) implies exists|q: int|
                0 <= q < totals@.len() && (#[trigger] totals@[q]).0 == d by {
                if d != date {
                    assert(has_day(prev, d));
                    let q = choose|q: int| 0 <= q < old_totals.len() && old_totals[q].0 == d;
                    assert(totals@[q].0 == d);
                } else {
                    assert(totals@[p as int].0 == d);
                }
            }
        } else {
            proof {
                if has_day(prev, date) {
                    let q = choose|q: int| 0 <= q < old_totals.len() && old_totals[q].0 == date;
                    if q < p {
                        assert(old_totals[q].0.before(date));
                    } else {
                        assert(old_totals[p as int].0 != date);
                        if q > p {
                            assert(old_totals[p as int].0.before(old_totals[q].0));
                        }
                    }
                }
                lemma_day_minutes_absent(prev, date);
            }
            totals.insert(p, (date, m));
            proof {
                lemma_sum_insert(old_totals, p as int, (date, m));
            }
            assert forall|a: int, b: int| 0 <= a < b < totals@.len() implies (
            #[trigger] totals@[a]).0.before((#[trigger] totals@[b]).0) by {
                if b < p {
                    assert(totals@[a] == old_totals[a] && totals@[b] == old_totals[b]);
                } else if b == p {
                    assert(totals@[a] == old_totals[a]);
                } else if a == p {
                    assert(totals@[b] == old_totals[b - 1]);
                    if b - 1 > p {
                        assert(old_totals[p as int].0.before(old_totals[b - 1].0));
                    }
                } else if a < p {
                    assert(totals@[a] == old_totals[a] && totals@[b] == old_totals[b - 1]);
                } else {
                    assert(totals@[a] == old_totals[a - 1] && totals@[b] == old_totals[b - 1]);
                }
            }
            assert forall|q: int| 0 <= q < totals@.len() implies {
                &&& has_day(next, (#[trigger] totals@[q]).0)
                &&& totals@[q].1 == day_minutes(next, totals@[q].0)
            } by {
                if q < p {
                    assert(totals@[q] == old_totals[q]);
                    assert(old_totals[q].0.before(date));
                } else if q > p {
                    assert(totals@[q] == old_totals[q - 1]);
                    assert(old_totals[q - 1].0 != date) by {
                        if q - 1 > p {
                            assert(old_totals[p as int].0.before(old_totals[q - 1].0));
                        }
                    }
                }
            }
            assert forall|d: Date| has_day(next, d) implies exists|q: int|
                0 <= q < totals@.len() && (#[trigger] totals@[q]).0 == d by {
                if d != date {
                    assert(has_day(prev, d));
                    let q = choose|q: int| 0 <= q < old_totals.len() && old_totals[q].0 == d;
                    if q < p {
                        assert(totals@[q].0 == d);
                    } else {
                        assert(totals@[q + 1].0 == d);
                    }
                } else {
                    assert(totals@[p as int].0 == d);
                }
            }
        }
        proof {
            seen = next;
        }
    }
    assert(all.take(n as int) =~= all);
    assert(seen == all);
    let ghost t = totals@;
    let r = DayTotals { totals };
    assert(r@ == t);
    assert forall|d: Date| has_day(models(entries@), d) implies exists|i: int|
        0 <= i < r@.len() && (#[trigger] r@[i]).0 == d by {
        assert(has_day(seen, d));
        let q = choose|q: int| 0 <= q < t.len() && t[q].0 == d;
        assert(r@[q].0 == d);
    }
    r
}

// ---------------------------------------------------------------------------
// Per-project totals
// ---------------------------------------------------------------------------

/// Some entry is for `p`.
pub open spec fn has_project(s: Seq<EntryModel>, p: Seq<char>) -> bool
    decreases s.len(),
{
    s.len() > 0 && (s.last().project == p || has_project(s.drop_last(), p))
}

/// Minutes of the entries for project `p`.
pub open spec fn project_minutes(s: Seq<EntryModel>, p: Seq<char>) -> int
    decreases s.len(),
{
    if s.len() == 0 {
        0
    } else {
        project_minutes(s.drop_last(), p) + if s.last().project == p {
            s.last().minutes()
        } else {
            0
        }
    }
}

/// Project names in strictly increasing order (see [`seq_lt`]), so each
/// name once.
pub open spec fn projects_ascending(t: Seq<(Seq<char>, u32)>) -> bool {
    forall|i: int, j: int| 0 <= i < j < t.len() ==> seq_lt((#[trigger] t[i]).0, (#[trigger] t[j]).0)
}

pub proof fn lemma_project_minutes_absent(s: Seq<EntryModel>, p: Seq<char>)
    requires
        !has_project(s, p),
    ensures
        project_minutes(s, p) == 0,
    decreases s.len(),
{
    if s.len() > 0 {
        lemma_project_minutes_absent(s.drop_last(), p);
    }
}

pub proof fn lemma_project_minutes_prefix(s: Seq<EntryModel>, k: int, p: Seq<char>)
    requires
        0 <= k <= s.len(),
        all_have_duration(s),
    ensures
        0 <= project_minutes(s.take(k), p) <= project_minutes(s, p),
    decreases s.len(),
{
    if k == s.len() {
        assert(s.take(k) =~= s);
        if s.len() > 0 {
            assert(s.drop_last().take(k - 1) =~= s.drop_last());
            assert(s.last() == s[s.len() - 1]);
            lemma_project_minutes_prefix(s.drop_last(), k - 1, p);
        }
    } else {
        assert(s.drop_last().take(k) =~= s.take(k));
        assert(s.last() == s[s.len() - 1]);
        assert(all_have_duration(s.drop_last()));
        lemma_project_minutes_prefix(s.drop_last(), k, p);
        lemma_project_minutes_prefix(s.drop_last(), s.len() - 1, p);
        assert(s.drop_last().take(s.len() - 1) =~= s.drop_last());
    }
}

/// Minutes per project, projects in name order.
pub struct ProjectTotals {
    totals: Vec<(String, u32)>,
}

impl View for ProjectTotals {
    type V = Seq<(Seq<char>, u32)>;

    closed spec fn view(&self) -> Seq<(Seq<char>, u32)> {
        self.totals@.map_values(|t: (String, u32)| (t.0@, t.1))
    }
}

impl ProjectTotals {
    #[verifier::type_invariant]
    spec fn ascending(self) -> bool {
        projects_ascending(self@)
    }

    /// Minutes recorded for `project`, or `None` for a project with no
    /// entries.
    pub fn get(&self, project: &str) -> (r: Option<&u32>)
        ensures
            match r {
                Some(m) => exists|i: int|
                    0 <= i < self@.len() && (#[trigger] self@[i]).0 == project@ && self@[i].1
                        == *m,
                None => forall|i: int|
                    0 <= i < self@.len() ==> (#[trigger] self@[i]).0 != project@,
            },
            projects_ascending(self@),
    {
        proof {
            use_type_invariant(self);
        }
        let wanted = String::from_str(project);
        let n = self.totals.len();
        for i in 0..n
            invariant
                n == self@.len(),
                n == self.totals@.len(),
                wanted@ == project@,
                projects_ascending(self@),
                forall|j: int| 0 <= j < i ==> (#[trigger] self@[j]).0 != project@,
        {
            assert(self@[i as int] == (self.totals@[i as int].0@, self.totals@[i as int].1));
            if self.totals[i].0 == wanted {
                return Some(&self.totals[i].1);
            }
        }
        None
    }

    /// Number of projects.
    pub fn len(&self) -> (n: usize)
        ensures
            n == self@.len(),
    {
        self.totals.len()
    }

    /// The projects and their minutes, in name order.
    pub fn as_slice(&self) -> (r: &[(String, u32)])
        ensures
            r@.map_values(|t: (String, u32)| (t.0@, t.1)) == self@,
            projects_ascending(self@),
    {
        proof {
            use_type_invariant(self);
        }
        self.totals.as_slice()
    }
}

/// Total minutes worked per project, in project name order.
pub fn summarize_by_project(entries: &[Entry]) -> (r: ProjectTotals)
    requires
        all_have_duration(models(entries@)),
        forall|p: Seq<char>| project_minutes(models(entries@), p) <= u32::MAX,
    ensures
        projects_ascending(r@),
        forall|i: int|
            0 <= i < r@.len() ==> {
                &&& has_project(models(entries@), (#[trigger] r@[i]).0)
                &&& r@[i].1 == project_minutes(models(entries@), r@[i].0)
            },
        forall|p: Seq<char>|
            has_project(models(entries@), p) ==> exists|i: int|
                0 <= i < r@.len() && (#[trigger] r@[i]).0 == p,
        sum_of_totals(r@) == total_minutes(models(entries@)),
{
    let ghost all = models(entries@);
    let n = entries.len();
    let mut totals: Vec<(String, u32)> = Vec::new();
    let ghost mut seen: Seq<EntryModel> = Seq::empty();
    for i in 0..n
        invariant
            n == entries@.len(),
            all == models(entries@),
            all_have_duration(all),
            forall|p: Seq<char>| project_minutes(all, p) <= u32::MAX,
            seen == all.take(i as int),
            sum_of_totals(totals@.map_values(|t: (String, u32)| (t.0@, t.1))) == total_minutes(seen),
            projects_ascending(totals@.map_values(|t: (String, u32)| (t.0@, t.1))),
            forall|q: int|
                0 <= q < totals@.len() ==> {
                    &&& has_project(seen, (#[trigger] totals@[q]).0@)
                    &&& totals@[q].1 == project_minutes(seen, totals@[q].0@)
                },
            forall|p: Seq<char>|
                has_project(seen, p) ==> exists|q: int|
                    0 <= q < totals@.len() && (#[trigger] totals@[q]).0@ == p,
    {
        let e = &entries[i];
        assert(all[i as int] == e@);
        let key = chars_of(e.project.as_str());
        let ghost name = e.project@;
        let m = e.duration_minutes();
        let ghost prev = seen;
        let ghost next = all.take(i + 1);
        assert(next.drop_last() =~= prev);
        assert(next.last() == e@);
        let ghost old_totals = totals@;
        let ghost old_view = totals@.map_values(|t: (String, u32)| (t.0@, t.1));
        assert(forall|q: int| 0 <= q < old_totals.len() ==> #[trigger] old_view[q] == (old_totals[q].0@, old_totals[q].1));

        let mut p: usize = 0;
        while p < totals.len() && chars_lt(&chars_of(totals[p].0.as_str()), &key)
            invariant
                p <= totals@.len(),
                totals@ == old_totals,
                key@ == name,
                forall|q: int| 0 <= q < p ==> seq_lt((#[trigger] old_totals[q]).0@, name),
            decreases totals@.len() - p,
        {
            p = p + 1;
        }
        proof {
            lemma_project_minutes_prefix(all, i + 1, name);
        }
        if p < totals.len() && totals[p].0 == e.project {
            let v = totals[p].1 + m;
            totals.set(p, (e.project.clone(), v));
            let ghost new_view = totals@.map_values(|t: (String, u32)| (t.0@, t.1));
            assert(new_view =~= old_view.update(p as int, (name, v)));
            proof {
                lemma_sum_update(old_view, p as int, (name, v));
            }
            assert(old_view[p as int].0 == name);
            assert forall|a: int, b: int| 0 <= a < b < new_view.len() implies seq_lt(
                (#[trigger] new_view[a]).0,
                (#[trigger] new_view[b]).0,
            ) by {
                assert(new_view[a].0 == old_view[a].0);
                assert(new_view[b].0 == old_view[b].0);
            }
            assert forall|q: int| 0 <= q < totals@.len() implies {
                &&& has_project(next, (#[trigger] totals@[q]).0@)
                &&& totals@[q].1 == project_minutes(next, totals@[q].0@)
            } by {
                if q != p {
                    assert(old_totals[q] == totals@[q]);
                    if q < p {
                        assert(seq_lt(old_view[q].0, old_view[p as int].0));
                    } else {
                        assert(seq_lt(old_view[p as int].0, old_view[q].0));
                    }
                    lemma_seq_lt_irreflexive(name);
                }
            }
            assert forall|d: Seq<char>| has_project(next, d) implies exists|q: int|
                0 <= q < totals@.len() && (#[trigger] totals@[q]).0@ == d by {
                if d != name {
                    assert(has_project(prev, d));
                    let q = choose|q: int| 0 <= q < old_totals.len() && old_totals[q].0@ == d;
                    assert(totals@[q].0@ == d);
                } else {
                    assert(totals@[p as int].0@ == d);
                }
            }
        } else {
            proof {
                lemma_seq_lt_irreflexive(name);
                if p < old_totals.len() {
                    lemma_seq_lt_trichotomy(old_totals[p as int].0@, name);
                    assert(seq_lt(name, old_view[p as int].0));
                }
                if has_project(prev, name) {
                    let q = choose|q: int| 0 <= q < old_totals.len() && old_totals[q].0@ == name;
                    if q < p {
                        assert(seq_lt(old_totals[q].0@, name));
                    } else {
                        if q > p {
                            assert(seq_lt(old_view[p as int].0, old_view[q].0));
                            lemma_seq_lt_transitive(name, old_view[p as int].0, old_view[q].0);
                        }
                    }
                }
                lemma_project_minutes_absent(prev, name);
            }
            totals.insert(p, (e.project.clone(), m));
            let ghost new_view = totals@.map_values(|t: (String, u32)| (t.0@, t.1));
            assert(new_view =~= old_view.insert(p as int, (name, m)));
            proof {
                lemma_sum_insert(old_view, p as int, (name, m));
            }
            assert forall|a: int, b: int| 0 <= a < b < new_view.len() implies seq_lt(
                (#[trigger] new_view[a]).0,
                (#[trigger] new_view[b]).0,
            ) by {
                if b < p {
                    assert(new_view[a] == old_view[a] && new_view[b] == old_view[b]);
                } else if b == p {
                    assert(new_view[a] == old_view[a]);
                } else if a == p {
                    assert(new_view[b] == old_view[b - 1]);
                    if b - 1 > p {
                        assert(seq_lt(old_view[p as int].0, old_view[b - 1].0));
                        lemma_seq_lt_transitive(name, old_view[p as int].0, old_view[b - 1].0);
                    }
                } else if a < p {
                    assert(new_view[a] == old_view[a] && new_view[b] == old_view[b - 1]);
                    assert(seq_lt(old_view[a].0, name));
                    if b - 1 > p {
                        assert(seq_lt(old_view[p as int].0, old_view[b - 1].0));
                        lemma_seq_lt_transitive(name, old_view[p as int].0, old_view[b - 1].0);
                    }
                    lemma_seq_lt_transitive(old_view[a].0, name, old_view[b - 1].0);
                } else {
                    assert(new_view[a] == old_view[a - 1] && new_view[b] == old_view[b - 1]);
                }
            }
            assert forall|q: int| 0 <= q < totals@.len() implies {
                &&& has_project(next, (#[trigger] totals@[q]).0@)
                &&& totals@[q].1 == project_minutes(next, totals@[q].0@)
            } by {
                if q < p {
                    assert(totals@[q] == old_totals[q]);
                    assert(seq_lt(old_totals[q].0@, name));
                } else if q > p {
                    assert(totals@[q] == old_totals[q - 1]);
                    assert(old_totals[q - 1].0@ != name) by {
                        if q - 1 > p {
                            assert(seq_lt(old_view[p as int].0, old_view[q - 1].0));
                            lemma_seq_lt_transitive(name, old_view[p as int].0, old_view[q - 1].0);
                        }
                    }
                }
            }
            assert forall|d: Seq<char>| has_project(next, d) implies exists|q: int|
                0 <= q < totals@.len() && (#[trigger] totals@[q]).0@ == d by {
                if d != name {
                    assert(has_project(prev, d));
                    let q = choose|q: int| 0 <= q < old_totals.len() && old_totals[q].0@ == d;
                    if q < p {
                        assert(totals@[q].0@ == d);
                    } else {
                        assert(totals@[q + 1].0@ == d);
                    }
                } else {
                    assert(totals@[p as int].0@ == d);
                }
            }
        }
        proof {
            seen = next;
        }
    }
    assert(all.take(n as int) =~= all);
    assert(seen == all);
    let ghost t = totals@;
    let r = ProjectTotals { totals };
    assert(r@ == t.map_values(|t: (String, u32)| (t.0@, t.1)));
    assert forall|i: int| 0 <= i < r@.len() implies {
        &&& has_project(models(entries@), (#[trigger] r@[i]).0)
        &&& r@[i].1 == project_minutes(models(entries@), r@[i].0)
    } by {
        assert(r@[i] == (t[i].0@, t[i].1));
    }
    assert forall|d: Seq<char>| has_project(models(entries@), d) implies exists|i: int|
        0 <= i < r@.len() && (#[trigger] r@[i]).0 == d by {
        assert(has_project(seen, d));
        let q = choose|q: int| 0 <= q < t.len() && t[q].0@ == d;
        assert(r@[q] == (t[q].0@, t[q].1));
    }
    r
}

// ---------------------------------------------------------------------------
// When totals fit
// ---------------------------------------------------------------------------

pub proof fn lemma_total_minutes_prefix(s: Seq<EntryModel>, k: int)
    requires
        0 <= k <= s.len(),
        all_have_duration(s),
    ensures
        0 <= total_minutes(s.take(k)) <= total_minutes(s),
    decreases s.len(),
{
    if k == s.len() {
        assert(s.take(k) =~= s);
        if s.len() > 0 {
            assert(s.drop_last().take(k - 1) =~= s.drop_last());
            assert(s.last() == s[s.len() - 1]);
            lemma_total_minutes_prefix(s.drop_last(), k - 1);
        }
    } else {
        assert(s.drop_last().take(k) =~= s.take(k));
        assert(s.last() == s[s.len() - 1]);
        lemma_total_minutes_prefix(s.drop_last(), k);
        lemma_total_minutes_prefix(s.drop_last(), s.len() - 1);
        assert(s.drop_last().take(s.len() - 1) =~= s.drop_last());
    }
}

/// No day and no project has more minutes than all entries together.
pub proof fn lemma_totals_bounded(s: Seq<EntryModel>, d: Date, p: Seq<char>)
    requires
        all_have_duration(s),
    ensures
        day_minutes(s, d) <= total_minutes(s),
        project_minutes(s, p) <= total_minutes(s),
    decreases s.len(),
{
    if s.len() > 0 {
        assert(s.last() == s[s.len() - 1]);
        lemma_totals_bounded(s.drop_last(), d, p);
    }
}

/// Whether every entry's length can be computed and all their minutes
/// together fit in a `u32`; when so, [`summarize_by_day`] and
/// [`summarize_by_project`] can be called on `entries`.
pub fn fits_in_totals(entries: &[Entry]) -> (b: bool)
    ensures
        b == (all_have_duration(models(entries@)) && total_minutes(models(entries@))
            <= u32::MAX),
        b ==> forall|d: Date| day_minutes(models(entries@), d) <= u32::MAX,
        b ==> forall|p: Seq<char>| project_minutes(models(entries@), p) <= u32::MAX,
{
    let ghost all = models(entries@);
    let n = entries.len();
    let mut total: u32 = 0;
    for i in 0..n
        invariant
            n == entries@.len(),
            all == models(entries@),
            all_have_duration(all.take(i as int)),
            total == total_minutes(all.take(i as int)),
    {
        let e = &entries[i];
        assert(all[i as int] == e@);
        assert(all.take(i + 1).drop_last() =~= all.take(i as int));
        assert(all.take(i + 1).last() == e@);
        let start = e.start.minutes_since_midnight();
        let end = e.end.minutes_since_midnight();
        if !(end > start || start <= 1440) {
            assert(!all_have_duration(all));
            return false;
        }
        assert forall|j: int| 0 <= j < i + 1 implies (#[trigger] all.take(i + 1)[j]).has_duration() by {
            if j < i {
                assert(all.take(i + 1)[j] == all.take(i as int)[j]);
            }
        }
        let m = e.duration_minutes();
        if m > u32::MAX - total {
            proof {
                if all_have_duration(all) {
                    lemma_total_minutes_prefix(all, i + 1);
                }
            }
            return false;
        }
        total = total + m;
    }
    assert(all.take(n as int) =~= all);
    proof {
        assert forall|d: Date| day_minutes(all, d) <= u32::MAX by {
            lemma_totals_bounded(all, d, Seq::empty());
        }
        assert forall|p: Seq<char>| project_minutes(all, p) <= u32::MAX by {
            lemma_totals_bounded(all, Date { year: 0, month: 0, day: 0 }, p);
        }
    }
    true
}

} // verus!

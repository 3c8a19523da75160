//! Merged per-date contribution counts.
//!
//! A [`Totals`] holds the additive merge of provider observations, keyed by
//! calendar day (days since 1970-01-01). The representation is canonical:
//! entries are strictly sorted by day and hold positive counts only, so two
//! `Totals` with the same per-day counts are structurally identical. That
//! canonicity is what makes the merge commutative and associative as a value,
//! not merely pointwise; see [`lemma_merge_commutative`] and
//! [`lemma_merge_associative`].

use vstd::prelude::*;

verus! {

/// One (day, count) observation from a provider; `day` counts calendar days
/// since 1970-01-01 and `count` is the non-negative activity on that day.
#[derive(Clone, Copy, PartialEq, Eq, Structural, Debug)]
pub struct DailyCount {
    pub day: u64,
    pub count: u64,
}

/// Addition of two counts, saturating at `u64::MAX` (both arguments are
/// expected in `[0, u64::MAX]`).
pub open spec fn sat_add(a: int, b: int) -> int {
    if a + b > u64::MAX {
        u64::MAX as int
    } else {
        a + b
    }
}

/// Total count that the raw list `s` contributes to day `d`: the saturating
/// sum of every entry for that day (a list may repeat a day).
pub open spec fn list_count(s: Seq<DailyCount>, d: int) -> int
    decreases s.len(),
{
    if s.len() == 0 {
        0
    } else {
        sat_add(
            list_count(s.drop_last(), d),
            if s.last().day == d {
                s.last().count as int
            } else {
                0
            },
        )
    }
}

/// Entries strictly sorted by day (hence days are unique).
pub open spec fn days_sorted(s: Seq<DailyCount>) -> bool {
    forall|i: int, j: int| 0 <= i < j < s.len() ==> s[i].day < s[j].day
}

/// Every stored count is positive (a day with no activity is simply absent).
pub open spec fn counts_positive(s: Seq<DailyCount>) -> bool {
    forall|i: int| 0 <= i < s.len() ==> s[i].count > 0
}

/// Canonical representation: sorted days, positive counts.
pub open spec fn canonical(s: Seq<DailyCount>) -> bool {
    days_sorted(s) && counts_positive(s)
}

/// Mapping from calendar day to accumulated count, with unique keys.
pub struct Totals {
    pub(crate) entries: Vec<DailyCount>,
}

impl View for Totals {
    type V = Seq<DailyCount>;

    closed spec fn view(&self) -> Seq<DailyCount> {
        self.entries@
    }
}

impl Totals {
    /// The representation invariant: the entry list is canonical.
    pub open spec fn wf(&self) -> bool {
        canonical(self@)
    }

    /// The count recorded for day `d` (0 when the day is absent).
    pub open spec fn count_of(&self, d: int) -> int {
        list_count(self@, d)
    }

    /// An empty history: every day counts 0.
    pub fn new() -> (t: Totals)
        ensures
            t.wf(),
            t@.len() == 0,
            forall|d: int| t.count_of(d) == 0,
    {
        Totals { entries: Vec::new() }
    }

    /// Add `count` to day `day`, saturating; inserts the day when absent.
    pub fn add(&mut self, day: u64, count: u64)
        requires
            old(self).wf(),
        ensures
            final(self).wf(),
            forall|d: int|
                final(self).count_of(d) == sat_add(
                    old(self).count_of(d),
                    if d == day as int {
                        count as int
                    } else {
                        0
                    },
                ),
    {
        let ghost s0 = self.entries@;
        let mut i: usize = 0;
        while i < self.entries.len() && self.entries[i].day < day
            invariant
                self.entries@ == s0,
                canonical(s0),
                i <= s0.len(),
                forall|k: int| 0 <= k < i ==> s0[k].day < day,
            decreases s0.len() - i,
        {
            i += 1;
        }
        proof {
            assert(forall|k: int| i <= k < s0.len() && s0[k].day != s0[i as int].day
                ==> s0[i as int].day < s0[k].day);
        }
        if i < self.entries.len() && self.entries[i].day == day {
            let c0 = self.entries[i].count;
            let c1 = c0.saturating_add(count);
            self.entries[i] = DailyCount { day, count: c1 };
            proof {
                let s1 = self.entries@;
                lemma_list_count_at(s0, i as int);
                lemma_list_count_at(s1, i as int);
                assert forall|d: int| d != day as int implies list_count(s1, d) == list_count(
                    s0,
                    d,
                ) by {
                    lemma_list_count_same_but(s0, s1, d);
                }
            }
        } else if count > 0 {
            proof {
                assert(forall|k: int| 0 <= k < s0.len() && !(k < i) ==> day < s0[k].day);
                lemma_list_count_absent(s0, day as int);
            }
            self.entries.insert(i, DailyCount { day, count });
            proof {
                let s1 = self.entries@;
                let x = DailyCount { day, count };
                assert(s1 == s0.insert(i as int, x));
                assert(s1 =~= s0.take(i as int) + seq![x] + s0.skip(i as int));
                assert forall|d: int| true implies list_count(s1, d) == sat_add(
                    sat_add(list_count(s0.take(i as int), d), list_count(s0.skip(i as int), d)),
                    if x.day == d {
                        x.count as int
                    } else {
                        0
                    },
                ) by {
                    lemma_list_count_split3_counts(s0, i as int, x, d);
                }
                assert forall|d: int| true implies list_count(s0.take(i as int), d) >= 0
                    && list_count(s0.skip(i as int), d) >= 0 by {
                    lemma_list_count_bounds(s0.take(i as int), d);
                    lemma_list_count_bounds(s0.skip(i as int), d);
                }
                assert(s0 =~= s0.take(i as int) + s0.skip(i as int));
                assert forall|d: int| true implies list_count(s0, d) == sat_add(
                    list_count(s0.take(i as int), d),
                    list_count(s0.skip(i as int), d),
                ) by {
                    lemma_list_count_append(s0.take(i as int), s0.skip(i as int), d);
                }
            }
        } else {
            proof {
                if i < s0.len() {
                    assert(forall|k: int| 0 <= k < s0.len() && !(k < i) ==> day < s0[k].day);
                }
                lemma_list_count_absent(s0, day as int);
            }
        }
    }

    /// Look up the count for `day`; absent days count 0.
    pub fn get(&self, day: u64) -> (c: u64)
        requires
            self.wf(),
        ensures
            c as int == self.count_of(day as int),
    {
        let mut i: usize = 0;
        while i < self.entries.len()
            invariant
                self.wf(),
                i <= self@.len(),
                forall|k: int| 0 <= k < i ==> self@[k].day != day,
            decreases self@.len() - i,
        {
            if self.entries[i].day == day {
                proof {
                    lemma_list_count_at(self@, i as int);
                }
                return self.entries[i].count;
            }
            i += 1;
        }
        proof {
            lemma_list_count_absent(self@, day as int);
        }
        0
    }

    /// Wrap an already-canonical entry list as a history.
    pub fn from_sorted(entries: Vec<DailyCount>) -> (t: Totals)
        requires
            canonical(entries@),
        ensures
            t.wf(),
            t@ == entries@,
    {
        Totals { entries }
    }

    /// The entries as a list, sorted by day.
    pub fn to_list(&self) -> (l: Vec<DailyCount>)
        ensures
            l@ == self@,
    {
        let mut l: Vec<DailyCount> = Vec::new();
        let mut i: usize = 0;
        while i < self.entries.len()
            invariant
                i <= self@.len(),
                l@ == self@.take(i as int),
            decreases self@.len() - i,
        {
            l.push(self.entries[i]);
            proof {
                assert(l@ =~= self@.take(i + 1));
            }
            i = i + 1;
        }
        proof {
            assert(self@.take(self@.len() as int) =~= self@);
        }
        l
    }

    /// The largest single-day count in the history (0 when empty).
    pub fn max_count(&self) -> (m: u64)
        requires
            self.wf(),
        ensures
            m as int == max_of(self@),
    {
        let mut m: u64 = 0;
        let mut i: usize = 0;
        while i < self.entries.len()
            invariant
                i <= self@.len(),
                m as int == max_of(self@.take(i as int)),
            decreases self@.len() - i,
        {
            proof {
                assert(self@.take(i + 1).drop_last() =~= self@.take(i as int));
            }
            if self.entries[i].count > m {
                m = self.entries[i].count;
            }
            i += 1;
        }
        proof {
            assert(self@.take(self@.len() as int) =~= self@);
        }
        m
    }
}

/// The largest count in a list (0 when empty).
pub open spec fn max_of(s: Seq<DailyCount>) -> int
    decreases s.len(),
{
    if s.len() == 0 {
        0
    } else if s.last().count as int > max_of(s.drop_last()) {
        s.last().count as int
    } else {
        max_of(s.drop_last())
    }
}

/// `m` holds exactly the day-wise saturating sum of `a` and `b`.
pub open spec fn is_merge_of(m: Totals, a: Totals, b: Totals) -> bool {
    &&& m.wf()
    &&& forall|d: int| m.count_of(d) == sat_add(a.count_of(d), b.count_of(d))
}

/// Merge two histories additively by day.
pub fn merge(a: &Totals, b: &Totals) -> (r: Totals)
    requires
        a.wf(),
        b.wf(),
    ensures
        is_merge_of(r, *a, *b),
{
    let mut r = Totals::new();
    let mut i: usize = 0;
    while i < a.entries.len()
        invariant
            a.wf(),
            r.wf(),
            i <= a@.len(),
            forall|d: int| r.count_of(d) == list_count(a@.take(i as int), d),
        decreases a@.len() - i,
    {
        let e = a.entries[i];
        proof {
            assert(a@.take(i + 1).drop_last() =~= a@.take(i as int));
            assert(a@.take(i + 1).last() == a@[i as int]);
        }
        r.add(e.day, e.count);
        i += 1;
    }
    proof {
        assert(a@.take(a@.len() as int) =~= a@);
    }
    let mut j: usize = 0;
    while j < b.entries.len()
        invariant
            a.wf(),
            b.wf(),
            r.wf(),
            j <= b@.len(),
            forall|d: int| r.count_of(d) == sat_add(a.count_of(d), list_count(b@.take(j as int), d)),
        decreases b@.len() - j,
    {
        let e = b.entries[j];
        proof {
            assert(b@.take(j + 1).drop_last() =~= b@.take(j as int));
            assert(b@.take(j + 1).last() == b@[j as int]);
            lemma_list_count_bounds(a@, e.day as int);
            lemma_list_count_bounds(b@.take(j as int), e.day as int);
        }
        r.add(e.day, e.count);
        j += 1;
    }
    proof {
        assert(b@.take(b@.len() as int) =~= b@);
    }
    r
}

/// Counts are bounded by the `u64` range.
pub proof fn lemma_list_count_bounds(s: Seq<DailyCount>, d: int)
    ensures
        0 <= list_count(s, d) <= u64::MAX,
    decreases s.len(),
{
    if s.len() > 0 {
        lemma_list_count_bounds(s.drop_last(), d);
    }
}

/// Saturating addition over counts is associative.
pub proof fn lemma_sat_add_assoc(a: int, b: int, c: int)
    requires
        0 <= a,
        0 <= b,
        0 <= c,
    ensures
        sat_add(sat_add(a, b), c) == sat_add(a, sat_add(b, c)),
{
}

/// A list contributes nothing to a day it never mentions.
pub proof fn lemma_list_count_absent(s: Seq<DailyCount>, d: int)
    requires
        forall|k: int| 0 <= k < s.len() ==> s[k].day != d,
    ensures
        list_count(s, d) == 0,
    decreases s.len(),
{
    if s.len() > 0 {
        lemma_list_count_absent(s.drop_last(), d);
    }
}

/// In a sorted list, the contribution to day `s[i].day` is exactly `s[i].count`.
pub proof fn lemma_list_count_at(s: Seq<DailyCount>, i: int)
    requires
        days_sorted(s),
        0 <= i < s.len(),
    ensures
        list_count(s, s[i].day as int) == s[i].count as int,
    decreases s.len(),
{
    if i == s.len() - 1 {
        lemma_list_count_absent(s.drop_last(), s[i].day as int);
    } else {
        lemma_list_count_at(s.drop_last(), i);
    }
}

/// Two lists that agree except on entries for other days contribute the same
/// count to day `d`.
pub proof fn lemma_list_count_same_but(s: Seq<DailyCount>, t: Seq<DailyCount>, d: int)
    requires
        s.len() == t.len(),
        forall|k: int|
            0 <= k < s.len() ==> (s[k] == t[k] || (s[k].day != d && t[k].day != d)),
    ensures
        list_count(s, d) == list_count(t, d),
    decreases s.len(),
{
    if s.len() > 0 {
        lemma_list_count_same_but(s.drop_last(), t.drop_last(), d);
    }
}

/// Splitting a list into two halves splits its contribution.
pub proof fn lemma_list_count_append(s1: Seq<DailyCount>, s2: Seq<DailyCount>, d: int)
    ensures
        list_count(s1 + s2, d) == sat_add(list_count(s1, d), list_count(s2, d)),
    decreases s2.len(),
{
    if s2.len() == 0 {
        assert(s1 + s2 =~= s1);
        lemma_list_count_bounds(s1, d);
    } else {
        assert((s1 + s2).drop_last() =~= s1 + s2.drop_last());
        assert((s1 + s2).last() == s2.last());
        lemma_list_count_append(s1, s2.drop_last(), d);
        lemma_list_count_bounds(s1, d);
        lemma_list_count_bounds(s2.drop_last(), d);
        lemma_sat_add_assoc(
            list_count(s1, d),
            list_count(s2.drop_last(), d),
            if s2.last().day == d {
                s2.last().count as int
            } else {
                0
            },
        );
    }
}

proof fn lemma_list_count_split3_counts(s: Seq<DailyCount>, i: int, x: DailyCount, d: int)
    requires
        0 <= i <= s.len(),
    ensures
        list_count(s.take(i) + seq![x] + s.skip(i), d) == sat_add(
            sat_add(list_count(s.take(i), d), list_count(s.skip(i), d)),
            if x.day == d {
                x.count as int
            } else {
                0
            },
        ),
{
    lemma_list_count_append(s.take(i) + seq![x], s.skip(i), d);
    lemma_list_count_append(s.take(i), seq![x], d);
    assert(seq![x].drop_last() =~= Seq::<DailyCount>::empty());
    lemma_list_count_bounds(s.take(i), d);
    lemma_list_count_bounds(s.skip(i), d);
    let xc: int = if x.day == d {
        x.count as int
    } else {
        0
    };
    assert(seq![x].last() == x);
    assert(list_count(seq![x].drop_last(), d) == 0);
    assert(list_count(seq![x], d) == sat_add(0, xc));
    lemma_sat_add_assoc(list_count(s.take(i), d), xc, list_count(s.skip(i), d));
    lemma_sat_add_assoc(list_count(s.take(i), d), list_count(s.skip(i), d), xc);
}

/// Canonical lists with the same per-day counts are the same list: the
/// representation of a history is unique.
pub proof fn lemma_canonical_unique(s: Seq<DailyCount>, t: Seq<DailyCount>)
    requires
        canonical(s),
        canonical(t),
        forall|d: int| list_count(s, d) == list_count(t, d),
    ensures
        s == t,
    decreases s.len() + t.len(),
{
    if s.len() == 0 && t.len() == 0 {
        assert(s =~= t);
    } else if s.len() == 0 {
        lemma_list_count_at(t, t.len() - 1);
        lemma_list_count_absent(s, t.last().day as int);
    } else if t.len() == 0 {
        lemma_list_count_at(s, s.len() - 1);
        lemma_list_count_absent(t, s.last().day as int);
    } else {
        let sd = s.last().day as int;
        let td = t.last().day as int;
        lemma_list_count_at(s, s.len() - 1);
        lemma_list_count_at(t, t.len() - 1);
        if sd > td {
            assert(forall|k: int| 0 <= k < t.len() ==> t[k].day as int <= td);
            lemma_list_count_absent(t, sd);
            assert(false);
        }
        if td > sd {
            assert(forall|k: int| 0 <= k < s.len() ==> s[k].day as int <= sd);
            lemma_list_count_absent(s, td);
            assert(false);
        }
        assert(s.last() == t.last());
        assert forall|d: int| true implies list_count(s.drop_last(), d) == list_count(
            t.drop_last(),
            d,
        ) by {
            assert(list_count(s, d) == list_count(t, d));
            if d == sd {
                assert(forall|k: int|
                    0 <= k < s.drop_last().len() ==> (s.drop_last()[k].day as int) < sd);
                assert(forall|k: int|
                    0 <= k < t.drop_last().len() ==> (t.drop_last()[k].day as int) < td);
                lemma_list_count_absent(s.drop_last(), d);
                lemma_list_count_absent(t.drop_last(), d);
            } else {
                lemma_list_count_bounds(s.drop_last(), d);
                lemma_list_count_bounds(t.drop_last(), d);
                assert(list_count(s, d) == sat_add(list_count(s.drop_last(), d), 0));
                assert(list_count(t, d) == sat_add(list_count(t.drop_last(), d), 0));
            }
        }
        lemma_canonical_unique(s.drop_last(), t.drop_last());
        assert(s.len() == t.len());
        assert forall|k: int| 0 <= k < s.len() implies s[k] == t[k] by {
            if k < s.len() - 1 {
                assert(s.drop_last()[k] == t.drop_last()[k]);
            }
        }
        assert(s =~= t);
    }
}

/// Merging is commutative: however the two results are ordered, the merged
/// history is the same value.
pub proof fn lemma_merge_commutative(a: Totals, b: Totals, m1: Totals, m2: Totals)
    requires
        a.wf(),
        b.wf(),
        is_merge_of(m1, a, b),
        is_merge_of(m2, b, a),
    ensures
        m1@ == m2@,
{
    assert forall|d: int| list_count(m1@, d) == list_count(m2@, d) by {
        assert(m1.count_of(d) == sat_add(a.count_of(d), b.count_of(d)));
        assert(m2.count_of(d) == sat_add(b.count_of(d), a.count_of(d)));
    }
    lemma_canonical_unique(m1@, m2@);
}

/// Merging is associative: grouping does not change the merged history.
pub proof fn lemma_merge_associative(
    a: Totals,
    b: Totals,
    c: Totals,
    ab: Totals,
    bc: Totals,
    l: Totals,
    r: Totals,
)
    requires
        a.wf(),
        b.wf(),
        c.wf(),
        is_merge_of(ab, a, b),
        is_merge_of(l, ab, c),
        is_merge_of(bc, b, c),
        is_merge_of(r, a, bc),
    ensures
        l@ == r@,
{
    assert forall|d: int| list_count(l@, d) == list_count(r@, d) by {
        lemma_list_count_bounds(a@, d);
        lemma_list_count_bounds(b@, d);
        lemma_list_count_bounds(c@, d);
        lemma_sat_add_assoc(a.count_of(d), b.count_of(d), c.count_of(d));
        assert(l.count_of(d) == sat_add(ab.count_of(d), c.count_of(d)));
        assert(r.count_of(d) == sat_add(a.count_of(d), bc.count_of(d)));
    }
    lemma_canonical_unique(l@, r@);
}

} // verus!

//! The self-hostable paginated-REST variant.
//!
//! Push events of the trailing three-year window are fetched page by page,
//! 100 events per page; an event contributes its push commit count, or 1
//! when the payload lacks one. The network loop runs outside the library:
//! it asks [`GitLabFetch`] which page to request, feeds each decoded page
//! back in, and stops when the machine is done. The machine ends the walk on
//! the first short page and, defensively, after a hard page cap, so the loop
//! terminates even against a misbehaving upstream that never sends a short
//! page.

use vstd::prelude::*;

use crate::date::day_from_timestamp;
use crate::date::day_limit;
use crate::providers::GitProvider;
use crate::providers::ProviderError;
use crate::totals::sat_add;
use crate::totals::DailyCount;
use crate::totals::Totals;

verus! {

pub struct GitLab;

impl GitProvider for GitLab {
    open spec fn name_spec(&self) -> Seq<char> {
        "GitLab"@
    }

    fn get_name(&self) -> (r: String) {
        "GitLab".to_owned()
    }
}

/// Events requested per page.
pub const GITLAB_PER_PAGE: usize = 100;

/// Defensive cap on the number of pages one fetch may request.
pub const GITLAB_MAX_PAGES: u64 = 512;

/// The push payload of an event, when the upstream sends one.
#[derive(Clone, Copy, Debug)]
pub struct GitLabPushData {
    pub commit_count: i64,
}

/// One push event: its creation time as a unix timestamp and its optional
/// push payload.
#[derive(Clone, Copy, Debug)]
pub struct GitLabEvent {
    pub created_at: i64,
    pub push_data: Option<GitLabPushData>,
}

/// What an event contributes to its day: its commit count, or 1 without a
/// push payload.
pub open spec fn event_count(e: GitLabEvent) -> int {
    match e.push_data {
        Some(p) => p.commit_count as int,
        None => 1,
    }
}

/// An event the contract accepts: a timestamp on a supported day and a
/// non-negative contribution.
pub open spec fn event_ok(e: GitLabEvent) -> bool {
    &&& 0 <= e.created_at
    &&& e.created_at as int / 86400 < day_limit()
    &&& event_count(e) >= 0
}

/// Total count an event list contributes to day `d`.
pub open spec fn events_count(es: Seq<GitLabEvent>, d: int) -> int
    decreases es.len(),
{
    if es.len() == 0 {
        0
    } else {
        sat_add(
            events_count(es.drop_last(), d),
            if es.last().created_at as int / 86400 == d {
                event_count(es.last())
            } else {
                0
            },
        )
    }
}

/// The state of one paginated fetch: the next page to request, the counts
/// accumulated so far, and whether the walk has ended.
pub struct GitLabFetch {
    pub page: u64,
    pub acc: Totals,
    pub done: bool,
}

impl GitLabFetch {
    pub open spec fn wf(&self) -> bool {
        self.acc.wf() && 1 <= self.page <= GITLAB_MAX_PAGES + 1
    }

    /// Start a fetch at page 1 with an empty accumulation.
    pub fn new() -> (s: GitLabFetch)
        ensures
            s.wf(),
            s.page == 1,
            !s.done,
            forall|d: int| s.acc.count_of(d) == 0,
    {
        GitLabFetch { page: 1, acc: Totals::new(), done: false }
    }

    /// The page the loop should request next, `None` once the walk is done.
    pub fn wants_page(&self) -> (r: Option<u64>)
        ensures
            r == if self.done {
                Option::<u64>::None
            } else {
                Option::<u64>::Some(self.page)
            },
    {
        if self.done {
            None
        } else {
            Some(self.page)
        }
    }

    /// Fold one fetched page into the accumulation. The walk ends on a short
    /// page (fewer than [`GITLAB_PER_PAGE`] events) and unconditionally once
    /// the page cap is reached. Fails with `ParseFailure` exactly when some
    /// event has an out-of-range timestamp or a negative contribution; a
    /// failure also ends the walk.
    pub fn feed_page(&mut self, events: &Vec<GitLabEvent>) -> (r: Result<(), ProviderError>)
        requires
            old(self).wf(),
            !old(self).done,
            old(self).page <= GITLAB_MAX_PAGES,
        ensures
            final(self).wf(),
            match r {
                Ok(()) => {
                    &&& forall|k: int| 0 <= k < events@.len() ==> event_ok(#[trigger] events@[k])
                    &&& forall|d: int|
                        final(self).acc.count_of(d) == sat_add(
                            old(self).acc.count_of(d),
                            events_count(events@, d),
                        )
                    &&& final(self).page == old(self).page + 1
                    &&& (final(self).done <==> (events@.len() < GITLAB_PER_PAGE || old(
                        self,
                    ).page >= GITLAB_MAX_PAGES))
                },
                Err(e) => {
                    &&& e == ProviderError::ParseFailure
                    &&& final(self).done
                    &&& exists|k: int| 0 <= k < events@.len() && !event_ok(#[trigger] events@[k])
                },
            },
    {
        let ghost acc0 = self.acc;
        proof {
            assert forall|d: int| 0 <= #[trigger] acc0.count_of(d) <= u64::MAX by {
                crate::totals::lemma_list_count_bounds(acc0@, d);
            }
        }
        let mut i: usize = 0;
        while i < events.len()
            invariant
                self.acc.wf(),
                self.page == old(self).page,
                self.done == old(self).done,
                1 <= self.page <= GITLAB_MAX_PAGES,
                i <= events@.len(),
                forall|k: int| 0 <= k < i ==> event_ok(#[trigger] events@[k]),
                forall|d: int|
                    self.acc.count_of(d) == sat_add(
                        acc0.count_of(d),
                        events_count(events@.take(i as int), d),
                    ),
                forall|d: int| 0 <= #[trigger] acc0.count_of(d) <= u64::MAX,
            decreases events@.len() - i,
        {
            let e = events[i];
            let day = match day_from_timestamp(e.created_at) {
                Some(d) => d,
                None => {
                    self.done = true;
                    return Err(ProviderError::ParseFailure);
                },
            };
            let count: u64 = match e.push_data {
                Some(p) => {
                    if p.commit_count < 0 {
                        self.done = true;
                        return Err(ProviderError::ParseFailure);
                    }
                    p.commit_count as u64
                },
                None => 1,
            };
            proof {
                assert(events@.take(i + 1).drop_last() =~= events@.take(i as int));
                assert(events@.take(i + 1).last() == events@[i as int]);
                crate::totals::lemma_list_count_bounds(self.acc@, day as int);
                lemma_events_count_bounds(events@.take(i as int), day as int);
            }
            let ghost before = self.acc;
            self.acc.add(day, count);
            proof {
                assert forall|d: int|
                    self.acc.count_of(d) == sat_add(
                        acc0.count_of(d),
                        events_count(events@.take(i + 1), d),
                    ) by {
                    lemma_events_count_bounds(events@.take(i as int), d);
                    crate::totals::lemma_sat_add_assoc(
                        acc0.count_of(d),
                        events_count(events@.take(i as int), d),
                        if events@[i as int].created_at as int / 86400 == d {
                            event_count(events@[i as int])
                        } else {
                            0
                        },
                    );
                }
            }
            i = i + 1;
        }
        proof {
            assert(events@.take(events@.len() as int) =~= events@);
        }
        let short = events.len() < GITLAB_PER_PAGE;
        let capped = self.page >= GITLAB_MAX_PAGES;
        self.page = self.page + 1;
        self.done = short || capped;
        Ok(())
    }

    /// The accumulated observations, one entry per day seen.
    pub fn finish(self) -> (l: Vec<DailyCount>)
        requires
            self.wf(),
        ensures
            l@ == self.acc@,
    {
        self.acc.to_list()
    }
}

/// Event contributions are bounded by the `u64` range.
pub proof fn lemma_events_count_bounds(es: Seq<GitLabEvent>, d: int)
    requires
        forall|k: int| 0 <= k < es.len() ==> event_ok(#[trigger] es[k]),
    ensures
        0 <= events_count(es, d) <= u64::MAX,
    decreases es.len(),
{
    if es.len() > 0 {
        assert(es.drop_last() =~= es.take(es.len() - 1));
        assert(forall|k: int| 0 <= k < es.drop_last().len() ==> es.drop_last()[k] == es[k]);
        lemma_events_count_bounds(es.drop_last(), d);
    }
}

} // verus!

//! The hosted GraphQL variant.
//!
//! One query against the fixed endpoint returns a year of calendar data as
//! nested weeks of days. The verified logic flattens the calendar into
//! (day, count) observations, skipping zero-count days (the upstream may
//! omit them, so absence and zero mean the same). The HTTP call and JSON
//! decoding happen outside the library and hand the calendar in as plain
//! values, each date as its ten ASCII bytes.

use vstd::prelude::*;

use crate::date::date_bytes_of;
use crate::date::day_limit;
use crate::date::day_of_date_bytes;
use crate::date::is_date_bytes;
use crate::date::lemma_day_of_date_bytes;
use crate::date::parse_date_at;
use crate::providers::GitProvider;
use crate::providers::ProviderError;
use crate::totals::DailyCount;

verus! {

pub struct GitHub;

impl GitProvider for GitHub {
    open spec fn name_spec(&self) -> Seq<char> {
        "GitHub"@
    }

    fn get_name(&self) -> (r: String) {
        "GitHub".to_owned()
    }
}

/// One day of the upstream contribution calendar: its ISO date as bytes and
/// its contribution count.
pub struct ContributionDay {
    pub date: Vec<u8>,
    pub contribution_count: i64,
}

/// One week of the upstream contribution calendar.
pub struct Week {
    pub contribution_days: Vec<ContributionDay>,
}

/// A day the contract accepts: a zero count (skipped unparsed), or a
/// positive count under a canonical in-range date.
pub open spec fn day_ok(cd: ContributionDay) -> bool {
    cd.contribution_count == 0 || (cd.contribution_count > 0 && is_date_bytes(cd.date@))
}

/// The observations one week's days flatten to, zero-count days skipped.
pub open spec fn days_list(ds: Seq<ContributionDay>) -> Seq<DailyCount>
    decreases ds.len(),
{
    if ds.len() == 0 {
        Seq::empty()
    } else if ds.last().contribution_count == 0 {
        days_list(ds.drop_last())
    } else {
        days_list(ds.drop_last()) + seq![
            DailyCount {
                day: day_of_date_bytes(ds.last().date@) as u64,
                count: ds.last().contribution_count as u64,
            },
        ]
    }
}

/// The observations a whole calendar flattens to, week by week.
pub open spec fn weeks_list(ws: Seq<Week>) -> Seq<DailyCount>
    decreases ws.len(),
{
    if ws.len() == 0 {
        Seq::empty()
    } else {
        weeks_list(ws.drop_last()) + days_list(ws.last().contribution_days@)
    }
}

/// Every day of every week is acceptable.
pub open spec fn weeks_ok(ws: Seq<Week>) -> bool {
    forall|w: int, k: int|
        0 <= w < ws.len() && 0 <= k < (#[trigger] ws[w]).contribution_days@.len() ==> day_ok(
            #[trigger] ws[w].contribution_days@[k],
        )
}

impl GitHub {
    /// Flatten a fetched contribution calendar into daily observations,
    /// skipping zero-count days. Fails with `ParseFailure` exactly when some
    /// day carries a negative count, or a nonzero count under a date that is
    /// not a canonical in-range `YYYY-MM-DD`.
    pub fn collect(weeks: &Vec<Week>) -> (r: Result<Vec<DailyCount>, ProviderError>)
        ensures
            match r {
                Ok(l) => weeks_ok(weeks@) && l@ == weeks_list(weeks@),
                Err(e) => e == ProviderError::ParseFailure && !weeks_ok(weeks@),
            },
    {
        let mut out: Vec<DailyCount> = Vec::new();
        let mut w: usize = 0;
        while w < weeks.len()
            invariant
                w <= weeks@.len(),
                out@ == weeks_list(weeks@.take(w as int)),
                forall|a: int, k: int|
                    0 <= a < w && 0 <= k < (#[trigger] weeks@[a]).contribution_days@.len()
                        ==> day_ok(#[trigger] weeks@[a].contribution_days@[k]),
            decreases weeks@.len() - w,
        {
            let week = &weeks[w];
            let ghost ds = week.contribution_days@;
            let mut k: usize = 0;
            while k < week.contribution_days.len()
                invariant
                    w < weeks@.len(),
                    ds == weeks@[w as int].contribution_days@,
                    week.contribution_days@ == ds,
                    k <= ds.len(),
                    out@ == weeks_list(weeks@.take(w as int)) + days_list(ds.take(k as int)),
                    forall|j: int| 0 <= j < k ==> day_ok(#[trigger] ds[j]),
                decreases ds.len() - k,
            {
                let cd = &week.contribution_days[k];
                proof {
                    assert(ds.take(k + 1).drop_last() =~= ds.take(k as int));
                    assert(ds.take(k + 1).last() == ds[k as int]);
                }
                if cd.contribution_count != 0 {
                    if cd.contribution_count < 0 {
                        proof {
                            assert(!day_ok(weeks@[w as int].contribution_days@[k as int]));
                            assert(!weeks_ok(weeks@));
                        }
                        return Err(ProviderError::ParseFailure);
                    }
                    if cd.date.len() != 10 {
                        proof {
                            assert forall|n: int| 0 <= n < day_limit() implies cd.date@
                                != date_bytes_of(n) by {
                                assert(date_bytes_of(n).len() == 10);
                            }
                            assert(!day_ok(weeks@[w as int].contribution_days@[k as int]));
                            assert(!weeks_ok(weeks@));
                        }
                        return Err(ProviderError::ParseFailure);
                    }
                    let day = match parse_date_at(&cd.date, 0) {
                        Some(n) => n,
                        None => {
                            proof {
                                assert forall|n: int|
                                    0 <= n < day_limit() implies cd.date@ != date_bytes_of(
                                    n,
                                ) by {
                                    assert(cd.date@.subrange(0, 10) =~= cd.date@);
                                }
                                assert(!day_ok(weeks@[w as int].contribution_days@[k as int]));
                                assert(!weeks_ok(weeks@));
                            }
                            return Err(ProviderError::ParseFailure);
                        },
                    };
                    proof {
                        assert(cd.date@.subrange(0, 10) =~= cd.date@);
                        lemma_day_of_date_bytes(day as int);
                        assert(day_of_date_bytes(cd.date@) == day as int);
                    }
                    out.push(
                        DailyCount { day, count: cd.contribution_count as u64 },
                    );
                    proof {
                        assert(out@ =~= weeks_list(weeks@.take(w as int)) + days_list(
                            ds.take(k + 1),
                        ));
                    }
                }
                k = k + 1;
            }
            proof {
                assert(ds.take(ds.len() as int) =~= ds);
                assert(weeks@.take(w + 1).drop_last() =~= weeks@.take(w as int));
                assert(weeks@.take(w + 1).last() == weeks@[w as int]);
                assert(out@ =~= weeks_list(weeks@.take(w + 1)));
            }
            w = w + 1;
        }
        proof {
            assert(weeks@.take(weeks@.len() as int) =~= weeks@);
        }
        Ok(out)
    }
}

} // verus!

//! The self-hostable flat-REST variant.
//!
//! One call to its heatmap endpoint returns a flat list of
//! (unix-timestamp, contributions) samples; the verified logic buckets the
//! samples into UTC calendar days by truncating the timestamp and sums
//! samples that fall on the same day. The HTTP call itself happens outside
//! the library and hands the decoded samples in as plain values.

use vstd::prelude::*;

use crate::date::day_from_timestamp;
use crate::date::day_limit;
use crate::providers::GitProvider;
use crate::providers::ProviderError;
use crate::totals::canonical;
use crate::totals::list_count;
use crate::totals::sat_add;
use crate::totals::DailyCount;
use crate::totals::Totals;

verus! {

pub struct ForgeJo;

impl GitProvider for ForgeJo {
    open spec fn name_spec(&self) -> Seq<char> {
        "ForgeJo"@
    }

    fn get_name(&self) -> (r: String) {
        "ForgeJo".to_owned()
    }
}

/// One raw sample from the heatmap endpoint.
#[derive(Clone, Copy, Debug)]
pub struct ForgejoContributions {
    pub timestamp: i64,
    pub contributions: i64,
}

/// A sample the contract accepts: a timestamp on a supported day and a
/// non-negative count.
pub open spec fn sample_ok(s: ForgejoContributions) -> bool {
    &&& 0 <= s.timestamp
    &&& s.timestamp as int / 86400 < day_limit()
    &&& s.contributions >= 0
}

/// Total count a sample list contributes to day `d`.
pub open spec fn samples_count(ss: Seq<ForgejoContributions>, d: int) -> int
    decreases ss.len(),
{
    if ss.len() == 0 {
        0
    } else {
        sat_add(
            samples_count(ss.drop_last(), d),
            if ss.last().timestamp as int / 86400 == d {
                ss.last().contributions as int
            } else {
                0
            },
        )
    }
}

impl ForgeJo {
    /// Bucket raw samples into calendar days (UTC) by truncating each
    /// timestamp, summing same-day samples. Fails with `ParseFailure`
    /// exactly when some sample has an out-of-range timestamp or a negative
    /// count.
    pub fn collect(samples: &Vec<ForgejoContributions>) -> (r: Result<
        Vec<DailyCount>,
        ProviderError,
    >)
        ensures
            match r {
                Ok(l) => {
                    &&& forall|k: int| 0 <= k < samples@.len() ==> sample_ok(#[trigger] samples@[k])
                    &&& canonical(l@)
                    &&& forall|d: int| list_count(l@, d) == samples_count(samples@, d)
                },
                Err(e) => e == ProviderError::ParseFailure && exists|k: int|
                    0 <= k < samples@.len() && !sample_ok(#[trigger] samples@[k]),
            },
    {
        let mut acc = Totals::new();
        let mut i: usize = 0;
        while i < samples.len()
            invariant
                acc.wf(),
                i <= samples@.len(),
                forall|k: int| 0 <= k < i ==> sample_ok(#[trigger] samples@[k]),
                forall|d: int| acc.count_of(d) == samples_count(samples@.take(i as int), d),
            decreases samples@.len() - i,
        {
            let s = samples[i];
            let day = match day_from_timestamp(s.timestamp) {
                Some(d) => d,
                None => {
                    proof {
                        assert(!sample_ok(samples@[i as int]));
                    }
                    return Err(ProviderError::ParseFailure);
                },
            };
            if s.contributions < 0 {
                proof {
                    assert(!sample_ok(samples@[i as int]));
                }
                return Err(ProviderError::ParseFailure);
            }
            proof {
                assert(samples@.take(i + 1).drop_last() =~= samples@.take(i as int));
                assert(samples@.take(i + 1).last() == samples@[i as int]);
            }
            acc.add(day, s.contributions as u64);
            i = i + 1;
        }
        proof {
            assert(samples@.take(samples@.len() as int) =~= samples@);
            assert forall|d: int| list_count(acc@, d) == samples_count(samples@, d) by {
                assert(acc.count_of(d) == samples_count(samples@.take(samples@.len() as int), d));
            }
        }
        Ok(acc.to_list())
    }
}

} // verus!

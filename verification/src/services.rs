//! Aggregation and cache-aside services.
//!
//! The aggregator resolves requested forge names against the registry
//! (case-insensitively; unknown names are skipped, they never fail a batch),
//! the network calls run outside the library, and [`merge_results`] reduces
//! the completed outcomes into one [`Totals`]: successful lists contribute
//! additively, failures contribute nothing. The cache layer stores one
//! encoded entry per user id under `cache:<uid>` with a fixed TTL; en- and
//! decoding live in [`crate::codec`], the cache connection outside the
//! library.

use vstd::prelude::*;
use vstd::string::StringExecFns;

use crate::providers::first_match;
use crate::providers::ProviderError;
use crate::providers::ProviderKind;
use crate::providers::find_provider;
use crate::totals::list_count;
use crate::totals::sat_add;
use crate::totals::DailyCount;
use crate::totals::Totals;

verus! {

/// Seconds a cache entry stays fresh.
pub const CACHE_TTL_SECONDS: u64 = 3600;

/// One requested forge: which provider to query, as whom, with what
/// credential, and (for self-hosted variants) where.
pub struct ForgeRequest {
    pub name: String,
    pub username: String,
    pub token: String,
    pub url: Option<String>,
}

/// The cache key of a user id.
pub open spec fn cache_key_spec(uid: Seq<char>) -> Seq<char> {
    "cache:"@ + uid
}

/// Build the cache key `cache:<uid>`.
pub fn cache_key(uid: &str) -> (r: String)
    ensures
        r@ == cache_key_spec(uid@),
{
    let mut s = "cache:".to_owned();
    s.append(uid);
    s
}

/// The requests that resolve against the registry, in order, each paired
/// with the first provider whose name matches case-insensitively; requests
/// with unknown names are dropped.
pub open spec fn resolve_spec(ps: Seq<ProviderKind>, fs: Seq<ForgeRequest>) -> Seq<
    (ProviderKind, ForgeRequest),
>
    decreases fs.len(),
{
    if fs.len() == 0 {
        Seq::empty()
    } else {
        resolve_spec(ps, fs.drop_last()) + match first_match(ps, fs.last().name@) {
            Some(p) => seq![(p, fs.last())],
            None => Seq::empty(),
        }
    }
}

/// Resolve each request against the registry; unmatched requests are
/// skipped and do not fail the batch.
pub fn resolve_requests(providers: &Vec<ProviderKind>, forges: Vec<ForgeRequest>) -> (matched:
    Vec<(ProviderKind, ForgeRequest)>)
    ensures
        matched@ == resolve_spec(providers@, forges@),
{
    let ghost fs0 = forges@;
    let mut out: Vec<(ProviderKind, ForgeRequest)> = Vec::new();
    let mut rest = forges;
    let n0 = rest.len();
    let mut i: usize = 0;
    while rest.len() > 0
        invariant
            fs0.len() == n0,
            i + rest@.len() == fs0.len(),
            rest@ =~= fs0.skip(i as int),
            out@ == resolve_spec(providers@, fs0.take(i as int)),
        decreases rest@.len(),
    {
        let f = rest.remove(0);
        proof {
            assert(f == fs0[i as int]);
            assert(fs0.take(i + 1).drop_last() =~= fs0.take(i as int));
            assert(fs0.take(i + 1).last() == fs0[i as int]);
        }
        match find_provider(providers, f.name.as_str()) {
            Some(p) => {
                out.push((p, f));
                proof {
                    assert(out@ =~= resolve_spec(providers@, fs0.take(i + 1)));
                }
            },
            None => {},
        }
        proof {
            assert(rest@ =~= fs0.skip(i + 1));
        }
        i = i + 1;
    }
    proof {
        assert(fs0.take(fs0.len() as int) =~= fs0);
    }
    out
}

/// Total count the completed outcomes contribute to day `d`: the saturating
/// sum over the successful lists; failures contribute nothing.
pub open spec fn results_count(
    rs: Seq<Result<Vec<DailyCount>, ProviderError>>,
    d: int,
) -> int
    decreases rs.len(),
{
    if rs.len() == 0 {
        0
    } else {
        sat_add(
            results_count(rs.drop_last(), d),
            match rs.last() {
                Ok(l) => list_count(l@, d),
                Err(_) => 0,
            },
        )
    }
}

/// Contributions of outcomes stay in the `u64` range.
pub proof fn lemma_results_count_bounds(rs: Seq<Result<Vec<DailyCount>, ProviderError>>, d: int)
    ensures
        0 <= results_count(rs, d) <= u64::MAX,
    decreases rs.len(),
{
    if rs.len() > 0 {
        lemma_results_count_bounds(rs.drop_last(), d);
        match rs.last() {
            Ok(l) => {
                crate::totals::lemma_list_count_bounds(l@, d);
            },
            Err(_) => {},
        }
    }
}

/// Reduce the completed provider outcomes into merged totals: for every day,
/// the result counts exactly the (saturating) sum over the successful
/// providers of that provider's count for the day; failed providers are
/// absent from the sum.
pub fn merge_results(results: &Vec<Result<Vec<DailyCount>, ProviderError>>) -> (t: Totals)
    ensures
        t.wf(),
        forall|d: int| t.count_of(d) == results_count(results@, d),
{
    let mut t = Totals::new();
    let mut i: usize = 0;
    while i < results.len()
        invariant
            t.wf(),
            i <= results@.len(),
            forall|d: int| t.count_of(d) == results_count(results@.take(i as int), d),
        decreases results@.len() - i,
    {
        proof {
            assert(results@.take(i + 1).drop_last() =~= results@.take(i as int));
            assert(results@.take(i + 1).last() == results@[i as int]);
        }
        match &results[i] {
            Ok(list) => {
                let ghost r0 = t;
                let ghost l = list@;
                proof {
                    assert forall|d: int| 0 <= #[trigger] r0.count_of(d) <= u64::MAX by {
                        crate::totals::lemma_list_count_bounds(r0@, d);
                    }
                }
                let mut j: usize = 0;
                while j < list.len()
                    invariant
                        t.wf(),
                        j <= l.len(),
                        l == list@,
                        forall|d: int| 0 <= #[trigger] r0.count_of(d) <= u64::MAX,
                        forall|d: int|
                            t.count_of(d) == sat_add(
                                r0.count_of(d),
                                list_count(l.take(j as int), d),
                            ),
                    decreases l.len() - j,
                {
                    let e = list[j];
                    proof {
                        assert(l.take(j + 1).drop_last() =~= l.take(j as int));
                        assert(l.take(j + 1).last() == l[j as int]);
                    }
                    t.add(e.day, e.count);
                    proof {
                        assert forall|d: int|
                            t.count_of(d) == sat_add(
                                r0.count_of(d),
                                list_count(l.take(j + 1), d),
                            ) by {
                            crate::totals::lemma_list_count_bounds(l.take(j as int), d);
                            crate::totals::lemma_sat_add_assoc(
                                r0.count_of(d),
                                list_count(l.take(j as int), d),
                                if l[j as int].day == d {
                                    l[j as int].count as int
                                } else {
                                    0
                                },
                            );
                        }
                    }
                    j = j + 1;
                }
                proof {
                    assert(l.take(l.len() as int) =~= l);
                }
            },
            Err(_) => {
                proof {
                    assert forall|d: int|
                        t.count_of(d) == results_count(results@.take(i + 1), d) by {
                        lemma_results_count_bounds(results@.take(i as int), d);
                    }
                }
            },
        }
        i = i + 1;
    }
    proof {
        assert(results@.take(results@.len() as int) =~= results@);
    }
    t
}

/// Intensity level of a day cell, as a function of the day's count and the
/// global maximum count: 0 for no activity (or an empty history), else one
/// of 1..=4 by which quarter of the maximum the count falls into.
pub open spec fn level_spec(count: int, max: int) -> int {
    if count == 0 {
        0
    } else if max <= 0 {
        0
    } else if 4 * count <= max {
        1
    } else if 2 * count <= max {
        2
    } else if 4 * count <= 3 * max {
        3
    } else {
        4
    }
}

/// Quantize a single day's `count` against the global maximum `max`.
///
/// `count / max <= 1/4` gives level 1, `<= 1/2` level 2, `<= 3/4` level 3,
/// anything above level 4; a zero count or an empty history gives level 0.
pub fn calculate_level(count: u64, max: u64) -> (r: u8)
    ensures
        r as int == level_spec(count as int, max as int),
        0 <= r <= 4,
{
    if count == 0 {
        0
    } else if max == 0 {
        0
    } else if 4 * (count as u128) <= max as u128 {
        1
    } else if 2 * (count as u128) <= max as u128 {
        2
    } else if 4 * (count as u128) <= 3 * (max as u128) {
        3
    } else {
        4
    }
}

} // verus!

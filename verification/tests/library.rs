use forge_heatmap::codec::{cache_round_trip, decode_totals, encode_totals};
use forge_heatmap::date::{
    civil_from_days, date_bytes, day_from_timestamp, days_from_civil, months_back_36,
    parse_date_at, weekday_from_sunday, CivilDate,
};
use forge_heatmap::heatmap::{build_heatmap, clamp_today};
use forge_heatmap::providers::forgejo::{ForgeJo, ForgejoContributions};
use forge_heatmap::providers::github::{ContributionDay, GitHub, Week};
use forge_heatmap::providers::gitlab::{GitLab, GitLabEvent, GitLabFetch, GitLabPushData};
use forge_heatmap::providers::{
    check_base_url, find_provider, names_match, GitProvider, ProviderError, ProviderKind,
};
use forge_heatmap::services::{
    cache_key, calculate_level, merge_results, resolve_requests, ForgeRequest, CACHE_TTL_SECONDS,
};
use forge_heatmap::state::AppState;
use forge_heatmap::totals::{merge, DailyCount, Totals};

// Day numbers (days since 1970-01-01) used throughout.
const D_2024_01_01: u64 = 19723;
const D_2024_01_02: u64 = 19724;
const D_2024_06_15: u64 = 19889;

fn totals_of(pairs: &[(u64, u64)]) -> Totals {
    let mut t = Totals::new();
    for (d, c) in pairs {
        t.add(*d, *c);
    }
    t
}

#[test]
fn level_zero_count_is_zero() {
    assert_eq!(calculate_level(0, 5), 0);
    assert_eq!(calculate_level(0, 0), 0);
}

#[test]
fn level_zero_max_is_zero() {
    assert_eq!(calculate_level(3, 0), 0);
    assert_eq!(calculate_level(1, 0), 0);
}

#[test]
fn level_max_on_max_is_four() {
    assert_eq!(calculate_level(7, 7), 4);
    assert_eq!(calculate_level(1, 1), 4);
}

#[test]
fn level_scenario_quarters() {
    // totals {2024-01-01: 5, 2024-01-02: 10}, global max 10
    assert_eq!(calculate_level(5, 10), 2);
    assert_eq!(calculate_level(10, 10), 4);
    assert_eq!(calculate_level(2, 10), 1);
    assert_eq!(calculate_level(7, 10), 3);
    assert_eq!(calculate_level(8, 10), 4);
}

#[test]
fn civil_epoch() {
    let c = civil_from_days(0).unwrap();
    assert_eq!((c.year, c.month, c.day), (1970, 1, 1));
    assert_eq!(weekday_from_sunday(0), 4); // a Thursday
}

#[test]
fn civil_round_trip() {
    for day in [0u64, 59, 365, 19723, 19782, 2932896] {
        let c = civil_from_days(day).unwrap();
        assert_eq!(days_from_civil(c), day);
    }
    assert_eq!(civil_from_days(2932897), None); // past 9999-12-31
}

#[test]
fn civil_leap_day() {
    let c = civil_from_days(19782).unwrap();
    assert_eq!((c.year, c.month, c.day), (2024, 2, 29));
}

#[test]
fn date_formatting() {
    assert_eq!(date_bytes(D_2024_01_01), b"2024-01-01".to_vec());
    assert_eq!(date_bytes(0), b"1970-01-01".to_vec());
}

#[test]
fn date_parsing() {
    assert_eq!(parse_date_at(&b"2024-01-01".to_vec(), 0), Some(D_2024_01_01));
    assert_eq!(parse_date_at(&b"1970-01-01".to_vec(), 0), Some(0));
    assert_eq!(parse_date_at(&b"2024-13-01".to_vec(), 0), None);
    assert_eq!(parse_date_at(&b"2024-02-30".to_vec(), 0), None);
    assert_eq!(parse_date_at(&b"2024/01/01".to_vec(), 0), None);
    assert_eq!(parse_date_at(&b"1969-12-31".to_vec(), 0), None);
}

#[test]
fn timestamp_bucketing() {
    assert_eq!(day_from_timestamp(0), Some(0));
    assert_eq!(day_from_timestamp(86399), Some(0));
    assert_eq!(day_from_timestamp(86400), Some(1));
    assert_eq!(day_from_timestamp(-1), None);
}

#[test]
fn three_year_window_clamps_leap_day() {
    // 2024-02-29 minus 36 months lands on 2021-02-28
    let from = days_from_civil(CivilDate { year: 2024, month: 2, day: 29 });
    let expect = days_from_civil(CivilDate { year: 2021, month: 2, day: 28 });
    assert_eq!(months_back_36(from), expect);
}

#[test]
fn totals_accumulate_and_lookup() {
    let t = totals_of(&[(D_2024_01_01, 5), (D_2024_01_02, 10), (D_2024_01_01, 2)]);
    assert_eq!(t.get(D_2024_01_01), 7);
    assert_eq!(t.get(D_2024_01_02), 10);
    assert_eq!(t.get(12345), 0);
    assert_eq!(t.max_count(), 10);
}

#[test]
fn totals_addition_saturates() {
    let mut t = Totals::new();
    t.add(1, u64::MAX);
    t.add(1, 5);
    assert_eq!(t.get(1), u64::MAX);
}

#[test]
fn merge_is_commutative_on_values() {
    let a = totals_of(&[(1, 2), (5, 7)]);
    let b = totals_of(&[(1, 3), (9, 1)]);
    let ab = merge(&a, &b);
    let ba = merge(&b, &a);
    assert_eq!(ab.to_list(), ba.to_list());
    assert_eq!(ab.get(1), 5);
    assert_eq!(ab.get(5), 7);
    assert_eq!(ab.get(9), 1);
}

#[test]
fn merge_is_associative_on_values() {
    let a = totals_of(&[(1, 2)]);
    let b = totals_of(&[(1, 3), (2, 1)]);
    let c = totals_of(&[(2, 4), (3, 9)]);
    let l = merge(&merge(&a, &b), &c);
    let r = merge(&a, &merge(&b, &c));
    assert_eq!(l.to_list(), r.to_list());
}

#[test]
fn merge_results_sums_per_date() {
    let results: Vec<Result<Vec<DailyCount>, ProviderError>> = vec![
        Ok(vec![
            DailyCount { day: D_2024_01_01, count: 5 },
            DailyCount { day: D_2024_01_02, count: 1 },
        ]),
        Ok(vec![
            DailyCount { day: D_2024_01_02, count: 9 },
        ]),
    ];
    let t = merge_results(&results);
    assert_eq!(t.get(D_2024_01_01), 5);
    assert_eq!(t.get(D_2024_01_02), 10);
}

#[test]
fn merge_results_isolates_failures() {
    // one provider fails with a network error, a second succeeds: the result
    // is exactly the successful provider's output
    let ok_list = vec![
        DailyCount { day: D_2024_01_01, count: 5 },
        DailyCount { day: D_2024_01_02, count: 10 },
    ];
    let results: Vec<Result<Vec<DailyCount>, ProviderError>> = vec![
        Err(ProviderError::NetworkFailure),
        Ok(ok_list.clone()),
        Err(ProviderError::AuthFailure),
        Err(ProviderError::ParseFailure),
        Err(ProviderError::MissingBaseUrl),
    ];
    let t = merge_results(&results);
    let only = merge_results(&vec![Ok(ok_list)]);
    assert_eq!(t.to_list(), only.to_list());
    assert_eq!(t.get(D_2024_01_01), 5);
    assert_eq!(t.get(D_2024_01_02), 10);
}

#[test]
fn merge_results_all_failed_is_empty() {
    let results: Vec<Result<Vec<DailyCount>, ProviderError>> =
        vec![Err(ProviderError::NetworkFailure), Err(ProviderError::CacheUnavailable)];
    let t = merge_results(&results);
    assert_eq!(t.to_list(), vec![]);
}

#[test]
fn names_match_ignores_ascii_case() {
    assert!(names_match("github", "GitHub"));
    assert!(names_match("GITLAB", "GitLab"));
    assert!(names_match("forgejo", "ForgeJo"));
    assert!(!names_match("gitlab", "GitHub"));
    assert!(!names_match("github ", "GitHub"));
    assert!(!names_match("gïthub", "GitHub"));
}

#[test]
fn find_provider_resolves_case_insensitively() {
    let state = AppState::new();
    assert_eq!(find_provider(&state.providers, "GITHUB"), Some(ProviderKind::GitHub));
    assert_eq!(find_provider(&state.providers, "gitlab"), Some(ProviderKind::GitLab));
    assert_eq!(find_provider(&state.providers, "bitbucket"), None);
}

#[test]
fn provider_names() {
    assert_eq!(GitHub.get_name(), "GitHub");
    assert_eq!(GitLab.get_name(), "GitLab");
    assert_eq!(ForgeJo.get_name(), "ForgeJo");
    let names: Vec<String> =
        AppState::new().providers.iter().map(|p| p.get_name()).collect();
    assert_eq!(names, vec!["GitHub", "GitLab", "ForgeJo"]);
}

fn req(name: &str) -> ForgeRequest {
    ForgeRequest {
        name: name.to_string(),
        username: "alice".to_string(),
        token: "SECRET-REDACTED".to_string(),
        url: None,
    }
}

#[test]
fn unknown_provider_is_skipped() {
    let state = AppState::new();
    let forges = vec![req("github"), req("sourcehut"), req("FORGEJO")];
    let matched = resolve_requests(&state.providers, forges);
    assert_eq!(matched.len(), 2);
    assert_eq!(matched[0].0, ProviderKind::GitHub);
    assert_eq!(matched[0].1.name, "github");
    assert_eq!(matched[1].0, ProviderKind::ForgeJo);
    assert_eq!(matched[1].1.name, "FORGEJO");
}

#[test]
fn base_url_requirements() {
    assert_eq!(check_base_url(&ProviderKind::GitHub, &None), Ok(()));
    assert_eq!(
        check_base_url(&ProviderKind::GitLab, &None),
        Err(ProviderError::MissingBaseUrl)
    );
    assert_eq!(
        check_base_url(&ProviderKind::ForgeJo, &None),
        Err(ProviderError::MissingBaseUrl)
    );
    let url = Some("https://git.example.org".to_string());
    assert_eq!(check_base_url(&ProviderKind::GitLab, &url), Ok(()));
}

#[test]
fn github_collect_flattens_and_skips_zero_days() {
    let weeks = vec![
        Week {
            contribution_days: vec![
                ContributionDay { date: b"2024-01-01".to_vec(), contribution_count: 5 },
                ContributionDay { date: b"2024-01-02".to_vec(), contribution_count: 0 },
            ],
        },
        Week {
            contribution_days: vec![ContributionDay {
                date: b"2024-01-03".to_vec(),
                contribution_count: 2,
            }],
        },
    ];
    let out = GitHub::collect(&weeks).unwrap();
    assert_eq!(
        out,
        vec![
            DailyCount { day: D_2024_01_01, count: 5 },
            DailyCount { day: D_2024_01_01 + 2, count: 2 },
        ]
    );
}

#[test]
fn github_collect_rejects_bad_days() {
    let bad_date = vec![Week {
        contribution_days: vec![ContributionDay {
            date: b"not-a-date!".to_vec(),
            contribution_count: 1,
        }],
    }];
    assert_eq!(GitHub::collect(&bad_date), Err(ProviderError::ParseFailure));
    let negative = vec![Week {
        contribution_days: vec![ContributionDay {
            date: b"2024-01-01".to_vec(),
            contribution_count: -3,
        }],
    }];
    assert_eq!(GitHub::collect(&negative), Err(ProviderError::ParseFailure));
    // a zero-count day is skipped before its date is looked at
    let zero_bad = vec![Week {
        contribution_days: vec![ContributionDay {
            date: b"nonsense".to_vec(),
            contribution_count: 0,
        }],
    }];
    assert_eq!(GitHub::collect(&zero_bad), Ok(vec![]));
}

#[test]
fn forgejo_collect_buckets_by_utc_day() {
    let samples = vec![
        ForgejoContributions { timestamp: 86400 * D_2024_01_01 as i64 + 10, contributions: 3 },
        ForgejoContributions { timestamp: 86400 * D_2024_01_01 as i64 + 7000, contributions: 4 },
        ForgejoContributions { timestamp: 86400 * D_2024_01_02 as i64, contributions: 1 },
    ];
    let out = ForgeJo::collect(&samples).unwrap();
    assert_eq!(
        out,
        vec![
            DailyCount { day: D_2024_01_01, count: 7 },
            DailyCount { day: D_2024_01_02, count: 1 },
        ]
    );
}

#[test]
fn forgejo_collect_rejects_bad_samples() {
    let bad_ts = vec![ForgejoContributions { timestamp: -5, contributions: 1 }];
    assert_eq!(ForgeJo::collect(&bad_ts), Err(ProviderError::ParseFailure));
    let negative = vec![ForgejoContributions { timestamp: 1000, contributions: -1 }];
    assert_eq!(ForgeJo::collect(&negative), Err(ProviderError::ParseFailure));
}

fn push_event(day: u64, commits: Option<i64>) -> GitLabEvent {
    GitLabEvent {
        created_at: 86400 * day as i64 + 3600,
        push_data: commits.map(|c| GitLabPushData { commit_count: c }),
    }
}

#[test]
fn gitlab_pagination_stops_on_short_page() {
    // 250 events over pages of 100, 100, 50: exactly 3 requests
    let mut fetch = GitLabFetch::new();
    let mut calls = 0;
    for page_len in [100usize, 100, 50] {
        let page_no = fetch.wants_page().expect("fetch ended early");
        calls += 1;
        assert_eq!(page_no, calls);
        let events: Vec<GitLabEvent> =
            (0..page_len).map(|i| push_event(D_2024_01_01 + (i % 3) as u64, Some(1))).collect();
        fetch.feed_page(&events).unwrap();
    }
    assert_eq!(calls, 3);
    assert_eq!(fetch.wants_page(), None);
    let out = fetch.finish();
    let total: u64 = out.iter().map(|e| e.count).sum();
    assert_eq!(total, 250);
}

#[test]
fn gitlab_event_without_push_data_counts_one() {
    let mut fetch = GitLabFetch::new();
    fetch.feed_page(&vec![push_event(D_2024_01_01, None), push_event(D_2024_01_01, Some(4))])
        .unwrap();
    assert_eq!(fetch.wants_page(), None);
    let out = fetch.finish();
    assert_eq!(out, vec![DailyCount { day: D_2024_01_01, count: 5 }]);
}

#[test]
fn gitlab_rejects_bad_events() {
    let mut fetch = GitLabFetch::new();
    let r = fetch.feed_page(&vec![push_event(D_2024_01_01, Some(-2))]);
    assert_eq!(r, Err(ProviderError::ParseFailure));
    assert_eq!(fetch.wants_page(), None);
}

#[test]
fn cache_key_format() {
    assert_eq!(cache_key("alice"), "cache:alice");
    assert_eq!(cache_key(""), "cache:");
    assert_eq!(CACHE_TTL_SECONDS, 3600);
}

#[test]
fn encode_produces_canonical_json() {
    let t = totals_of(&[(D_2024_01_02, 10), (D_2024_01_01, 5)]);
    let b = encode_totals(&t).unwrap();
    assert_eq!(b, b"{\"2024-01-01\":5,\"2024-01-02\":10}".to_vec());
    let empty = encode_totals(&Totals::new()).unwrap();
    assert_eq!(empty, b"{}".to_vec());
}

#[test]
fn decode_accepts_what_encode_wrote() {
    let t = totals_of(&[(D_2024_01_01, 5), (D_2024_01_02, 10), (0, 1)]);
    let b = encode_totals(&t).unwrap();
    let u = decode_totals(&b).unwrap();
    assert_eq!(u.to_list(), t.to_list());
    let rt = cache_round_trip(&t).unwrap();
    assert_eq!(rt.to_list(), t.to_list());
}

#[test]
fn decode_reads_counts_and_dates() {
    let u = decode_totals(&b"{\"2024-01-01\":5}".to_vec()).unwrap();
    assert_eq!(u.get(D_2024_01_01), 5);
    assert_eq!(u.get(D_2024_01_02), 0);
    let empty = decode_totals(&b"{}".to_vec()).unwrap();
    assert_eq!(empty.to_list(), vec![]);
}

#[test]
fn decode_rejects_malformed_entries() {
    for bad in [
        &b""[..],
        b"{",
        b"[]",
        b"{\"2024-01-01\":5",
        b"{\"2024-01-01\":5,}",
        b"{ \"2024-01-01\":5}",
        b"{\"2024-01-01\": 5}",
        b"{\"2024-01-01\":05}",
        b"{\"2024-01-01\":0}",
        b"{\"2024-01-01\":-5}",
        b"{\"2024-13-01\":5}",
        b"{\"2024-01-02\":1,\"2024-01-01\":5}",
        b"{\"2024-01-01\":1,\"2024-01-01\":5}",
        b"{\"2024-01-01\":99999999999999999999999}",
    ] {
        assert!(decode_totals(&bad.to_vec()).is_none(), "accepted: {:?}", bad);
    }
}

#[test]
fn heatmap_grid_shape() {
    // 2024-06-15, a Saturday
    let t = totals_of(&[(D_2024_01_01, 5), (D_2024_01_02, 10)]);
    let weeks = build_heatmap(&t, D_2024_06_15);
    assert_eq!(weeks.len(), 53);
    for w in &weeks {
        assert_eq!(w.days.len(), 7);
    }
    // the grid starts on the Sunday on or before 52 weeks earlier
    let first = &weeks[0].days[0];
    let first_day = parse_date_at(&first.date.as_bytes().to_vec(), 0).unwrap();
    assert_eq!(weekday_from_sunday(first_day), 0);
    assert_eq!(first.date, "2023-06-11");
    // consecutive dates, one per cell
    let second = &weeks[0].days[1];
    assert_eq!(second.date, "2023-06-12");
    // the final week is padded past today and ends on a Saturday
    let last = weeks.last().unwrap().days.last().unwrap();
    let last_day = parse_date_at(&last.date.as_bytes().to_vec(), 0).unwrap();
    assert_eq!(weekday_from_sunday(last_day), 6);
    assert!(last_day >= D_2024_06_15);
}

#[test]
fn heatmap_levels_scenario() {
    // totals {2024-01-01: 5, 2024-01-02: 10}, global max 10
    let t = totals_of(&[(D_2024_01_01, 5), (D_2024_01_02, 10)]);
    let weeks = build_heatmap(&t, D_2024_06_15);
    let mut seen = 0;
    for w in &weeks {
        for cell in &w.days {
            match cell.date.as_str() {
                "2024-01-01" => {
                    assert_eq!(cell.count, 5);
                    assert_eq!(cell.level, 2);
                    seen += 1;
                }
                "2024-01-02" => {
                    assert_eq!(cell.count, 10);
                    assert_eq!(cell.level, 4);
                    seen += 1;
                }
                _ => {
                    assert_eq!(cell.count, 0);
                    assert_eq!(cell.level, 0);
                }
            }
        }
    }
    assert_eq!(seen, 2);
}

#[test]
fn empty_history_gives_all_zero_heatmap() {
    let weeks = build_heatmap(&Totals::new(), D_2024_06_15);
    assert_eq!(weeks.len(), 53);
    for w in &weeks {
        for cell in &w.days {
            assert_eq!(cell.count, 0);
            assert_eq!(cell.level, 0);
        }
    }
}

#[test]
fn clock_clamping() {
    assert_eq!(clamp_today(Some(86400 * D_2024_01_01 + 7200)), D_2024_01_01);
    assert_eq!(clamp_today(Some(0)), 400);
    assert_eq!(clamp_today(Some(u64::MAX)), 2_900_000);
    assert_eq!(clamp_today(None), 400);
}

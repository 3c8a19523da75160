//! The cache wire format.
//!
//! A cache entry is a JSON object mapping ISO date strings to integer
//! counts, in canonical form: entries in ascending date order, counts as
//! plain decimal numerals without leading zeros, no whitespace, as in
//! `{"2024-01-01":5,"2024-01-02":10}`. [`encode_totals`] produces exactly
//! this form and [`decode_totals`] accepts exactly this form, so a decoded
//! entry is always precisely the history that was stored, and a malformed
//! or foreign entry falls back to recomputation.

use vstd::prelude::*;

use crate::date::civil_from_days;
use crate::date::date_bytes_civil;
use crate::date::date_bytes_of;
use crate::date::day_limit;
use crate::date::digit_byte;
use crate::date::is_digit_byte;
use crate::date::lemma_civil_of_unique;
use crate::date::parse_date_at;
use crate::totals::canonical;
use crate::totals::DailyCount;
use crate::totals::Totals;

verus! {

/// The decimal digits of `n`, most significant first (empty for 0).
pub open spec fn u64_digits(n: int) -> Seq<u8>
    decreases n,
{
    if n <= 0 {
        Seq::empty()
    } else {
        u64_digits(n / 10) + seq![digit_byte(n % 10)]
    }
}

/// The canonical numeral of a count (`0` gets a single zero digit).
pub open spec fn count_bytes(n: int) -> Seq<u8> {
    if n <= 0 {
        seq![48u8]
    } else {
        u64_digits(n)
    }
}

/// One encoded entry: `"YYYY-MM-DD":count`.
pub open spec fn entry_bytes(e: DailyCount) -> Seq<u8> {
    seq![34u8] + date_bytes_of(e.day as int) + seq![34u8, 58u8] + count_bytes(e.count as int)
}

/// The encoded entry list, comma-separated.
pub open spec fn entries_bytes(s: Seq<DailyCount>) -> Seq<u8>
    decreases s.len(),
{
    if s.len() == 0 {
        Seq::empty()
    } else if s.len() == 1 {
        entry_bytes(s[0])
    } else {
        entries_bytes(s.drop_last()) + seq![44u8] + entry_bytes(s.last())
    }
}

/// The canonical encoding of a history.
pub open spec fn encode_spec(s: Seq<DailyCount>) -> Seq<u8> {
    seq![123u8] + entries_bytes(s) + seq![125u8]
}

/// Every day of the list lies in the supported date range.
pub open spec fn days_in_range(s: Seq<DailyCount>) -> bool {
    forall|k: int| 0 <= k < s.len() ==> ((#[trigger] s[k]).day as int) < day_limit()
}

/// The number a digit string denotes, most significant digit first.
pub open spec fn val_of_digits(ds: Seq<u8>) -> int
    decreases ds.len(),
{
    if ds.len() == 0 {
        0
    } else {
        val_of_digits(ds.drop_last()) * 10 + (ds.last() - 48)
    }
}

/// The digits of a number are decimal digit bytes, and nonzero numbers do
/// not start with a zero digit.
pub proof fn lemma_u64_digits_shape(n: int)
    requires
        n >= 0,
    ensures
        forall|i: int| 0 <= i < u64_digits(n).len() ==> is_digit_byte(#[trigger] u64_digits(n)[i]),
        n > 0 ==> u64_digits(n).len() >= 1 && u64_digits(n)[0] != 48,
        n == 0 ==> u64_digits(n).len() == 0,
    decreases n,
{
    if n > 0 {
        lemma_u64_digits_shape(n / 10);
        let pre = u64_digits(n / 10);
        let w = u64_digits(n);
        assert(w == pre + seq![digit_byte(n % 10)]);
        if n / 10 == 0 {
            assert(w.len() == 1);
            assert(w[0] == digit_byte(n % 10));
            assert(n % 10 == n);
        }
    }
}

/// Reading the digits of `n` back gives `n`.
pub proof fn lemma_val_of_u64_digits(n: int)
    requires
        n >= 0,
    ensures
        val_of_digits(u64_digits(n)) == n,
    decreases n,
{
    if n > 0 {
        lemma_val_of_u64_digits(n / 10);
        let pre = u64_digits(n / 10);
        let w = u64_digits(n);
        assert(w.drop_last() =~= pre);
        assert(w.last() == digit_byte(n % 10));
    }
}

/// Reading a canonical numeral back gives its value.
pub proof fn lemma_val_of_count_bytes(n: int)
    requires
        n >= 0,
    ensures
        val_of_digits(count_bytes(n)) == n,
{
    if n == 0 {
        let ds = count_bytes(0);
        assert(ds == seq![48u8]);
        assert(ds.len() == 1);
        assert(ds.last() == 48u8);
        assert(ds.drop_last() =~= Seq::<u8>::empty());
        assert(val_of_digits(ds.drop_last()) == 0);
        assert(val_of_digits(ds) == val_of_digits(ds.drop_last()) * 10 + (ds.last() - 48));
    } else {
        lemma_val_of_u64_digits(n);
    }
}

/// A canonical numeral: digit bytes, at least one, no leading zero unless
/// it is the single digit `0`.
pub open spec fn canonical_digits(ds: Seq<u8>) -> bool {
    &&& ds.len() >= 1
    &&& forall|i: int| 0 <= i < ds.len() ==> is_digit_byte(#[trigger] ds[i])
    &&& (ds[0] != 48 || ds.len() == 1)
}

/// The shape facts of a count's numeral, in canonical-digits form.
pub proof fn lemma_count_bytes_shape(n: int)
    requires
        n >= 0,
    ensures
        canonical_digits(count_bytes(n)),
{
    lemma_u64_digits_shape(n);
}

/// A positive leading digit makes a positive value.
proof fn lemma_val_of_digits_positive(ds: Seq<u8>)
    requires
        ds.len() >= 1,
        forall|i: int| 0 <= i < ds.len() ==> is_digit_byte(#[trigger] ds[i]),
        ds[0] != 48,
    ensures
        val_of_digits(ds) >= 1,
        val_of_digits(ds) >= val_of_digits(ds.drop_last()),
    decreases ds.len(),
{
    if ds.len() == 1 {
        assert(ds.drop_last() =~= Seq::<u8>::empty());
    } else {
        assert(forall|i: int|
            0 <= i < ds.drop_last().len() ==> ds.drop_last()[i] == ds[i]);
        lemma_val_of_digits_positive(ds.drop_last());
    }
}

/// Digit strings denote values monotonically in their prefixes.
pub proof fn lemma_val_of_digits_prefix(ds: Seq<u8>, i: int)
    requires
        0 <= i <= ds.len(),
        forall|k: int| 0 <= k < ds.len() ==> is_digit_byte(#[trigger] ds[k]),
    ensures
        0 <= val_of_digits(ds.take(i)) <= val_of_digits(ds),
    decreases ds.len() - i,
{
    if i == ds.len() {
        assert(ds.take(i) =~= ds);
        lemma_val_of_digits_nonneg(ds);
    } else {
        lemma_val_of_digits_prefix(ds, i + 1);
        assert(ds.take(i + 1).drop_last() =~= ds.take(i));
        assert(ds.take(i + 1).last() == ds[i]);
        lemma_val_of_digits_nonneg(ds.take(i));
    }
}

proof fn lemma_val_of_digits_nonneg(ds: Seq<u8>)
    requires
        forall|k: int| 0 <= k < ds.len() ==> is_digit_byte(#[trigger] ds[k]),
    ensures
        val_of_digits(ds) >= 0,
    decreases ds.len(),
{
    if ds.len() > 0 {
        assert(forall|k: int|
            0 <= k < ds.drop_last().len() ==> ds.drop_last()[k] == ds[k]);
        lemma_val_of_digits_nonneg(ds.drop_last());
    }
}

/// A canonical digit string is the numeral of its value.
pub proof fn lemma_digits_canonical(ds: Seq<u8>)
    requires
        canonical_digits(ds),
    ensures
        ds == count_bytes(val_of_digits(ds)),
    decreases ds.len(),
{
    lemma_val_of_digits_nonneg(ds);
    if ds.len() == 1 {
        let v = val_of_digits(ds);
        assert(ds.drop_last() =~= Seq::<u8>::empty());
        assert(val_of_digits(ds.drop_last()) == 0);
        assert(ds.last() == ds[0]);
        assert(v == ds[0] - 48);
        if v > 0 {
            assert(u64_digits(v) == u64_digits(0) + seq![digit_byte(v)]);
            assert(u64_digits(v) =~= seq![digit_byte(v)]);
            assert(ds =~= count_bytes(v));
        } else {
            assert(ds =~= seq![48u8]);
        }
    } else {
        let pre = ds.drop_last();
        assert(forall|k: int| 0 <= k < pre.len() ==> pre[k] == ds[k]);
        lemma_digits_canonical(pre);
        lemma_val_of_digits_positive(pre);
        let v = val_of_digits(ds);
        let w = val_of_digits(pre);
        assert(v == w * 10 + (ds.last() - 48));
        assert(v / 10 == w && v % 10 == ds.last() - 48) by (nonlinear_arith)
            requires
                v == w * 10 + (ds.last() - 48),
                0 <= ds.last() - 48 < 10,
                w >= 1,
        ;
        assert(count_bytes(v) == u64_digits(v));
        assert(u64_digits(v) == u64_digits(w) + seq![digit_byte(v % 10)]);
        assert(count_bytes(w) == u64_digits(w));
        assert(ds =~= pre + seq![ds.last()]);
        assert(digit_byte(v % 10) == ds.last());
    }
}

/// Bytes of the entry list from entry `k` on, with the comma that separates
/// it from entry `k - 1` when there is one.
pub open spec fn tail_bytes(s: Seq<DailyCount>, k: int) -> Seq<u8>
    decreases s.len() - k,
{
    if k < 0 || k >= s.len() {
        Seq::empty()
    } else {
        (if k > 0 {
            seq![44u8]
        } else {
            Seq::empty()
        }) + entry_bytes(s[k]) + tail_bytes(s, k + 1)
    }
}

/// The entry list splits at any position into the encoded prefix and the
/// tail from that entry on.
pub proof fn lemma_entries_split(s: Seq<DailyCount>, k: int)
    requires
        0 <= k <= s.len(),
    ensures
        entries_bytes(s) == entries_bytes(s.take(k)) + tail_bytes(s, k),
    decreases s.len() - k,
{
    if k == s.len() {
        assert(s.take(k) =~= s);
        assert(entries_bytes(s) =~= entries_bytes(s.take(k)) + tail_bytes(s, k));
    } else {
        lemma_entries_split(s, k + 1);
        let t1 = s.take(k + 1);
        assert(t1.drop_last() =~= s.take(k));
        assert(t1.last() == s[k]);
        if k == 0 {
            assert(entries_bytes(t1) == entry_bytes(s[0]));
            assert(entries_bytes(s.take(0)) =~= Seq::<u8>::empty());
        }
        assert(entries_bytes(s) =~= entries_bytes(s.take(k)) + tail_bytes(s, k));
    }
}

/// Shape of one encoded entry: quote, ten date bytes, quote, colon, then the
/// canonical numeral.
pub proof fn lemma_entry_shape(e: DailyCount)
    requires
        (e.day as int) < day_limit(),
    ensures
        ({
            let b = entry_bytes(e);
            let cb = count_bytes(e.count as int);
            &&& b.len() == 13 + cb.len()
            &&& b.len() >= 14
            &&& b[0] == 34u8
            &&& b.subrange(1, 11) == date_bytes_of(e.day as int)
            &&& b[11] == 34u8
            &&& b[12] == 58u8
            &&& b.subrange(13, b.len() as int) == cb
            &&& canonical_digits(cb)
            &&& forall|i: int| 13 <= i < b.len() ==> is_digit_byte(#[trigger] b[i])
        }),
{
    let b = entry_bytes(e);
    let cb = count_bytes(e.count as int);
    lemma_count_bytes_shape(e.count as int);
    assert(date_bytes_of(e.day as int).len() == 10);
    assert(b.subrange(1, 11) =~= date_bytes_of(e.day as int));
    assert(b.subrange(13, b.len() as int) =~= cb);
    assert forall|i: int| 13 <= i < b.len() implies is_digit_byte(b[i]) by {
        assert(b[i] == cb[i - 13]);
    }
}

/// At one position of a byte string there is at most one encoded entry with
/// a non-digit (or end) boundary: the date is fixed-width and the numeral
/// runs to the first non-digit.
pub proof fn lemma_entry_unique(
    v: Seq<u8>,
    pos: int,
    e1: DailyCount,
    end1: int,
    e2: DailyCount,
    end2: int,
)
    requires
        0 <= pos,
        pos <= end1 <= v.len(),
        pos <= end2 <= v.len(),
        (e1.day as int) < day_limit(),
        (e2.day as int) < day_limit(),
        v.subrange(pos, end1) == entry_bytes(e1),
        v.subrange(pos, end2) == entry_bytes(e2),
        end1 == v.len() || !is_digit_byte(v[end1]),
        end2 == v.len() || !is_digit_byte(v[end2]),
    ensures
        e1 == e2,
        end1 == end2,
{
    lemma_entry_shape(e1);
    lemma_entry_shape(e2);
    let b1 = entry_bytes(e1);
    let b2 = entry_bytes(e2);
    assert forall|i: int| 0 <= i < 10 implies date_bytes_of(e1.day as int)[i] == date_bytes_of(
        e2.day as int,
    )[i] by {
        assert(b1[1 + i] == v[pos + 1 + i]);
        assert(b2[1 + i] == v[pos + 1 + i]);
        assert(date_bytes_of(e1.day as int)[i] == b1.subrange(1, 11)[i]);
        assert(date_bytes_of(e2.day as int)[i] == b2.subrange(1, 11)[i]);
    }
    assert(date_bytes_of(e1.day as int) =~= date_bytes_of(e2.day as int));
    crate::date::lemma_date_bytes_of_injective(e1.day as int, e2.day as int);
    if end1 < end2 {
        assert(is_digit_byte(b2[end1 - pos]));
        assert(v[end1] == b2[end1 - pos]);
        assert(false);
    }
    if end2 < end1 {
        assert(is_digit_byte(b1[end2 - pos]));
        assert(v[end2] == b1[end2 - pos]);
        assert(false);
    }
    let cb1 = count_bytes(e1.count as int);
    let cb2 = count_bytes(e2.count as int);
    assert forall|i: int| 0 <= i < cb1.len() implies cb1[i] == cb2[i] by {
        assert(cb1[i] == b1.subrange(13, b1.len() as int)[i]);
        assert(cb2[i] == b2.subrange(13, b2.len() as int)[i]);
        assert(b1[13 + i] == v[pos + 13 + i]);
        assert(b2[13 + i] == v[pos + 13 + i]);
    }
    assert(cb1 =~= cb2);
    lemma_val_of_count_bytes(e1.count as int);
    lemma_val_of_count_bytes(e2.count as int);
}

/// Append the canonical numeral of `n`.
fn push_count(out: &mut Vec<u8>, n: u64)
    ensures
        final(out)@ == old(out)@ + count_bytes(n as int),
{
    if n == 0 {
        out.push(48);
        proof {
            assert(out@ =~= old(out)@ + count_bytes(0));
        }
        return ;
    }
    let mut tmp: Vec<u8> = Vec::new();
    let mut cur: u64 = n;
    while cur > 0
        invariant
            u64_digits(n as int) == u64_digits(cur as int) + tmp@.reverse(),
        decreases cur,
    {
        let d: u8 = 48 + (cur % 10) as u8;
        let ghost t0 = tmp@;
        tmp.push(d);
        cur = cur / 10;
        proof {
            assert(tmp@.reverse() =~= seq![d] + t0.reverse());
            assert(u64_digits(cur as int) + (seq![d] + t0.reverse()) =~= (u64_digits(cur as int)
                + seq![d]) + t0.reverse());
        }
    }
    proof {
        assert(u64_digits(n as int) =~= tmp@.reverse());
    }
    let ghost o0 = out@;
    let mut j: usize = tmp.len();
    while j > 0
        invariant
            j <= tmp@.len(),
            out@ == o0 + tmp@.reverse().take(tmp@.len() - j),
        decreases j,
    {
        j = j - 1;
        out.push(tmp[j]);
        proof {
            assert(tmp@.reverse()[tmp@.len() - j - 1] == tmp@[j as int]);
            assert(out@ =~= o0 + tmp@.reverse().take(tmp@.len() - j));
        }
    }
    proof {
        assert(tmp@.reverse().take(tmp@.len() as int) =~= tmp@.reverse());
        assert(out@ =~= old(out)@ + count_bytes(n as int));
    }
}

/// Append one encoded entry, `None`-style failure when the day is out of
/// range (the vector is then left unchanged).
fn push_entry(out: &mut Vec<u8>, e: DailyCount) -> (ok: bool)
    ensures
        ok ==> (e.day as int) < day_limit() && final(out)@ == old(out)@ + entry_bytes(e),
        !ok ==> (e.day as int) >= day_limit() && final(out)@ == old(out)@,
{
    let c = match civil_from_days(e.day) {
        Some(c) => c,
        None => {
            return false;
        },
    };
    proof {
        lemma_civil_of_unique(c, e.day as int);
    }
    out.push(34);
    let db = date_bytes_civil(c);
    let mut k: usize = 0;
    let ghost mid = out@;
    while k < db.len()
        invariant
            k <= db@.len(),
            out@ == mid + db@.take(k as int),
        decreases db@.len() - k,
    {
        out.push(db[k]);
        proof {
            assert(out@ =~= mid + db@.take(k + 1));
        }
        k = k + 1;
    }
    proof {
        assert(db@.take(db@.len() as int) =~= db@);
    }
    out.push(34);
    out.push(58);
    push_count(out, e.count);
    proof {
        assert(out@ =~= old(out)@ + entry_bytes(e));
    }
    true
}

/// Read one encoded entry at `pos`: a quoted date, a colon and a canonical
/// numeral running to the first non-digit. Succeeds exactly when such an
/// entry stands at `pos` with a non-digit (or end-of-input) boundary.
fn parse_entry(v: &Vec<u8>, pos: usize) -> (r: Option<(u64, u64, usize)>)
    requires
        pos <= v@.len(),
    ensures
        match r {
            Some(p) => {
                &&& pos < p.2 <= v@.len()
                &&& (p.0 as int) < day_limit()
                &&& v@.subrange(pos as int, p.2 as int) == entry_bytes(
                    DailyCount { day: p.0, count: p.1 },
                )
                &&& (p.2 == v@.len() || !is_digit_byte(v@[p.2 as int]))
            },
            None => forall|e: DailyCount, end: int|
                #![trigger entry_bytes(e), v@.subrange(pos as int, end)]
                !(pos <= end <= v@.len() && (e.day as int) < day_limit() && v@.subrange(
                    pos as int,
                    end,
                ) == entry_bytes(e) && (end == v@.len() || !is_digit_byte(v@[end]))),
        },
{
    let n = v.len();
    if n - pos < 14 {
        proof {
            assert forall|e: DailyCount, end: int|
                !(pos <= end <= v@.len() && (e.day as int) < day_limit() && v@.subrange(
                    pos as int,
                    end,
                ) == entry_bytes(e) && (end == v@.len() || !is_digit_byte(v@[end]))) by {
                if pos <= end <= v@.len() && (e.day as int) < day_limit() && v@.subrange(
                    pos as int,
                    end,
                ) == entry_bytes(e) {
                    lemma_entry_shape(e);
                }
            }
        }
        return None;
    }
    if v[pos] != 34 {
        proof {
            assert forall|e: DailyCount, end: int|
                !(pos <= end <= v@.len() && (e.day as int) < day_limit() && v@.subrange(
                    pos as int,
                    end,
                ) == entry_bytes(e) && (end == v@.len() || !is_digit_byte(v@[end]))) by {
                if pos <= end <= v@.len() && (e.day as int) < day_limit() && v@.subrange(
                    pos as int,
                    end,
                ) == entry_bytes(e) {
                    lemma_entry_shape(e);
                    assert(v@[pos as int] == entry_bytes(e)[0]);
                }
            }
        }
        return None;
    }
    let day = match parse_date_at(v, pos + 1) {
        Some(d) => d,
        None => {
            proof {
                assert forall|e: DailyCount, end: int|
                    !(pos <= end <= v@.len() && (e.day as int) < day_limit() && v@.subrange(
                        pos as int,
                        end,
                    ) == entry_bytes(e) && (end == v@.len() || !is_digit_byte(v@[end]))) by {
                    if pos <= end <= v@.len() && (e.day as int) < day_limit() && v@.subrange(
                        pos as int,
                        end,
                    ) == entry_bytes(e) {
                        lemma_entry_shape(e);
                        let b = entry_bytes(e);
                        assert forall|i: int| 0 <= i < 10 implies v@.subrange(
                            pos + 1,
                            pos + 11,
                        )[i] == date_bytes_of(e.day as int)[i] by {
                            assert(v@[pos + 1 + i] == b[1 + i]);
                            assert(date_bytes_of(e.day as int)[i] == b.subrange(1, 11)[i]);
                        }
                        assert(v@.subrange(pos + 1, pos + 11) =~= date_bytes_of(e.day as int));
                    }
                }
            }
            return None;
        },
    };
    if v[pos + 11] != 34 || v[pos + 12] != 58 {
        proof {
            assert forall|e: DailyCount, end: int|
                !(pos <= end <= v@.len() && (e.day as int) < day_limit() && v@.subrange(
                    pos as int,
                    end,
                ) == entry_bytes(e) && (end == v@.len() || !is_digit_byte(v@[end]))) by {
                if pos <= end <= v@.len() && (e.day as int) < day_limit() && v@.subrange(
                    pos as int,
                    end,
                ) == entry_bytes(e) {
                    lemma_entry_shape(e);
                    assert(v@[pos + 11] == entry_bytes(e)[11]);
                    assert(v@[pos + 12] == entry_bytes(e)[12]);
                }
            }
        }
        return None;
    }
    let first = v[pos + 13];
    if !(first >= 48 && first <= 57) {
        proof {
            assert forall|e: DailyCount, end: int|
                !(pos <= end <= v@.len() && (e.day as int) < day_limit() && v@.subrange(
                    pos as int,
                    end,
                ) == entry_bytes(e) && (end == v@.len() || !is_digit_byte(v@[end]))) by {
                if pos <= end <= v@.len() && (e.day as int) < day_limit() && v@.subrange(
                    pos as int,
                    end,
                ) == entry_bytes(e) {
                    lemma_entry_shape(e);
                    assert(v@[pos + 13] == entry_bytes(e)[13]);
                }
            }
        }
        return None;
    }
    let mut q: usize = pos + 13;
    let mut val: u64 = 0;
    while q < n && v[q] >= 48 && v[q] <= 57
        invariant
            n == v@.len(),
            pos + 14 <= n,
            pos + 13 <= q <= n,
            forall|k: int| pos + 13 <= k < q ==> is_digit_byte(#[trigger] v@[k]),
            val as int == val_of_digits(v@.subrange(pos + 13, q as int)),
        decreases n - q,
    {
        let d: u8 = v[q] - 48;
        if val > (u64::MAX - d as u64) / 10 {
            proof {
                assert forall|e: DailyCount, end: int|
                    !(pos <= end <= v@.len() && (e.day as int) < day_limit() && v@.subrange(
                        pos as int,
                        end,
                    ) == entry_bytes(e) && (end == v@.len() || !is_digit_byte(v@[end]))) by {
                    if pos <= end <= v@.len() && (e.day as int) < day_limit() && v@.subrange(
                        pos as int,
                        end,
                    ) == entry_bytes(e) && (end == v@.len() || !is_digit_byte(v@[end])) {
                        lemma_entry_shape(e);
                        let b = entry_bytes(e);
                        let cb = count_bytes(e.count as int);
                        assert(end - pos == 13 + cb.len());
                        assert forall|j: int| pos + 13 <= j < end implies is_digit_byte(
                            #[trigger] v@[j],
                        ) by {
                            assert(v@[j] == b[j - pos]);
                        }
                        if end <= q {
                            assert(is_digit_byte(v@[end]));
                            assert(false);
                        }
                        assert(q + 1 - (pos + 13) <= cb.len());
                        assert forall|i: int| 0 <= i < cb.len() implies cb[i] == v@[pos + 13
                            + i] by {
                            assert(cb[i] == b.subrange(13, b.len() as int)[i]);
                            assert(v@[pos + 13 + i] == b[13 + i]);
                        }
                        lemma_val_of_digits_prefix(cb, q + 1 - (pos + 13));
                        lemma_val_of_count_bytes(e.count as int);
                        assert(cb.take(q + 1 - (pos + 13)) =~= v@.subrange(pos + 13, q + 1));
                        assert(v@.subrange(pos + 13, q + 1).drop_last() =~= v@.subrange(
                            pos + 13,
                            q as int,
                        ));
                        assert(val_of_digits(v@.subrange(pos + 13, q + 1)) == (val as int) * 10
                            + (v@[q as int] - 48));
                        assert(false);
                    }
                }
            }
            return None;
        }
        val = val * 10 + d as u64;
        q = q + 1;
        proof {
            assert(v@.subrange(pos + 13, q as int).drop_last() =~= v@.subrange(
                pos + 13,
                q - 1,
            ));
            assert(v@.subrange(pos + 13, q as int).last() == v@[q - 1]);
        }
    }
    let ghost ds = v@.subrange(pos + 13, q as int);
    proof {
        assert(ds.len() >= 1);
        assert(ds[0] == v@[pos + 13]);
    }
    if first == 48 && q > pos + 14 {
        proof {
            assert forall|e: DailyCount, end: int|
                !(pos <= end <= v@.len() && (e.day as int) < day_limit() && v@.subrange(
                    pos as int,
                    end,
                ) == entry_bytes(e) && (end == v@.len() || !is_digit_byte(v@[end]))) by {
                if pos <= end <= v@.len() && (e.day as int) < day_limit() && v@.subrange(
                    pos as int,
                    end,
                ) == entry_bytes(e) && (end == v@.len() || !is_digit_byte(v@[end])) {
                    lemma_entry_shape(e);
                    let b = entry_bytes(e);
                    let cb = count_bytes(e.count as int);
                    assert forall|j: int| pos + 13 <= j < end implies is_digit_byte(
                        #[trigger] v@[j],
                    ) by {
                        assert(v@[j] == b[j - pos]);
                    }
                    if end < q {
                        assert(is_digit_byte(v@[end]));
                        assert(false);
                    }
                    if end > q {
                        assert(is_digit_byte(v@[q as int]));
                        assert(false);
                    }
                    assert(cb.len() == q - pos - 13);
                    assert(cb[0] == b[13]);
                    assert(v@[pos + 13] == b[13]);
                    assert(cb[0] == 48 && cb.len() > 1);
                    assert(false);
                }
            }
        }
        return None;
    }
    proof {
        assert(canonical_digits(ds));
        lemma_digits_canonical(ds);
        assert(ds == count_bytes(val as int));
        let e = DailyCount { day, count: val };
        let b = entry_bytes(e);
        assert(v@.subrange(pos + 1, pos + 11) == date_bytes_of(day as int));
        assert forall|i: int| 0 <= i < q - pos implies v@.subrange(pos as int, q as int)[i]
            == b[i] by {
            assert(v@.subrange(pos as int, q as int)[i] == v@[pos + i]);
            if 1 <= i < 11 {
                assert(v@[pos + i] == v@.subrange(pos + 1, pos + 11)[i - 1]);
                assert(b[i] == date_bytes_of(day as int)[i - 1]);
            }
            if 13 <= i {
                assert(v@[pos + i] == ds[i - 13]);
                assert(b[i] == count_bytes(val as int)[i - 13]);
            }
        }
        lemma_entry_shape(e);
        assert(v@.subrange(pos as int, q as int) =~= b);
    }
    Some((day, val, q))
}

/// When the whole input is the encoding of `s` and the first `done` entries
/// have been consumed up to `pos`, the bytes at `pos` are exactly the next
/// entry, followed by a comma (more entries) or the closing brace (none).
proof fn lemma_candidate_at(v: Seq<u8>, pos: int, done: Seq<DailyCount>, s: Seq<DailyCount>)
    requires
        canonical(s),
        days_in_range(s),
        v == encode_spec(s),
        done.len() < s.len(),
        done == s.take(done.len() as int),
        1 <= pos <= v.len(),
        v.subrange(0, pos) == seq![123u8] + entries_bytes(done) + (if done.len() > 0 {
            seq![44u8]
        } else {
            Seq::<u8>::empty()
        }),
    ensures
        ({
            let j = done.len() as int;
            let eb = entry_bytes(s[j]);
            &&& pos + eb.len() + 1 <= v.len()
            &&& v.subrange(pos, pos + eb.len()) == eb
            &&& v[pos + eb.len()] == (if j + 1 < s.len() {
                44u8
            } else {
                125u8
            })
            &&& (j + 1 == s.len() ==> pos + eb.len() + 1 == v.len())
        }),
{
    let j = done.len() as int;
    let eb = entry_bytes(s[j]);
    lemma_entry_shape(s[j]);
    lemma_entries_split(s, j);
    let comma: Seq<u8> = if j > 0 {
        seq![44u8]
    } else {
        Seq::<u8>::empty()
    };
    let rest = eb + tail_bytes(s, j + 1) + seq![125u8];
    assert(tail_bytes(s, j) == comma + eb + tail_bytes(s, j + 1));
    assert(v =~= (seq![123u8] + entries_bytes(done) + comma) + rest);
    assert(pos == 1 + entries_bytes(done).len() + comma.len());
    assert forall|i: int| 0 <= i < rest.len() implies v[pos + i] == rest[i] by {
        assert(v[pos + i] == ((seq![123u8] + entries_bytes(done) + comma) + rest)[pos + i]);
    }
    assert(v.len() == pos + rest.len());
    assert(v.subrange(pos, pos + eb.len()) =~= eb);
    if j + 1 < s.len() {
        lemma_entry_shape(s[j + 1]);
        assert(tail_bytes(s, j + 1) == seq![44u8] + entry_bytes(s[j + 1]) + tail_bytes(
            s,
            j + 2,
        ));
        assert(rest[eb.len() as int] == 44u8);
    } else {
        assert(tail_bytes(s, j + 1) =~= Seq::<u8>::empty());
        assert(rest =~= eb + seq![125u8]);
        assert(rest[eb.len() as int] == 125u8);
    }
}

/// What one successful parse step means for a candidate source `s`: the
/// parsed entry is the next entry of `s`, and the byte after it tells
/// whether more follow.
proof fn lemma_step_facts(
    v: Seq<u8>,
    pos: int,
    done: Seq<DailyCount>,
    s: Seq<DailyCount>,
    e: DailyCount,
    end: int,
)
    requires
        canonical(s),
        days_in_range(s),
        v == encode_spec(s),
        done.len() < s.len(),
        done == s.take(done.len() as int),
        1 <= pos <= v.len(),
        v.subrange(0, pos) == seq![123u8] + entries_bytes(done) + (if done.len() > 0 {
            seq![44u8]
        } else {
            Seq::<u8>::empty()
        }),
        pos < end <= v.len(),
        (e.day as int) < day_limit(),
        v.subrange(pos, end) == entry_bytes(e),
        end == v.len() || !is_digit_byte(v[end]),
    ensures
        ({
            let j = done.len() as int;
            &&& s[j] == e
            &&& end == pos + entry_bytes(s[j]).len()
            &&& end + 1 <= v.len()
            &&& v[end] == (if j + 1 < s.len() {
                44u8
            } else {
                125u8
            })
            &&& (j + 1 == s.len() ==> end + 1 == v.len())
        }),
{
    lemma_candidate_at(v, pos, done, s);
    let j = done.len() as int;
    let eb = entry_bytes(s[j]);
    assert(v[pos + eb.len()] == 44u8 || v[pos + eb.len()] == 125u8);
    lemma_entry_unique(v, pos, e, end, s[j], pos + eb.len());
}

/// Appending an entry extends the encoded list by a comma (when the list was
/// nonempty) and the entry's bytes.
proof fn lemma_entries_push(s: Seq<DailyCount>, e: DailyCount)
    ensures
        entries_bytes(s.push(e)) == entries_bytes(s) + (if s.len() > 0 {
            seq![44u8]
        } else {
            Seq::<u8>::empty()
        }) + entry_bytes(e),
{
    let t = s.push(e);
    assert(t.drop_last() =~= s);
    assert(t.last() == e);
    if s.len() == 0 {
        assert(t.len() == 1);
        assert(t[0] == e);
        assert(entries_bytes(t) =~= entries_bytes(s) + Seq::<u8>::empty() + entry_bytes(e));
    }
}

/// Appending a later, positive-count day keeps a history canonical.
proof fn lemma_canonical_push(s: Seq<DailyCount>, e: DailyCount)
    requires
        canonical(s),
        e.count > 0,
        s.len() > 0 ==> s.last().day < e.day,
    ensures
        canonical(s.push(e)),
{
    let t = s.push(e);
    assert forall|a: int, b: int| 0 <= a < b < t.len() implies (#[trigger] t[a]).day < (
    #[trigger] t[b]).day by {
        if b < t.len() - 1 {
            assert(s[a].day < s[b].day);
        } else if a < t.len() - 1 {
            if a < s.len() - 1 {
                assert(s[a].day < s[s.len() - 1].day);
            }
        }
    }
}

/// The prefix of the input an entry list `done` has consumed: the opening
/// brace, the encoded list, and the comma that announced a further entry.
spec fn consumed_prefix(done: Seq<DailyCount>) -> Seq<u8> {
    seq![123u8] + entries_bytes(done) + (if done.len() > 0 {
        seq![44u8]
    } else {
        Seq::<u8>::empty()
    })
}

/// Mid-decode state: `done` entries consumed up to `pos`, and every
/// canonical source of the whole input continues with a further entry.
spec fn decode_state(v: Seq<u8>, pos: int, done: Seq<DailyCount>) -> bool {
    &&& 1 <= pos <= v.len()
    &&& canonical(done)
    &&& days_in_range(done)
    &&& v.subrange(0, pos) == consumed_prefix(done)
    &&& forall|s: Seq<DailyCount>| #![trigger encode_spec(s)]
        canonical(s) && days_in_range(s) && v == encode_spec(s) ==> done.len() < s.len()
            && done == s.take(done.len() as int)
}

/// Fold one parsed entry into the decoded list. `None` refuses the input;
/// `Some((true, end))` accepts it as complete at the closing brace;
/// `Some((false, np))` consumed a comma and expects a further entry at `np`.
fn decode_step(v: &Vec<u8>, pos: usize, entries: &mut Vec<DailyCount>, day: u64, cnt: u64, end: usize) -> (r: Option<(bool, usize)>)
    requires
        decode_state(v@, pos as int, old(entries)@),
        pos < end <= v@.len(),
        (day as int) < day_limit(),
        v@.subrange(pos as int, end as int) == entry_bytes(DailyCount { day, count: cnt }),
        end == v@.len() || !is_digit_byte(v@[end as int]),
    ensures
        match r {
            None => forall|s: Seq<DailyCount>| #![trigger encode_spec(s)]
                canonical(s) && days_in_range(s) ==> v@ != encode_spec(s),
            Some(p) => {
                &&& p.0 ==> {
                    &&& canonical(final(entries)@)
                    &&& days_in_range(final(entries)@)
                    &&& v@ == encode_spec(final(entries)@)
                    &&& forall|s: Seq<DailyCount>| #![trigger encode_spec(s)]
                        canonical(s) && days_in_range(s) && v@ == encode_spec(s)
                            ==> final(entries)@ == s
                }
                &&& !p.0 ==> {
                    &&& pos < p.1 <= v@.len()
                    &&& decode_state(v@, p.1 as int, final(entries)@)
                }
            },
        },
{
    let n = v.len();
    let ghost e = DailyCount { day, count: cnt };
    let ghost old_entries = entries@;
    if cnt == 0 {
        proof {
            assert forall|s: Seq<DailyCount>|
                canonical(s) && days_in_range(s) implies v@ != encode_spec(s) by {
                if v@ == encode_spec(s) {
                    lemma_step_facts(v@, pos as int, old_entries, s, e, end as int);
                    let j = old_entries.len() as int;
                    assert(s[j].count > 0);
                    assert(false);
                }
            }
        }
        return None;
    }
    if entries.len() > 0 {
        let last = entries[entries.len() - 1];
        if day <= last.day {
            proof {
                assert forall|s: Seq<DailyCount>|
                    canonical(s) && days_in_range(s) implies v@ != encode_spec(s) by {
                    if v@ == encode_spec(s) {
                        lemma_step_facts(v@, pos as int, old_entries, s, e, end as int);
                        let j = old_entries.len() as int;
                        assert(old_entries[j - 1] == s.take(j)[j - 1]);
                        assert(s[j - 1].day < s[j].day);
                        assert(false);
                    }
                }
            }
            return None;
        }
    }
    entries.push(DailyCount { day, count: cnt });
    proof {
        lemma_canonical_push(old_entries, e);
        assert(entries@ == old_entries.push(e));
    }
    if end >= n {
        proof {
            assert forall|s: Seq<DailyCount>|
                canonical(s) && days_in_range(s) implies v@ != encode_spec(s) by {
                if v@ == encode_spec(s) {
                    lemma_step_facts(v@, pos as int, old_entries, s, e, end as int);
                    assert(false);
                }
            }
        }
        return None;
    }
    let delim = v[end];
    proof {
        lemma_entries_push(old_entries, e);
        assert(v@.subrange(0, end as int) =~= v@.subrange(0, pos as int) + v@.subrange(
            pos as int,
            end as int,
        ));
        assert(v@.subrange(0, end as int) =~= seq![123u8] + entries_bytes(entries@));
    }
    if delim == 125 {
        if end + 1 == n {
            proof {
                assert(v@ =~= v@.subrange(0, end as int) + seq![125u8]);
                assert(v@ =~= encode_spec(entries@));
                assert forall|s: Seq<DailyCount>| #![trigger encode_spec(s)]
                    canonical(s) && days_in_range(s) && v@ == encode_spec(s) implies entries@
                    == s by {
                    lemma_step_facts(v@, pos as int, old_entries, s, e, end as int);
                    let j = old_entries.len() as int;
                    assert(v@[end as int] == 125u8);
                    assert(j + 1 == s.len());
                    assert(s.take(j + 1) =~= s);
                    assert(s.take(j + 1) =~= s.take(j).push(s[j]));
                }
            }
            return Some((true, end));
        } else {
            proof {
                assert forall|s: Seq<DailyCount>|
                    canonical(s) && days_in_range(s) implies v@ != encode_spec(s) by {
                    if v@ == encode_spec(s) {
                        lemma_step_facts(v@, pos as int, old_entries, s, e, end as int);
                        let j = old_entries.len() as int;
                        if j + 1 < s.len() {
                            assert(v@[end as int] == 44u8);
                        } else {
                            assert(end + 1 == n);
                        }
                        assert(false);
                    }
                }
            }
            return None;
        }
    } else if delim == 44 {
        proof {
            assert forall|s: Seq<DailyCount>| #![trigger encode_spec(s)]
                canonical(s) && days_in_range(s) && v@ == encode_spec(s) implies entries@.len()
                < s.len() && entries@ == s.take(entries@.len() as int) by {
                lemma_step_facts(v@, pos as int, old_entries, s, e, end as int);
                let j = old_entries.len() as int;
                if j + 1 == s.len() {
                    assert(v@[end as int] == 125u8);
                    assert(false);
                }
                assert(s.take(j + 1) =~= s.take(j).push(s[j]));
                assert(entries@ =~= s.take(j + 1));
            }
            assert(v@.subrange(0, end + 1) =~= v@.subrange(0, end as int) + seq![44u8]);
            assert(v@.subrange(0, end + 1) =~= consumed_prefix(entries@));
        }
        return Some((false, end + 1));
    } else {
        proof {
            assert forall|s: Seq<DailyCount>|
                canonical(s) && days_in_range(s) implies v@ != encode_spec(s) by {
                if v@ == encode_spec(s) {
                    lemma_step_facts(v@, pos as int, old_entries, s, e, end as int);
                    assert(v@[end as int] == 44u8 || v@[end as int] == 125u8);
                    assert(false);
                }
            }
        }
        return None;
    }
}

/// Decode a cache entry. Succeeds exactly on the canonical encoding of a
/// well-formed in-range history, and then returns exactly that history: a
/// hit is always precisely what was stored, anything else falls back to
/// recomputation.
#[verifier::rlimit(100)]
pub fn decode_totals(v: &Vec<u8>) -> (r: Option<Totals>)
    ensures
        match r {
            Some(t) => {
                &&& t.wf()
                &&& days_in_range(t@)
                &&& v@ == encode_spec(t@)
                &&& forall|s: Seq<DailyCount>| #![trigger encode_spec(s)]
                    canonical(s) && days_in_range(s) && v@ == encode_spec(s) ==> t@ == s
            },
            None => forall|s: Seq<DailyCount>| #![trigger encode_spec(s)]
                canonical(s) && days_in_range(s) ==> v@ != encode_spec(s),
        },
{
    let n = v.len();
    if n < 2 {
        return None;
    }
    if v[0] != 123 {
        return None;
    }
    if v[1] == 125 {
        if n == 2 {
            let t = Totals::new();
            proof {
                assert(t@ =~= Seq::<DailyCount>::empty());
                assert(entries_bytes(t@) =~= Seq::<u8>::empty());
                assert(v@ =~= encode_spec(t@));
                assert forall|s: Seq<DailyCount>| #![trigger encode_spec(s)]
                    canonical(s) && days_in_range(s) && v@ == encode_spec(s) implies t@
                    == s by {
                    if s.len() > 0 {
                        lemma_entry_shape(s[0]);
                        lemma_entries_split(s, 0);
                        assert(s.take(0) =~= Seq::<DailyCount>::empty());
                        assert(entries_bytes(s.take(0)) =~= Seq::<u8>::empty());
                        assert(tail_bytes(s, 0) == entry_bytes(s[0]) + tail_bytes(s, 1));
                        assert(v@[1] == entries_bytes(s)[0]);
                        assert(entries_bytes(s)[0] == 34u8);
                        assert(false);
                    }
                    assert(t@ =~= s);
                }
            }
            return Some(t);
        } else {
            proof {
                assert forall|s: Seq<DailyCount>|
                    canonical(s) && days_in_range(s) implies v@ != encode_spec(s) by {
                    if v@ == encode_spec(s) {
                        if s.len() == 0 {
                            assert(entries_bytes(s).len() == 0);
                            assert(v@.len() == 2);
                        } else {
                            lemma_entry_shape(s[0]);
                            lemma_entries_split(s, 0);
                            assert(s.take(0) =~= Seq::<DailyCount>::empty());
                            assert(entries_bytes(s.take(0)) =~= Seq::<u8>::empty());
                            assert(tail_bytes(s, 0) == entry_bytes(s[0]) + tail_bytes(s, 1));
                            assert(v@[1] == entries_bytes(s)[0]);
                            assert(entries_bytes(s)[0] == 34u8);
                        }
                        assert(false);
                    }
                }
            }
            return None;
        }
    }
    let mut entries: Vec<DailyCount> = Vec::new();
    let mut pos: usize = 1;
    proof {
        assert(v@.subrange(0, 1) =~= consumed_prefix(entries@));
        assert forall|s: Seq<DailyCount>| #![trigger encode_spec(s)]
            canonical(s) && days_in_range(s) && v@ == encode_spec(s) implies entries@.len()
            < s.len() && entries@ == s.take(entries@.len() as int) by {
            if s.len() == 0 {
                assert(entries_bytes(s).len() == 0);
                assert(v@[1] == 125u8);
                assert(false);
            }
            assert(entries@ =~= s.take(0));
        }
    }
    loop
        invariant
            n == v@.len(),
            pos <= n,
            decode_state(v@, pos as int, entries@),
        decreases n - pos,
    {
        match parse_entry(v, pos) {
            None => {
                proof {
                    assert forall|s: Seq<DailyCount>|
                        canonical(s) && days_in_range(s) implies v@ != encode_spec(s) by {
                        if v@ == encode_spec(s) {
                            lemma_candidate_at(v@, pos as int, entries@, s);
                            let j = entries@.len() as int;
                            let eb = entry_bytes(s[j]);
                            assert((s[j].day as int) < day_limit());
                            assert(v@.subrange(pos as int, pos + eb.len()) == eb);
                            assert(!is_digit_byte(v@[pos + eb.len()]));
                            assert(false);
                        }
                    }
                }
                return None;
            },
            Some((day, cnt, end)) => {
                match decode_step(v, pos, &mut entries, day, cnt, end) {
                    None => {
                        return None;
                    },
                    Some((true, _)) => {
                        let t = Totals::from_sorted(entries);
                        return Some(t);
                    },
                    Some((false, np)) => {
                        pos = np;
                    },
                }
            },
        }
    }
}

/// Cache round trip: an in-range history encodes, and decoding what was
/// encoded returns exactly the same mapping.
pub fn cache_round_trip(t: &Totals) -> (r: Option<Totals>)
    requires
        t.wf(),
    ensures
        match r {
            Some(u) => days_in_range(t@) && u.wf() && u@ == t@,
            None => !days_in_range(t@),
        },
{
    let b = match encode_totals(t) {
        Some(b) => b,
        None => {
            return None;
        },
    };
    match decode_totals(&b) {
        Some(u) => {
            proof {
                assert(canonical(t@) && days_in_range(t@) && b@ == encode_spec(t@));
                assert(u@ == t@);
            }
            Some(u)
        },
        None => {
            proof {
                assert(b@ != encode_spec(t@));
                assert(false);
            }
            None
        },
    }
}

/// Encode a history into its canonical cache entry; `None` exactly when
/// some day lies outside the supported date range.
pub fn encode_totals(t: &Totals) -> (r: Option<Vec<u8>>)
    requires
        t.wf(),
    ensures
        match r {
            Some(b) => days_in_range(t@) && b@ == encode_spec(t@),
            None => !days_in_range(t@),
        },
{
    let mut out: Vec<u8> = Vec::new();
    out.push(123);
    let list = t.to_list();
    let mut i: usize = 0;
    while i < list.len()
        invariant
            list@ == t@,
            i <= t@.len(),
            days_in_range(t@.take(i as int)),
            out@ == seq![123u8] + entries_bytes(t@.take(i as int)),
        decreases t@.len() - i,
    {
        if i > 0 {
            out.push(44);
        }
        let ok = push_entry(&mut out, list[i]);
        if !ok {
            proof {
                assert(!days_in_range(t@));
            }
            return None;
        }
        proof {
            assert(t@.take(i + 1).drop_last() =~= t@.take(i as int));
            assert(t@.take(i + 1).last() == t@[i as int]);
            if i == 0 {
                assert(out@ =~= seq![123u8] + entries_bytes(t@.take(1)));
            } else {
                assert(out@ =~= seq![123u8] + entries_bytes(t@.take(i + 1)));
            }
            assert(days_in_range(t@.take(i + 1)));
        }
        i = i + 1;
    }
    out.push(125);
    proof {
        assert(t@.take(t@.len() as int) =~= t@);
        assert(out@ =~= encode_spec(t@));
        assert(days_in_range(t@));
    }
    Some(out)
}

} // verus!

//! Time-bucketed uptime series: bucket boundaries and gap filling.
//!
//! An instant is a number of seconds since the Unix epoch. A bucket is a
//! window of `width` seconds whose start is the instant rounded down to a
//! multiple of `width`; hourly buckets are 3600 seconds wide and daily
//! buckets 86400 seconds. Gap filling walks backward from a given `now`
//! and synthesizes a bucket with no data for every window that the real
//! series misses, then orders the series most-recent-first.

use vstd::prelude::*;

verus! {

/// One point of an uptime series: the start of a bucket and the uptime
/// percentage over that bucket, or `None` when no observation fell into it.
#[derive(Clone, Copy, Debug, PartialEq, Eq)]
pub struct WebsiteStats {
    pub time: i64,
    pub uptime_pct: Option<i16>,
}

/// Bucket granularity of a series: hourly or daily windows.
#[derive(Clone, Copy, Debug, PartialEq, Eq)]
pub enum SplitBy {
    Hour,
    Day,
}

/// Seconds in one bucket of the given granularity.
pub open spec fn split_width(s: SplitBy) -> int {
    match s {
        SplitBy::Hour => 3600,
        SplitBy::Day => 86400,
    }
}

/// The start of the bucket of `width` seconds that holds instant `t`:
/// `t` rounded down to a multiple of `width`.
pub open spec fn trunc(t: int, width: int) -> int {
    t - t % width
}

/// Bucket starts are aligned, at most `t`, and less than one width below it.
pub proof fn lemma_trunc_bounds(t: int, width: int)
    requires
        0 < width,
    ensures
        t - width < trunc(t, width) <= t,
        trunc(t, width) % width == 0,
{
    assert(0 <= t % width < width) by (nonlinear_arith)
        requires 0 < width;
    assert((t - t % width) % width == 0) by (nonlinear_arith)
        requires 0 < width;
}

/// Stepping a whole number of widths below an instant steps its bucket
/// start by the same amount.
pub proof fn lemma_trunc_sub_multiple(t: int, width: int, k: int)
    requires
        0 < width,
    ensures
        trunc(t - k * width, width) == trunc(t, width) - k * width,
{
    vstd::arithmetic::div_mod::lemma_mod_multiples_vanish(-k, t, width);
    assert(width * -k + t == t - k * width) by (nonlinear_arith);
}

/// Round a nonnegative instant down to the start of its bucket.
pub fn truncate_bucket(t: i64, width: i64) -> (r: i64)
    requires
        0 <= t,
        0 < width,
    ensures
        r == trunc(t as int, width as int),
        0 <= r <= t,
{
    proof {
        lemma_trunc_bounds(t as int, width as int);
        assert(0 <= t % width <= t) by (nonlinear_arith)
            requires 0 <= t, 0 < width;
    }
    t - t % width
}

/// The instant that gap-filling step `i` lands on: `i` steps of `step`
/// seconds below `now`, rounded down to the start of its bucket.
pub open spec fn candidate(now: int, step: int, width: int, i: int) -> int {
    trunc(now - i * step, width)
}

/// Whether some entry of the series starts at instant `t`.
pub open spec fn has_time(data: Seq<WebsiteStats>, t: int) -> bool {
    exists|j: int| 0 <= j < data.len() && data[j].time == t
}

/// The series after gap-filling steps `i` up to `n`: each step appends a
/// bucket with no data at its candidate instant, unless the series built
/// so far already has a bucket starting there.
pub open spec fn gap_fill(
    data: Seq<WebsiteStats>,
    now: int,
    step: int,
    width: int,
    i: int,
    n: int,
) -> Seq<WebsiteStats>
    decreases n - i,
{
    if i >= n {
        data
    } else {
        let t = candidate(now, step, width, i);
        let d = if has_time(data, t) {
            data
        } else {
            data.push(WebsiteStats { time: t as i64, uptime_pct: None })
        };
        gap_fill(d, now, step, width, i + 1, n)
    }
}

/// Where descending insertion places `x`: after every entry whose bucket
/// starts at or after `x.time`, so that entries with equal starts keep
/// their relative order.
pub open spec fn insert_pos_desc(s: Seq<WebsiteStats>, x: WebsiteStats) -> int
    decreases s.len(),
{
    if s.len() == 0 {
        0
    } else if s[0].time >= x.time {
        1 + insert_pos_desc(s.drop_first(), x)
    } else {
        0
    }
}

/// The series ordered by bucket start, most recent first, by insertion:
/// entries with equal starts keep their relative order.
pub open spec fn sort_desc(s: Seq<WebsiteStats>) -> Seq<WebsiteStats>
    decreases s.len(),
{
    if s.len() == 0 {
        Seq::empty()
    } else {
        let sorted = sort_desc(s.drop_last());
        sorted.insert(insert_pos_desc(sorted, s.last()), s.last())
    }
}

/// Whether the series is ordered by bucket start, most recent first.
pub open spec fn sorted_desc(s: Seq<WebsiteStats>) -> bool {
    forall|i: int, j: int| 0 <= i <= j < s.len() ==> s[i].time >= s[j].time
}

/// What gap filling returns: a series shorter than `splits` buckets is
/// filled from `now` and ordered most recent first; a series already that
/// long is returned unchanged, in its stored ascending order.
pub open spec fn fill_result(
    data: Seq<WebsiteStats>,
    splits: int,
    width: int,
    step: int,
    now: int,
) -> Seq<WebsiteStats> {
    if data.len() >= splits {
        data
    } else {
        sort_desc(gap_fill(data, now, step, width, 0, splits))
    }
}

pub proof fn lemma_insert_pos_desc_bounds(s: Seq<WebsiteStats>, x: WebsiteStats)
    ensures
        0 <= insert_pos_desc(s, x) <= s.len(),
    decreases s.len(),
{
    if s.len() > 0 && s[0].time >= x.time {
        lemma_insert_pos_desc_bounds(s.drop_first(), x);
    }
}

/// Entries before the insertion point start at or after `x.time`; the
/// entry at the point, if any, starts strictly before it.
pub proof fn lemma_insert_pos_desc_char(s: Seq<WebsiteStats>, x: WebsiteStats)
    ensures
        forall|q: int| 0 <= q < insert_pos_desc(s, x) ==> s[q].time >= x.time,
        insert_pos_desc(s, x) < s.len() ==> s[insert_pos_desc(s, x) as int].time < x.time,
    decreases s.len(),
{
    lemma_insert_pos_desc_bounds(s, x);
    if s.len() > 0 && s[0].time >= x.time {
        lemma_insert_pos_desc_char(s.drop_first(), x);
        assert forall|q: int| 0 <= q < insert_pos_desc(s, x) implies s[q].time >= x.time by {
            if q > 0 {
                assert(s.drop_first()[q - 1].time >= x.time);
            }
        }
        if insert_pos_desc(s, x) < s.len() {
            let p = insert_pos_desc(s.drop_first(), x);
            lemma_insert_pos_desc_bounds(s.drop_first(), x);
            assert(insert_pos_desc(s, x) == 1 + p);
            assert(s.drop_first()[p] == s[p + 1]);
        }
    }
}

/// Inserting an entry adds it to the contents of the series and grows it
/// by one.
pub proof fn lemma_insert_multiset(s: Seq<WebsiteStats>, pos: int, x: WebsiteStats)
    requires
        0 <= pos <= s.len(),
    ensures
        s.insert(pos, x).to_multiset() == s.to_multiset().insert(x),
        s.insert(pos, x).len() == s.len() + 1,
{
    broadcast use vstd::seq_lib::group_to_multiset_ensures;
    broadcast use vstd::multiset::group_multiset_axioms;

    let a = s.subrange(0, pos);
    let b = s.subrange(pos, s.len() as int);
    vstd::seq_lib::lemma_multiset_commutative(a.push(x), b);
    vstd::seq_lib::lemma_multiset_commutative(a, b);
    assert(s =~= a + b);
    assert(s.insert(pos, x).to_multiset() =~= s.to_multiset().insert(x));
}

/// Descending insertion keeps the series ordered most recent first.
pub proof fn lemma_insert_desc_sorted(s: Seq<WebsiteStats>, x: WebsiteStats)
    requires
        sorted_desc(s),
    ensures
        sorted_desc(s.insert(insert_pos_desc(s, x), x)),
{
    let p = insert_pos_desc(s, x);
    lemma_insert_pos_desc_bounds(s, x);
    lemma_insert_pos_desc_char(s, x);
    let r = s.insert(p, x);
    s.insert_ensures(p, x);
    assert forall|i: int, j: int| 0 <= i <= j < r.len() implies r[i].time >= r[j].time by {
        if i < p {
            assert(r[i] == s[i]);
        }
        if j < p {
            assert(r[j] == s[j]);
        }
        if i > p {
            assert(r[i] == s[i - 1]);
            assert(s[p].time < x.time);
            assert(s[i - 1].time <= s[p].time);
        }
        if j > p {
            assert(r[j] == s[j - 1]);
            assert(s[p].time < x.time);
            assert(s[j - 1].time <= s[p].time);
        }
    }
}

/// Ordering a series keeps its length and contents, and the result is
/// ordered most recent first.
pub proof fn lemma_sort_desc_ensures(s: Seq<WebsiteStats>)
    ensures
        sort_desc(s).len() == s.len(),
        sort_desc(s).to_multiset() == s.to_multiset(),
        sorted_desc(sort_desc(s)),
    decreases s.len(),
{
    broadcast use vstd::seq_lib::group_to_multiset_ensures;
    broadcast use vstd::multiset::group_multiset_axioms;

    if s.len() == 0 {
    } else {
        lemma_sort_desc_ensures(s.drop_last());
        let sorted = sort_desc(s.drop_last());
        lemma_insert_pos_desc_bounds(sorted, s.last());
        lemma_insert_multiset(sorted, insert_pos_desc(sorted, s.last()), s.last());
        lemma_insert_desc_sorted(sorted, s.last());
        assert(s =~= s.drop_last().push(s.last()));
        assert(s.to_multiset() =~= s.drop_last().to_multiset().insert(s.last()));
    }
}

/// When every entry starts at or after `x.time`, descending insertion
/// appends at the end.
proof fn lemma_insert_pos_desc_all_ge(s: Seq<WebsiteStats>, x: WebsiteStats)
    requires
        forall|q: int| 0 <= q < s.len() ==> #[trigger] s[q].time >= x.time,
    ensures
        insert_pos_desc(s, x) == s.len(),
    decreases s.len(),
{
    if s.len() > 0 {
        assert forall|q: int| 0 <= q < s.drop_first().len()
            implies #[trigger] s.drop_first()[q].time >= x.time by {
            assert(s.drop_first()[q] == s[q + 1]);
        }
        lemma_insert_pos_desc_all_ge(s.drop_first(), x);
    }
}

/// A series already ordered most recent first is left exactly as it is.
pub proof fn lemma_sort_desc_fixed(s: Seq<WebsiteStats>)
    requires
        sorted_desc(s),
    ensures
        sort_desc(s) == s,
    decreases s.len(),
{
    if s.len() > 0 {
        assert forall|i: int, j: int| 0 <= i <= j < s.drop_last().len()
            implies s.drop_last()[i].time >= s.drop_last()[j].time by {
            assert(s.drop_last()[i] == s[i]);
            assert(s.drop_last()[j] == s[j]);
        }
        lemma_sort_desc_fixed(s.drop_last());
        assert forall|q: int| 0 <= q < s.drop_last().len()
            implies #[trigger] s.drop_last()[q].time >= s.last().time by {
            assert(s.drop_last()[q] == s[q]);
        }
        lemma_insert_pos_desc_all_ge(s.drop_last(), s.last());
        let n = s.drop_last().len() as int;
        assert(s.drop_last().insert(n, s.last()) =~= s);
    }
}

/// Whether no two entries of the series share a bucket start.
pub open spec fn no_dup_times(s: Seq<WebsiteStats>) -> bool {
    forall|p: int, q: int| 0 <= p < q < s.len() ==> s[p].time != s[q].time
}

proof fn lemma_has_time_push(s: Seq<WebsiteStats>, x: WebsiteStats, t: int)
    ensures
        has_time(s.push(x), t) <==> (has_time(s, t) || x.time == t),
{
    if has_time(s, t) {
        let j = choose|j: int| 0 <= j < s.len() && s[j].time == t;
        assert(s.push(x)[j].time == t);
    }
    if x.time == t {
        assert(s.push(x)[s.len() as int].time == t);
    }
    if has_time(s.push(x), t) {
        let j = choose|j: int| 0 <= j < s.push(x).len() && s.push(x)[j].time == t;
        if j < s.len() {
            assert(s[j].time == t);
        }
    }
}

proof fn lemma_has_time_insert(s: Seq<WebsiteStats>, pos: int, x: WebsiteStats, t: int)
    requires
        0 <= pos <= s.len(),
    ensures
        has_time(s.insert(pos, x), t) <==> (has_time(s, t) || x.time == t),
{
    s.insert_ensures(pos, x);
    let r = s.insert(pos, x);
    if has_time(s, t) {
        let j = choose|j: int| 0 <= j < s.len() && s[j].time == t;
        if j < pos {
            assert(r[j].time == t);
        } else {
            assert(r[j + 1].time == t);
        }
    }
    if x.time == t {
        assert(r[pos].time == t);
    }
    if has_time(r, t) {
        let j = choose|j: int| 0 <= j < r.len() && r[j].time == t;
        if j < pos {
            assert(s[j].time == t);
        } else if j > pos {
            assert(s[j - 1].time == t);
        }
    }
}

proof fn lemma_has_time_remove(s: Seq<WebsiteStats>, idx: int, t: int)
    requires
        0 <= idx < s.len(),
        s[idx].time != t,
    ensures
        has_time(s.remove(idx), t) <==> has_time(s, t),
{
    s.remove_ensures(idx);
    let r = s.remove(idx);
    if has_time(s, t) {
        let j = choose|j: int| 0 <= j < s.len() && s[j].time == t;
        if j < idx {
            assert(r[j].time == t);
        } else {
            assert(r[j - 1].time == t);
        }
    }
    if has_time(r, t) {
        let j = choose|j: int| 0 <= j < r.len() && r[j].time == t;
        if j < idx {
            assert(s[j].time == t);
        } else {
            assert(s[j + 1].time == t);
        }
    }
}

/// How many gap-filling steps in `i..n` land on an instant that the
/// series does not already have.
pub open spec fn count_missing(
    data: Seq<WebsiteStats>,
    now: int,
    step: int,
    width: int,
    i: int,
    n: int,
) -> int
    decreases n - i,
{
    if i >= n {
        0
    } else {
        (if has_time(data, candidate(now, step, width, i)) {
            0int
        } else {
            1int
        }) + count_missing(data, now, step, width, i + 1, n)
    }
}

proof fn lemma_count_missing_congruent(
    d1: Seq<WebsiteStats>,
    d2: Seq<WebsiteStats>,
    now: int,
    step: int,
    width: int,
    i: int,
    n: int,
)
    requires
        forall|j: int|
            i <= j < n ==> (has_time(d1, #[trigger] candidate(now, step, width, j)) <==> has_time(
                d2,
                candidate(now, step, width, j),
            )),
    ensures
        count_missing(d1, now, step, width, i, n) == count_missing(d2, now, step, width, i, n),
    decreases n - i,
{
    if i < n {
        lemma_count_missing_congruent(d1, d2, now, step, width, i + 1, n);
    }
}

/// Gap filling grows the series by one bucket for each step whose instant
/// is missing, keeps every start it had, and introduces no duplicate
/// starts, provided the stepped instants are pairwise distinct.
proof fn lemma_gap_fill_props(
    data: Seq<WebsiteStats>,
    now: int,
    step: int,
    width: int,
    i: int,
    n: int,
)
    requires
        forall|j: int, k: int|
            i <= j < k < n ==> #[trigger] candidate(now, step, width, j) != #[trigger] candidate(
                now,
                step,
                width,
                k,
            ),
        forall|j: int|
            i <= j < n ==> 0 <= #[trigger] candidate(now, step, width, j) <= i64::MAX,
    ensures
        gap_fill(data, now, step, width, i, n).len() == data.len() + count_missing(
            data,
            now,
            step,
            width,
            i,
            n,
        ),
        no_dup_times(data) ==> no_dup_times(gap_fill(data, now, step, width, i, n)),
        forall|t: int|
            has_time(gap_fill(data, now, step, width, i, n), t) <==> (has_time(data, t)
                || exists|j: int| i <= j < n && #[trigger] candidate(now, step, width, j) == t),
    decreases n - i,
{
    if i >= n {
    } else {
        let t = candidate(now, step, width, i);
        if has_time(data, t) {
            lemma_gap_fill_props(data, now, step, width, i + 1, n);
            assert forall|u: int|
                has_time(gap_fill(data, now, step, width, i, n), u) implies (has_time(data, u)
                || exists|j: int| i <= j < n && #[trigger] candidate(now, step, width, j)
                    == u) by {}
        } else {
            let x = WebsiteStats { time: t as i64, uptime_pct: None };
            let d = data.push(x);
            assert(x.time == t);
            lemma_gap_fill_props(d, now, step, width, i + 1, n);
            assert forall|j: int|
                i + 1 <= j < n implies (has_time(d, #[trigger] candidate(now, step, width, j))
                <==> has_time(data, candidate(now, step, width, j))) by {
                lemma_has_time_push(data, x, candidate(now, step, width, j));
            }
            lemma_count_missing_congruent(d, data, now, step, width, i + 1, n);
            if no_dup_times(data) {
                assert forall|p: int, q: int| 0 <= p < q < d.len() implies d[p].time
                    != d[q].time by {
                    if q == d.len() - 1 {
                        assert(d[p] == data[p]);
                        assert(!has_time(data, t));
                        assert(data[p].time != t);
                    } else {
                        assert(d[p] == data[p]);
                        assert(d[q] == data[q]);
                    }
                }
            }
            assert forall|u: int| has_time(d, u) <==> (has_time(data, u) || x.time == u) by {
                lemma_has_time_push(data, x, u);
            }
        }
    }
}

/// When the series has no duplicate starts and every start is one of the
/// stepped instants of `i..n`, exactly `n - i - len` steps are missing.
proof fn lemma_count_missing_of_subset(
    data: Seq<WebsiteStats>,
    now: int,
    step: int,
    width: int,
    i: int,
    n: int,
)
    requires
        i <= n,
        forall|j: int, k: int|
            i <= j < k < n ==> #[trigger] candidate(now, step, width, j) != #[trigger] candidate(
                now,
                step,
                width,
                k,
            ),
        no_dup_times(data),
        forall|p: int|
            0 <= p < data.len() ==> exists|j: int|
                i <= j < n && #[trigger] data[p].time == candidate(now, step, width, j),
    ensures
        count_missing(data, now, step, width, i, n) == (n - i) - data.len(),
    decreases n - i,
{
    if i >= n {
        if data.len() > 0 {
            assert(exists|j: int|
                i <= j < n && #[trigger] data[0].time == candidate(now, step, width, j));
        }
    } else {
        let t = candidate(now, step, width, i);
        if has_time(data, t) {
            let idx = choose|idx: int| 0 <= idx < data.len() && data[idx].time == t;
            let d2 = data.remove(idx);
            data.remove_ensures(idx);
            assert forall|p: int, q: int| 0 <= p < q < d2.len() implies d2[p].time
                != d2[q].time by {
                if q < idx {
                } else if p < idx {
                    assert(d2[q] == data[q + 1]);
                } else {
                    assert(d2[p] == data[p + 1]);
                    assert(d2[q] == data[q + 1]);
                }
            }
            assert forall|p: int| 0 <= p < d2.len() implies exists|j: int|
                i + 1 <= j < n && #[trigger] d2[p].time == candidate(now, step, width, j) by {
                let porig: int = if p < idx {
                    p
                } else {
                    p + 1
                };
                assert(d2[p] == data[porig]);
                assert(data[porig].time != t);
                let j = choose|j: int|
                    i <= j < n && #[trigger] data[porig].time == candidate(now, step, width, j);
                assert(j != i);
                assert(i + 1 <= j < n && d2[p].time == candidate(now, step, width, j));
            }
            assert forall|j: int|
                i + 1 <= j < n implies (has_time(data, #[trigger] candidate(now, step, width, j))
                <==> has_time(d2, candidate(now, step, width, j))) by {
                lemma_has_time_remove(data, idx, candidate(now, step, width, j));
            }
            lemma_count_missing_congruent(data, d2, now, step, width, i + 1, n);
            lemma_count_missing_of_subset(d2, now, step, width, i + 1, n);
        } else {
            assert forall|p: int| 0 <= p < data.len() implies exists|j: int|
                i + 1 <= j < n && #[trigger] data[p].time == candidate(now, step, width, j) by {
                let j = choose|j: int|
                    i <= j < n && #[trigger] data[p].time == candidate(now, step, width, j);
                if j == i {
                    assert(has_time(data, t));
                }
                assert(i + 1 <= j < n && data[p].time == candidate(now, step, width, j));
            }
            lemma_count_missing_of_subset(data, now, step, width, i + 1, n);
        }
    }
}

/// When the step equals the bucket width, gap-filling step `i` lands
/// exactly `i` widths below the start of the bucket that holds `now`.
pub proof fn lemma_candidate_aligned(now: int, width: int, i: int)
    requires
        0 < width,
    ensures
        candidate(now, width, width, i) == trunc(now, width) - i * width,
{
    lemma_trunc_sub_multiple(now, width, i);
}

proof fn lemma_candidates_distinct(now: int, width: int, n: int)
    requires
        0 < width,
        0 <= n,
        n * width <= now,
    ensures
        forall|j: int, k: int|
            0 <= j < k < n ==> #[trigger] candidate(now, width, width, j) > #[trigger] candidate(
                now,
                width,
                width,
                k,
            ),
        forall|j: int| 0 <= j < n ==> 0 <= #[trigger] candidate(now, width, width, j) <= now,
{
    assert forall|j: int, k: int|
        0 <= j < k < n implies #[trigger] candidate(now, width, width, j)
        > #[trigger] candidate(now, width, width, k) by {
        lemma_candidate_aligned(now, width, j);
        lemma_candidate_aligned(now, width, k);
        assert(j * width < k * width) by (nonlinear_arith)
            requires 0 < width, j < k;
    }
    assert forall|j: int| 0 <= j < n implies 0 <= #[trigger] candidate(now, width, width, j)
        <= now by {
        let t = now - j * width;
        assert(0 <= j * width && j * width < n * width) by (nonlinear_arith)
            requires 0 < width, 0 <= j < n;
        lemma_trunc_bounds(t, width);
        assert(0 <= t % width <= t) by (nonlinear_arith)
            requires 0 <= t, 0 < width;
    }
}

/// The buckets that gap filling synthesizes from an empty series: one per
/// step, most recent first, each with no data.
pub open spec fn candidate_stats(now: int, step: int, width: int, n: int) -> Seq<WebsiteStats> {
    Seq::new(
        n as nat,
        |i: int| WebsiteStats { time: candidate(now, step, width, i) as i64, uptime_pct: None },
    )
}

proof fn lemma_gap_fill_empty_steps(now: int, width: int, i: int, n: int)
    requires
        0 < width,
        0 <= i <= n,
        n * width <= now,
        now <= i64::MAX,
    ensures
        gap_fill(candidate_stats(now, width, width, n).take(i), now, width, width, i, n)
            == candidate_stats(now, width, width, n),
    decreases n - i,
{
    let cs = candidate_stats(now, width, width, n);
    lemma_candidates_distinct(now, width, n);
    if i >= n {
        assert(cs.take(n) =~= cs);
    } else {
        let t = candidate(now, width, width, i);
        assert(!has_time(cs.take(i), t)) by {
            if has_time(cs.take(i), t) {
                let j = choose|j: int| 0 <= j < cs.take(i).len() && cs.take(i)[j].time == t;
                assert(cs.take(i)[j] == cs[j]);
                assert(candidate(now, width, width, j) > t);
            }
        }
        assert(cs.take(i).push(WebsiteStats { time: t as i64, uptime_pct: None }) =~= cs.take(
            i + 1,
        ));
        lemma_gap_fill_empty_steps(now, width, i + 1, n);
    }
}

/// Aggregating an empty observation series, with a step equal to the
/// bucket width, yields exactly `splits` buckets with no data, walking
/// backward one width at a time from the bucket that holds `now`.
pub proof fn lemma_fill_empty(splits: int, width: int, now: int)
    requires
        0 < width,
        0 < splits,
        splits * width <= now,
        now <= i64::MAX,
    ensures
        fill_result(Seq::<WebsiteStats>::empty(), splits, width, width, now) == candidate_stats(
            now,
            width,
            width,
            splits,
        ),
        candidate_stats(now, width, width, splits).len() == splits,
        forall|i: int|
            0 <= i < splits ==> (#[trigger] candidate_stats(now, width, width, splits)[i]).time
                == trunc(now, width) - i * width,
        forall|i: int|
            0 <= i < splits ==> (#[trigger] candidate_stats(now, width, width, splits)[i]).uptime_pct
                is None,
{
    let cs = candidate_stats(now, width, width, splits);
    lemma_candidates_distinct(now, width, splits);
    assert(cs.take(0) =~= Seq::<WebsiteStats>::empty());
    lemma_gap_fill_empty_steps(now, width, 0, splits);
    assert(sorted_desc(cs)) by {
        assert forall|i: int, j: int| 0 <= i <= j < cs.len() implies cs[i].time >= cs[j].time by {
            if i < j {
                assert(candidate(now, width, width, i) > candidate(now, width, width, j));
            }
        }
    }
    lemma_sort_desc_fixed(cs);
    assert forall|i: int| 0 <= i < splits implies (#[trigger] cs[i]).time == trunc(now, width) - i
        * width by {
        lemma_candidate_aligned(now, width, i);
    }
}

proof fn lemma_sort_desc_no_dup(s: Seq<WebsiteStats>)
    requires
        no_dup_times(s),
    ensures
        no_dup_times(sort_desc(s)),
        forall|t: int| has_time(sort_desc(s), t) <==> has_time(s, t),
    decreases s.len(),
{
    if s.len() == 0 {
    } else {
        let d = s.drop_last();
        let x = s.last();
        assert forall|p: int, q: int| 0 <= p < q < d.len() implies d[p].time != d[q].time by {
            assert(d[p] == s[p]);
            assert(d[q] == s[q]);
        }
        lemma_sort_desc_no_dup(d);
        let sorted = sort_desc(d);
        lemma_insert_pos_desc_bounds(sorted, x);
        let p = insert_pos_desc(sorted, x);
        let r = sorted.insert(p, x);
        sorted.insert_ensures(p, x);
        assert(s =~= d.push(x));
        assert forall|t: int| has_time(r, t) <==> has_time(s, t) by {
            lemma_has_time_insert(sorted, p, x, t);
            lemma_has_time_push(d, x, t);
        }
        assert(!has_time(sorted, x.time as int)) by {
            if has_time(sorted, x.time as int) {
                assert(has_time(d, x.time as int));
                let q = choose|q: int| 0 <= q < d.len() && d[q].time == x.time as int;
                assert(d[q] == s[q]);
                assert(s[q].time == s[s.len() - 1].time);
                assert(false);
            }
        }
        assert forall|a: int, b: int| 0 <= a < b < r.len() implies r[a].time != r[b].time by {
            if b < p {
            } else if a < p && b == p {
                assert(r[a] == sorted[a]);
                if r[a].time == x.time {
                    assert(has_time(sorted, x.time as int));
                }
            } else if a < p && b > p {
                assert(r[a] == sorted[a]);
                assert(r[b] == sorted[b - 1]);
            } else if a == p {
                assert(r[b] == sorted[b - 1]);
                if r[b].time == x.time {
                    assert(has_time(sorted, x.time as int));
                }
            } else {
                assert(r[a] == sorted[a - 1]);
                assert(r[b] == sorted[b - 1]);
            }
        }
    }
}

/// Whenever gap filling triggers, and every real bucket lies on one of
/// the stepped instants with no start repeated, the aggregate has exactly
/// `splits` buckets, no two of them share a start, and they come most
/// recent first.
pub proof fn lemma_fill_complete(data: Seq<WebsiteStats>, splits: int, width: int, now: int)
    requires
        0 < width,
        0 < splits,
        splits * width <= now,
        now <= i64::MAX,
        data.len() < splits,
        no_dup_times(data),
        forall|p: int|
            0 <= p < data.len() ==> exists|j: int|
                0 <= j < splits && #[trigger] data[p].time == candidate(now, width, width, j),
    ensures
        fill_result(data, splits, width, width, now).len() == splits,
        no_dup_times(fill_result(data, splits, width, width, now)),
        sorted_desc(fill_result(data, splits, width, width, now)),
{
    lemma_candidates_distinct(now, width, splits);
    lemma_gap_fill_props(data, now, width, width, 0, splits);
    lemma_count_missing_of_subset(data, now, width, width, 0, splits);
    let filled = gap_fill(data, now, width, width, 0, splits);
    lemma_sort_desc_ensures(filled);
    lemma_sort_desc_no_dup(filled);
}

/// Aggregating the same series twice with the same clock yields identical
/// output: the result is a function of the series and the clock alone.
pub proof fn lemma_fill_idempotent(
    data: Seq<WebsiteStats>,
    splits: int,
    width: int,
    step: int,
    now: int,
    o1: Seq<WebsiteStats>,
    o2: Seq<WebsiteStats>,
)
    requires
        o1 == fill_result(data, splits, width, step, now),
        o2 == fill_result(data, splits, width, step, now),
    ensures
        o1 == o2,
{
}

/// A forward scan that stops at the first entry starting strictly before
/// `x.time` stops exactly at the descending insertion point.
proof fn lemma_insert_pos_from_scan(s: Seq<WebsiteStats>, x: WebsiteStats, p: int)
    requires
        0 <= p <= s.len(),
        forall|q: int| 0 <= q < p ==> s[q].time >= x.time,
        p < s.len() ==> s[p].time < x.time,
    ensures
        insert_pos_desc(s, x) == p,
    decreases s.len(),
{
    if s.len() > 0 {
        if s[0].time >= x.time {
            assert(p >= 1);
            assert forall|q: int| 0 <= q < p - 1 implies s.drop_first()[q].time >= x.time by {
                assert(s.drop_first()[q] == s[q + 1]);
            }
            if p - 1 < s.len() - 1 {
                assert(s.drop_first()[p - 1] == s[p]);
            }
            lemma_insert_pos_from_scan(s.drop_first(), x, p - 1);
        }
    }
}

/// Fill a sparse uptime series out to `splits` buckets.
///
/// When the series already has at least `splits` entries it is returned
/// unchanged. Otherwise, for each step `i` below `splits`, the instant
/// `now - i * number_of_seconds` is rounded down to the start of its
/// bucket of the chosen granularity, and a bucket with no data is
/// appended unless one already starts there; the result is then ordered
/// most recent first.
pub fn fill_data_gaps(
    data: Vec<WebsiteStats>,
    splits: i32,
    format: SplitBy,
    number_of_seconds: i32,
    now: i64,
) -> (out: Vec<WebsiteStats>)
    requires
        0 < splits,
        0 < number_of_seconds,
        splits as int * number_of_seconds as int <= now,
    ensures
        out@ == fill_result(
            data@,
            splits as int,
            split_width(format),
            number_of_seconds as int,
            now as int,
        ),
{
    if data.len() >= splits as usize {
        return data;
    }
    let width: i64 = match format {
        SplitBy::Hour => 3600,
        SplitBy::Day => 86400,
    };
    let step: i64 = number_of_seconds as i64;
    let ghost orig = data@;
    let mut data = data;
    let mut i: i32 = 0;
    while i < splits
        invariant
            0 <= i <= splits,
            0 < step,
            width == split_width(format),
            step == number_of_seconds as int,
            splits as int * step as int <= now,
            gap_fill(data@, now as int, step as int, width as int, i as int, splits as int)
                == gap_fill(orig, now as int, step as int, width as int, 0, splits as int),
        decreases splits - i,
    {
        proof {
            assert(0 <= (i as int) * (step as int)
                && (i as int) * (step as int) < (splits as int) * (step as int)) by (nonlinear_arith)
                requires
                    0 <= i < splits,
                    0 < step,
            ;
        }
        let offset: i64 = (i as i64) * step;
        let t0: i64 = now - offset;
        let t = truncate_bucket(t0, width);
        let mut found = false;
        let mut j: usize = 0;
        while j < data.len()
            invariant
                0 <= j <= data@.len(),
                found == exists|q: int| 0 <= q < j && #[trigger] data@[q].time == t,
            decreases data@.len() - j,
        {
            if data[j].time == t {
                found = true;
            }
            j += 1;
        }
        proof {
            assert(found == has_time(data@, t as int));
            assert(t as int == candidate(now as int, step as int, width as int, i as int));
        }
        if !found {
            data.push(WebsiteStats { time: t, uptime_pct: None });
        }
        i += 1;
    }
    let mut out: Vec<WebsiteStats> = Vec::new();
    let mut k: usize = 0;
    while k < data.len()
        invariant
            k <= data@.len(),
            out@ == sort_desc(data@.take(k as int)),
            data@ == gap_fill(orig, now as int, step as int, width as int, 0, splits as int),
        decreases data@.len() - k,
    {
        let x = data[k];
        let mut p: usize = 0;
        while p < out.len() && out[p].time >= x.time
            invariant
                p <= out@.len(),
                forall|q: int| 0 <= q < p ==> #[trigger] out@[q].time >= x.time,
            decreases out@.len() - p,
        {
            p += 1;
        }
        proof {
            lemma_insert_pos_from_scan(out@, x, p as int);
            assert(data@.take(k as int + 1).drop_last() =~= data@.take(k as int));
            assert(data@.take(k as int + 1).last() == x);
        }
        out.insert(p, x);
        k += 1;
    }
    proof {
        assert(data@.take(data@.len() as int) =~= data@);
    }
    out
}

} // verus!

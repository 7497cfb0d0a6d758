//! The monitor's store: registered sites and the append-only observation
//! log, with the queries the presentation layer reads.
//!
//! One site per alias; deleting a site removes the site and all of its
//! observations together, or nothing at all. Observations are kept in
//! order of the instant they were observed, and the bucketed queries fold
//! them into hourly or daily uptime percentages.

use vstd::prelude::*;
use crate::stats::{
    fill_data_gaps, fill_result, trunc, truncate_bucket, split_width, SplitBy, WebsiteStats,
};

verus! {

/// A monitored site: its probe URL, the unique alias that identifies it,
/// and the instant it was registered.
#[derive(Debug)]
pub struct Website {
    pub url: String,
    pub alias: String,
    pub created_at: i64,
}

impl Clone for Website {
    fn clone(&self) -> (r: Self)
        ensures
            r == *self,
    {
        Website { url: self.url.clone(), alias: self.alias.clone(), created_at: self.created_at }
    }
}

/// One recorded probe outcome: which site, what status, at what instant.
#[derive(Debug)]
pub struct Observation {
    pub site_alias: String,
    pub status: i16,
    pub observed_at: i64,
}

impl Clone for Observation {
    fn clone(&self) -> (r: Self)
        ensures
            r == *self,
    {
        Observation {
            site_alias: self.site_alias.clone(),
            status: self.status,
            observed_at: self.observed_at,
        }
    }
}

/// An observation whose status was not 200, as shown in the detail view.
#[derive(Clone, Copy, Debug, PartialEq, Eq)]
pub struct Incident {
    pub time: i64,
    pub status: i16,
}

/// Why a store operation was refused.
#[derive(Clone, Copy, Debug, PartialEq, Eq)]
pub enum StoreError {
    Validation,
    Conflict,
    NotFound,
}

/// Whether a string is a well-formed URL. What counts as well-formed is
/// decided by the URL parser behind `url_is_valid` and depends on the
/// characters of the string alone.
pub uninterp spec fn url_ok(s: Seq<char>) -> bool;

/// Relies on validator::ValidateUrl::validate_url for String, which
/// returns whether url::Url::parse accepts the string: a function of the
/// string's characters alone.
#[verifier::external_body]
fn url_is_valid(url: &String) -> (r: bool)
    ensures
        r == url_ok(url@),
{
    validator::ValidateUrl::validate_url(url)
}

/// The entries of `s` that satisfy `p`, in the order they stand in `s`.
pub open spec fn keep<A>(s: Seq<A>, p: spec_fn(A) -> bool) -> Seq<A>
    decreases s.len(),
{
    if s.len() == 0 {
        Seq::empty()
    } else if p(s.last()) {
        keep(s.drop_last(), p).push(s.last())
    } else {
        keep(s.drop_last(), p)
    }
}

/// Whether every earlier entry stands in relation `r` to every later one.
pub open spec fn pairwise<A>(s: Seq<A>, r: spec_fn(A, A) -> bool) -> bool {
    forall|i: int, j: int| 0 <= i < j < s.len() ==> r(#[trigger] s[i], #[trigger] s[j])
}

/// Every kept entry satisfies the predicate and occurs in the source.
pub proof fn lemma_keep_contains<A>(s: Seq<A>, p: spec_fn(A) -> bool)
    ensures
        keep(s, p).len() <= s.len(),
        forall|k: int|
            0 <= k < keep(s, p).len() ==> p(#[trigger] keep(s, p)[k]) && s.contains(keep(s, p)[k]),
    decreases s.len(),
{
    if s.len() > 0 {
        lemma_keep_contains(s.drop_last(), p);
        let dl = s.drop_last();
        assert forall|k: int| 0 <= k < keep(s, p).len() implies p(#[trigger] keep(s, p)[k])
            && s.contains(keep(s, p)[k]) by {
            if k < keep(dl, p).len() {
                assert(keep(s, p)[k] == keep(dl, p)[k]);
                let i = choose|i: int| 0 <= i < dl.len() && dl[i] == keep(dl, p)[k];
                assert(s[i] == keep(s, p)[k]);
            } else {
                assert(keep(s, p)[k] == s.last());
                assert(s[s.len() - 1] == s.last());
            }
        }
    }
}

/// Keeping entries preserves any relation that held pairwise.
pub proof fn lemma_keep_pairwise<A>(s: Seq<A>, p: spec_fn(A) -> bool, r: spec_fn(A, A) -> bool)
    requires
        pairwise(s, r),
    ensures
        pairwise(keep(s, p), r),
    decreases s.len(),
{
    if s.len() > 0 {
        let dl = s.drop_last();
        assert forall|i: int, j: int| 0 <= i < j < dl.len() implies r(
            #[trigger] dl[i],
            #[trigger] dl[j],
        ) by {
            assert(dl[i] == s[i]);
            assert(dl[j] == s[j]);
        }
        lemma_keep_pairwise(dl, p, r);
        if p(s.last()) {
            lemma_keep_contains(dl, p);
            let kd = keep(dl, p);
            assert forall|i: int, j: int| 0 <= i < j < keep(s, p).len() implies r(
                #[trigger] keep(s, p)[i],
                #[trigger] keep(s, p)[j],
            ) by {
                if j < kd.len() {
                    assert(keep(s, p)[i] == kd[i]);
                    assert(keep(s, p)[j] == kd[j]);
                } else {
                    assert(keep(s, p)[j] == s.last());
                    assert(keep(s, p)[i] == kd[i]);
                    let q = choose|q: int| 0 <= q < dl.len() && dl[q] == kd[i];
                    assert(dl[q] == s[q]);
                    assert(r(s[q], s[s.len() - 1]));
                }
            }
        }
    }
}

/// The predicate that keeps the observations of one site.
pub open spec fn of_alias(alias: Seq<char>) -> spec_fn(Observation) -> bool {
    |o: Observation| o.site_alias@ == alias
}

/// The predicate that keeps the observations of every other site.
pub open spec fn not_of_alias(alias: Seq<char>) -> spec_fn(Observation) -> bool {
    |o: Observation| o.site_alias@ != alias
}

/// The predicate that keeps every site but the one under `alias`.
pub open spec fn site_not_aliased(alias: Seq<char>) -> spec_fn(Website) -> bool {
    |w: Website| w.alias@ != alias
}

/// Whether no two sites share an alias.
pub open spec fn aliases_unique(sites: Seq<Website>) -> bool {
    pairwise(sites, |a: Website, b: Website| a.alias@ != b.alias@)
}

/// Whether the observations come in order of their instants.
pub open spec fn logs_sorted(logs: Seq<Observation>) -> bool {
    pairwise(logs, |a: Observation, b: Observation| a.observed_at <= b.observed_at)
}

/// Whether every observation instant is nonnegative.
pub open spec fn logs_times_ok(logs: Seq<Observation>) -> bool {
    forall|i: int| 0 <= i < logs.len() ==> 0 <= (#[trigger] logs[i]).observed_at
}

/// The registered sites and the log of observations.
pub struct Store {
    pub sites: Vec<Website>,
    pub logs: Vec<Observation>,
}

impl Store {
    /// Well-formed: one site per alias; observations ordered by instant,
    /// with nonnegative instants.
    pub open spec fn wf(self) -> bool {
        &&& aliases_unique(self.sites@)
        &&& logs_sorted(self.logs@)
        &&& logs_times_ok(self.logs@)
    }

    /// Whether some site is registered under `alias`.
    pub open spec fn has_alias(self, alias: Seq<char>) -> bool {
        exists|i: int| 0 <= i < self.sites@.len() && (#[trigger] self.sites@[i]).alias@ == alias
    }

    /// An empty store.
    pub fn new() -> (s: Store)
        ensures
            s.wf(),
            s.sites@ == Seq::<Website>::empty(),
            s.logs@ == Seq::<Observation>::empty(),
    {
        Store { sites: Vec::new(), logs: Vec::new() }
    }

    /// All registered sites, in registration order.
    pub fn list_sites(&self) -> (r: &Vec<Website>)
        ensures
            r@ == self.sites@,
    {
        &self.sites
    }

    /// Register a site under an alias. Nothing is written when the URL is
    /// malformed (`Validation`) or the alias is already taken (`Conflict`).
    pub fn insert_site(&mut self, url: String, alias: String, created_at: i64) -> (r: Result<
        (),
        StoreError,
    >)
        requires
            old(self).wf(),
        ensures
            final(self).wf(),
            final(self).logs@ == old(self).logs@,
            match r {
                Ok(()) => url_ok(url@) && !old(self).has_alias(alias@) && final(self).sites@ == old(
                    self,
                ).sites@.push(
                    (Website { url: url, alias: alias, created_at: created_at }),
                ),
                Err(e) => *final(self) == *old(self) && ((e == StoreError::Validation && !url_ok(
                    url@,
                )) || (e == StoreError::Conflict && url_ok(url@) && old(self).has_alias(alias@))),
            },
    {
        if !url_is_valid(&url) {
            return Err(StoreError::Validation);
        }
        let mut i: usize = 0;
        while i < self.sites.len()
            invariant
                0 <= i <= self.sites@.len(),
                *self == *old(self),
                self.wf(),
                url_ok(url@),
                forall|q: int| 0 <= q < i ==> (#[trigger] self.sites@[q]).alias@ != alias@,
            decreases self.sites@.len() - i,
        {
            if self.sites[i].alias == alias {
                return Err(StoreError::Conflict);
            }
            i += 1;
        }
        let ghost before = self.sites@;
        self.sites.push(Website { url, alias, created_at });
        proof {
            assert forall|a: int, b: int| 0 <= a < b < self.sites@.len() implies (
            #[trigger] self.sites@[a]).alias@ != (#[trigger] self.sites@[b]).alias@ by {
                if b < before.len() {
                    assert(self.sites@[a] == before[a]);
                    assert(self.sites@[b] == before[b]);
                } else {
                    assert(self.sites@[a] == before[a]);
                }
            }
        }
        Ok(())
    }

    /// The site registered under `alias`, or `NotFound`.
    pub fn get_site(&self, alias: &String) -> (r: Result<Website, StoreError>)
        requires
            self.wf(),
        ensures
            match r {
                Ok(w) => w.alias@ == alias@ && exists|i: int|
                    0 <= i < self.sites@.len() && #[trigger] self.sites@[i] == w,
                Err(e) => e == StoreError::NotFound && !self.has_alias(alias@),
            },
    {
        let mut i: usize = 0;
        while i < self.sites.len()
            invariant
                0 <= i <= self.sites@.len(),
                forall|q: int| 0 <= q < i ==> (#[trigger] self.sites@[q]).alias@ != alias@,
            decreases self.sites@.len() - i,
        {
            if self.sites[i].alias == *alias {
                return Ok(self.sites[i].clone());
            }
            i += 1;
        }
        Err(StoreError::NotFound)
    }
}

/// Where a new observation at instant `t` is inserted: after every
/// observation at or before `t`, so that observations at the same instant
/// keep their arrival order.
pub open spec fn obs_insert_pos(logs: Seq<Observation>, t: int) -> int
    decreases logs.len(),
{
    if logs.len() == 0 {
        0
    } else if logs[0].observed_at <= t {
        1 + obs_insert_pos(logs.drop_first(), t)
    } else {
        0
    }
}

/// The insertion point lies in the sequence; observations before it are
/// at or before `t`, and the one at it, if any, is after `t`.
pub proof fn lemma_obs_insert_pos_char(logs: Seq<Observation>, t: int)
    ensures
        0 <= obs_insert_pos(logs, t) <= logs.len(),
        forall|q: int| 0 <= q < obs_insert_pos(logs, t) ==> (#[trigger] logs[q]).observed_at <= t,
        obs_insert_pos(logs, t) < logs.len() ==> logs[obs_insert_pos(logs, t) as int].observed_at
            > t,
    decreases logs.len(),
{
    if logs.len() > 0 && logs[0].observed_at <= t {
        lemma_obs_insert_pos_char(logs.drop_first(), t);
        let p = obs_insert_pos(logs.drop_first(), t);
        assert forall|q: int| 0 <= q < obs_insert_pos(logs, t) implies (
        #[trigger] logs[q]).observed_at <= t by {
            if q > 0 {
                assert(logs.drop_first()[q - 1].observed_at <= t);
                assert(logs.drop_first()[q - 1] == logs[q]);
            }
        }
        if obs_insert_pos(logs, t) < logs.len() {
            assert(logs.drop_first()[p] == logs[p + 1]);
        }
    }
}

/// A scan that stops at the first observation after `t` stops exactly at
/// the insertion point.
pub proof fn lemma_obs_insert_pos_from_scan(logs: Seq<Observation>, t: int, p: int)
    requires
        0 <= p <= logs.len(),
        forall|q: int| 0 <= q < p ==> (#[trigger] logs[q]).observed_at <= t,
        p < logs.len() ==> logs[p].observed_at > t,
    ensures
        obs_insert_pos(logs, t) == p,
    decreases logs.len(),
{
    if logs.len() > 0 {
        if logs[0].observed_at <= t {
            assert(p >= 1);
            assert forall|q: int| 0 <= q < p - 1 implies (
            #[trigger] logs.drop_first()[q]).observed_at <= t by {
                assert(logs.drop_first()[q] == logs[q + 1]);
            }
            if p - 1 < logs.len() - 1 {
                assert(logs.drop_first()[p - 1] == logs[p]);
            }
            lemma_obs_insert_pos_from_scan(logs.drop_first(), t, p - 1);
        }
    }
}

impl Store {
    /// Record one observation. It is placed in instant order, after any
    /// observation already at the same instant.
    pub fn insert_observation(&mut self, site_alias: String, status: i16, observed_at: i64)
        requires
            old(self).wf(),
            0 <= observed_at,
        ensures
            final(self).wf(),
            final(self).sites@ == old(self).sites@,
            final(self).logs@ == old(self).logs@.insert(
                obs_insert_pos(old(self).logs@, observed_at as int),
                (Observation { site_alias: site_alias, status: status, observed_at: observed_at }),
            ),
    {
        let mut p: usize = 0;
        while p < self.logs.len() && self.logs[p].observed_at <= observed_at
            invariant
                0 <= p <= self.logs@.len(),
                *self == *old(self),
                forall|q: int| 0 <= q < p ==> (#[trigger] self.logs@[q]).observed_at <= observed_at,
            decreases self.logs@.len() - p,
        {
            p += 1;
        }
        proof {
            lemma_obs_insert_pos_from_scan(self.logs@, observed_at as int, p as int);
        }
        let ghost before = self.logs@;
        let ghost pos = p as int;
        let obs = Observation { site_alias, status, observed_at };
        self.logs.insert(p, obs);
        proof {
            before.insert_ensures(pos, obs);
            assert forall|a: int, b: int| 0 <= a < b < self.logs@.len() implies (
            #[trigger] self.logs@[a]).observed_at <= (#[trigger] self.logs@[b]).observed_at by {
                if a < pos && b == pos {
                    assert(self.logs@[a] == before[a]);
                } else if a == pos && b > pos {
                    assert(self.logs@[b] == before[b - 1]);
                    assert(before[pos].observed_at > observed_at);
                    assert(before[pos].observed_at <= before[b - 1].observed_at);
                } else if b < pos {
                    assert(self.logs@[a] == before[a]);
                    assert(self.logs@[b] == before[b]);
                } else if a > pos {
                    assert(self.logs@[a] == before[a - 1]);
                    assert(self.logs@[b] == before[b - 1]);
                } else {
                    assert(a < pos && b > pos);
                    assert(self.logs@[a] == before[a]);
                    assert(self.logs@[b] == before[b - 1]);
                    if b - 1 > pos {
                        assert(before[pos].observed_at <= before[b - 1].observed_at);
                        assert(before[a].observed_at <= observed_at);
                        assert(observed_at < before[pos].observed_at);
                    }
                }
            }
            assert forall|k: int| 0 <= k < self.logs@.len() implies 0 <= (
            #[trigger] self.logs@[k]).observed_at by {
                if k < pos {
                    assert(self.logs@[k] == before[k]);
                } else if k > pos {
                    assert(self.logs@[k] == before[k - 1]);
                }
            }
        }
    }

    /// Remove the site under `alias` together with all of its
    /// observations: either both leave, or, when the alias is unknown,
    /// nothing changes at all.
    pub fn delete_site_and_observations(&mut self, alias: &String) -> (r: Result<(), StoreError>)
        requires
            old(self).wf(),
        ensures
            final(self).wf(),
            match r {
                Ok(()) => old(self).has_alias(alias@) && final(self).sites@ == keep(
                    old(self).sites@,
                    site_not_aliased(alias@),
                ) && final(self).logs@ == keep(old(self).logs@, not_of_alias(alias@)),
                Err(e) => e == StoreError::NotFound && !old(self).has_alias(alias@) && *final(self)
                    == *old(self),
            },
    {
        let mut found = false;
        let mut i: usize = 0;
        while i < self.sites.len()
            invariant
                0 <= i <= self.sites@.len(),
                *self == *old(self),
                found == exists|q: int|
                    0 <= q < i && (#[trigger] self.sites@[q]).alias@ == alias@,
            decreases self.sites@.len() - i,
        {
            if self.sites[i].alias == *alias {
                found = true;
            }
            i += 1;
        }
        if !found {
            return Err(StoreError::NotFound);
        }
        let mut new_sites: Vec<Website> = Vec::new();
        let mut i: usize = 0;
        while i < self.sites.len()
            invariant
                0 <= i <= self.sites@.len(),
                *self == *old(self),
                new_sites@ == keep(self.sites@.take(i as int), site_not_aliased(alias@)),
            decreases self.sites@.len() - i,
        {
            proof {
                assert(self.sites@.take(i as int + 1).drop_last() =~= self.sites@.take(i as int));
                assert(self.sites@.take(i as int + 1).last() == self.sites@[i as int]);
            }
            if !(self.sites[i].alias == *alias) {
                new_sites.push(self.sites[i].clone());
            }
            i += 1;
        }
        let mut new_logs: Vec<Observation> = Vec::new();
        let mut j: usize = 0;
        while j < self.logs.len()
            invariant
                0 <= j <= self.logs@.len(),
                *self == *old(self),
                new_logs@ == keep(self.logs@.take(j as int), not_of_alias(alias@)),
            decreases self.logs@.len() - j,
        {
            proof {
                assert(self.logs@.take(j as int + 1).drop_last() =~= self.logs@.take(j as int));
                assert(self.logs@.take(j as int + 1).last() == self.logs@[j as int]);
            }
            if !(self.logs[j].site_alias == *alias) {
                new_logs.push(self.logs[j].clone());
            }
            j += 1;
        }
        proof {
            assert(self.sites@.take(self.sites@.len() as int) =~= self.sites@);
            assert(self.logs@.take(self.logs@.len() as int) =~= self.logs@);
        }
        self.sites = new_sites;
        self.logs = new_logs;
        proof {
            lemma_keep_pairwise(
                old(self).sites@,
                site_not_aliased(alias@),
                |a: Website, b: Website| a.alias@ != b.alias@,
            );
            lemma_keep_pairwise(
                old(self).logs@,
                not_of_alias(alias@),
                |a: Observation, b: Observation| a.observed_at <= b.observed_at,
            );
            lemma_keep_contains(old(self).logs@, not_of_alias(alias@));
            assert forall|k: int| 0 <= k < self.logs@.len() implies 0 <= (
            #[trigger] self.logs@[k]).observed_at by {
                let x = self.logs@[k];
                assert(old(self).logs@.contains(x));
                let q = choose|q: int| 0 <= q < old(self).logs@.len() && old(self).logs@[q] == x;
                assert(0 <= old(self).logs@[q].observed_at);
            }
        }
        Ok(())
    }
}

/// The observations of one site, oldest first.
pub open spec fn obs_of(logs: Seq<Observation>, alias: Seq<char>) -> Seq<Observation> {
    keep(logs, of_alias(alias))
}

/// The bucket starts of a sequence of observations, one per run of
/// observations that share a bucket.
pub open spec fn buckets_of(obs: Seq<Observation>, width: int) -> Seq<i64>
    decreases obs.len(),
{
    if obs.len() == 0 {
        Seq::empty()
    } else {
        let rest = buckets_of(obs.drop_last(), width);
        let b = trunc(obs.last().observed_at as int, width) as i64;
        if rest.len() > 0 && rest.last() == b {
            rest
        } else {
            rest.push(b)
        }
    }
}

/// How many observations fall into the bucket starting at `b`.
pub open spec fn count_in(obs: Seq<Observation>, b: int, width: int) -> int
    decreases obs.len(),
{
    if obs.len() == 0 {
        0
    } else {
        count_in(obs.drop_last(), b, width) + (if trunc(obs.last().observed_at as int, width)
            == b {
            1int
        } else {
            0int
        })
    }
}

/// How many observations in the bucket starting at `b` returned 200.
pub open spec fn count_ok_in(obs: Seq<Observation>, b: int, width: int) -> int
    decreases obs.len(),
{
    if obs.len() == 0 {
        0
    } else {
        count_ok_in(obs.drop_last(), b, width) + (if trunc(obs.last().observed_at as int, width)
            == b && obs.last().status == 200 {
            1int
        } else {
            0int
        })
    }
}

/// The uptime percentage of a bucket: observations with status 200 per
/// all observations in it, as a whole percentage rounded down.
pub open spec fn bucket_pct(obs: Seq<Observation>, b: int, width: int) -> int {
    100 * count_ok_in(obs, b, width) / count_in(obs, b, width)
}

/// What a bucketed query returns for one site: at most `limit` buckets,
/// in the order their runs appear, each with its uptime percentage.
pub open spec fn bucketed_result(
    logs: Seq<Observation>,
    alias: Seq<char>,
    width: int,
    limit: int,
) -> Seq<WebsiteStats> {
    let obs = obs_of(logs, alias);
    let bs = buckets_of(obs, width);
    let n = if bs.len() <= limit {
        bs.len() as int
    } else {
        limit
    };
    Seq::new(
        n as nat,
        |k: int|
            (WebsiteStats {
                time: bs[k],
                uptime_pct: Some(bucket_pct(obs, bs[k] as int, width) as i16),
            }),
    )
}

/// In any sequence of observations, at most all of them succeed.
pub proof fn lemma_counts_bounded(obs: Seq<Observation>, b: int, width: int)
    ensures
        0 <= count_ok_in(obs, b, width) <= count_in(obs, b, width) <= obs.len(),
    decreases obs.len(),
{
    if obs.len() > 0 {
        lemma_counts_bounded(obs.drop_last(), b, width);
    }
}

/// Every bucket start that the query reports holds at least one
/// observation.
pub proof fn lemma_buckets_nonempty(obs: Seq<Observation>, width: int)
    requires
        0 < width,
        forall|i: int| 0 <= i < obs.len() ==> 0 <= (#[trigger] obs[i]).observed_at,
    ensures
        forall|k: int|
            0 <= k < buckets_of(obs, width).len() ==> count_in(
                obs,
                #[trigger] buckets_of(obs, width)[k] as int,
                width,
            ) >= 1,
    decreases obs.len(),
{
    if obs.len() > 0 {
        let dl = obs.drop_last();
        assert forall|i: int| 0 <= i < dl.len() implies 0 <= (#[trigger] dl[i]).observed_at by {
            assert(dl[i] == obs[i]);
        }
        lemma_buckets_nonempty(dl, width);
        let t = obs.last().observed_at as int;
        assert(0 <= obs[obs.len() - 1].observed_at);
        crate::stats::lemma_trunc_bounds(t, width);
        assert(0 <= t % width <= t) by (nonlinear_arith)
            requires 0 <= t, 0 < width;
        let b = trunc(t, width) as i64;
        assert(b as int == trunc(t, width));
        assert forall|k: int| 0 <= k < buckets_of(obs, width).len() implies count_in(
            obs,
            #[trigger] buckets_of(obs, width)[k] as int,
            width,
        ) >= 1 by {
            let rest = buckets_of(dl, width);
            if k < rest.len() {
                assert(buckets_of(obs, width)[k] == rest[k]);
                lemma_counts_bounded(dl, rest[k] as int, width);
            } else {
                assert(buckets_of(obs, width)[k] == b);
                lemma_counts_bounded(dl, b as int, width);
            }
        }
    }
}

impl Store {
    /// The bucketed uptime series of one site: observations grouped by
    /// the bucket of `granularity` that holds them, each group reduced to
    /// its uptime percentage, at most `limit` buckets.
    pub fn bucketed_stats(&self, alias: &String, granularity: SplitBy, limit: usize) -> (r: Vec<
        WebsiteStats,
    >)
        requires
            self.wf(),
        ensures
            r@ == bucketed_result(self.logs@, alias@, split_width(granularity), limit as int),
    {
        let width: i64 = match granularity {
            SplitBy::Hour => 3600,
            SplitBy::Day => 86400,
        };
        let mut obs: Vec<Observation> = Vec::new();
        let mut i: usize = 0;
        while i < self.logs.len()
            invariant
                0 <= i <= self.logs@.len(),
                self.wf(),
                obs@ == keep(self.logs@.take(i as int), of_alias(alias@)),
            decreases self.logs@.len() - i,
        {
            proof {
                assert(self.logs@.take(i as int + 1).drop_last() =~= self.logs@.take(i as int));
                assert(self.logs@.take(i as int + 1).last() == self.logs@[i as int]);
            }
            if self.logs[i].site_alias == *alias {
                obs.push(self.logs[i].clone());
            }
            i += 1;
        }
        proof {
            assert(self.logs@.take(self.logs@.len() as int) =~= self.logs@);
            lemma_keep_contains(self.logs@, of_alias(alias@));
            assert forall|k: int| 0 <= k < obs@.len() implies 0 <= (
            #[trigger] obs@[k]).observed_at by {
                let x = obs@[k];
                assert(self.logs@.contains(x));
                let q = choose|q: int| 0 <= q < self.logs@.len() && self.logs@[q] == x;
                assert(0 <= self.logs@[q].observed_at);
            }
        }
        let mut starts: Vec<i64> = Vec::new();
        let mut j: usize = 0;
        while j < obs.len()
            invariant
                0 <= j <= obs@.len(),
                0 < width,
                starts@ == buckets_of(obs@.take(j as int), width as int),
                forall|k: int| 0 <= k < obs@.len() ==> 0 <= (#[trigger] obs@[k]).observed_at,
            decreases obs@.len() - j,
        {
            proof {
                assert(obs@.take(j as int + 1).drop_last() =~= obs@.take(j as int));
                assert(obs@.take(j as int + 1).last() == obs@[j as int]);
            }
            let t = truncate_bucket(obs[j].observed_at, width);
            proof {
                assert(t as int == trunc(obs@[j as int].observed_at as int, width as int));
                assert(trunc(obs@[j as int].observed_at as int, width as int) as i64 == t);
            }
            if starts.len() == 0 {
                starts.push(t);
            } else if !(starts[starts.len() - 1] == t) {
                starts.push(t);
            }
            j += 1;
        }
        proof {
            assert(obs@.take(obs@.len() as int) =~= obs@);
        }
        let n: usize = if starts.len() <= limit {
            starts.len()
        } else {
            limit
        };
        let mut out: Vec<WebsiteStats> = Vec::new();
        let mut k: usize = 0;
        while k < n
            invariant
                0 <= k <= n,
                0 < width,
                width == split_width(granularity),
                n == (if starts@.len() <= limit as int {
                    starts@.len() as int
                } else {
                    limit as int
                }),
                starts@ == buckets_of(obs@, width as int),
                obs@ == obs_of(self.logs@, alias@),
                forall|q: int| 0 <= q < obs@.len() ==> 0 <= (#[trigger] obs@[q]).observed_at,
                out@.len() == k,
                forall|m: int|
                    0 <= m < k ==> out@[m] == bucketed_result(
                        self.logs@,
                        alias@,
                        split_width(granularity),
                        limit as int,
                    )[m],
            decreases n - k,
        {
            let b = starts[k];
            let mut ok_cnt: u64 = 0;
            let mut tot: u64 = 0;
            let mut q: usize = 0;
            while q < obs.len()
                invariant
                    0 <= q <= obs@.len(),
                    0 < width,
                    ok_cnt == count_ok_in(obs@.take(q as int), b as int, width as int),
                    tot == count_in(obs@.take(q as int), b as int, width as int),
                    ok_cnt <= tot <= q,
                    forall|m: int| 0 <= m < obs@.len() ==> 0 <= (#[trigger] obs@[m]).observed_at,
                decreases obs@.len() - q,
            {
                proof {
                    assert(obs@.take(q as int + 1).drop_last() =~= obs@.take(q as int));
                    assert(obs@.take(q as int + 1).last() == obs@[q as int]);
                    lemma_counts_bounded(obs@.take(q as int), b as int, width as int);
                }
                let t = truncate_bucket(obs[q].observed_at, width);
                if t == b {
                    tot += 1;
                    if obs[q].status == 200 {
                        ok_cnt += 1;
                    }
                }
                q += 1;
            }
            proof {
                assert(obs@.take(obs@.len() as int) =~= obs@);
                lemma_buckets_nonempty(obs@, width as int);
                assert(count_in(obs@, b as int, width as int) >= 1);
                assert(0 <= 100 * (ok_cnt as int) / (tot as int) <= 100) by (nonlinear_arith)
                    requires
                        0 <= ok_cnt <= tot,
                        1 <= tot,
                ;
            }
            let pct128: u128 = (ok_cnt as u128) * 100 / (tot as u128);
            let pct: i16 = pct128 as i16;
            out.push(WebsiteStats { time: b, uptime_pct: Some(pct) });
            k += 1;
        }
        proof {
            assert(out@ =~= bucketed_result(
                self.logs@,
                alias@,
                split_width(granularity),
                limit as int,
            ));
        }
        out
    }
}

/// The incidents of one site: every observation whose status was not
/// 200, oldest first.
pub open spec fn incidents_of(logs: Seq<Observation>, alias: Seq<char>) -> Seq<Incident>
    decreases logs.len(),
{
    if logs.len() == 0 {
        Seq::empty()
    } else {
        let rest = incidents_of(logs.drop_last(), alias);
        let o = logs.last();
        if o.site_alias@ == alias && o.status != 200 {
            rest.push((Incident { time: o.observed_at, status: o.status }))
        } else {
            rest
        }
    }
}

/// A site's daily view: its hourly buckets over the last day, gap-filled
/// to 24 entries from `now`.
pub open spec fn daily_series(logs: Seq<Observation>, alias: Seq<char>, now: int) -> Seq<
    WebsiteStats,
> {
    fill_result(bucketed_result(logs, alias, 3600, 24), 24, 3600, 3600, now)
}

/// A site's monthly view: its daily buckets over the last month,
/// gap-filled to 30 entries from `now`.
pub open spec fn monthly_series(logs: Seq<Observation>, alias: Seq<char>, now: int) -> Seq<
    WebsiteStats,
> {
    fill_result(bucketed_result(logs, alias, 86400, 30), 30, 86400, 86400, now)
}

/// One site with its uptime series, as the overview page shows it.
#[derive(Debug)]
pub struct WebsiteInfo {
    pub url: String,
    pub alias: String,
    pub data: Vec<WebsiteStats>,
}

/// One site's detail view: its daily series, its incidents and its
/// monthly series.
#[derive(Debug)]
pub struct SingleWebsiteLog {
    pub log: WebsiteInfo,
    pub incidents: Vec<Incident>,
    pub monthly_data: Vec<WebsiteStats>,
}

impl Store {
    /// Every incident of one site, oldest first.
    pub fn incidents(&self, alias: &String) -> (r: Vec<Incident>)
        requires
            self.wf(),
        ensures
            r@ == incidents_of(self.logs@, alias@),
    {
        let mut out: Vec<Incident> = Vec::new();
        let mut i: usize = 0;
        while i < self.logs.len()
            invariant
                0 <= i <= self.logs@.len(),
                out@ == incidents_of(self.logs@.take(i as int), alias@),
            decreases self.logs@.len() - i,
        {
            proof {
                assert(self.logs@.take(i as int + 1).drop_last() =~= self.logs@.take(i as int));
                assert(self.logs@.take(i as int + 1).last() == self.logs@[i as int]);
            }
            if self.logs[i].site_alias == *alias && self.logs[i].status != 200 {
                out.push(Incident { time: self.logs[i].observed_at, status: self.logs[i].status });
            }
            i += 1;
        }
        proof {
            assert(self.logs@.take(self.logs@.len() as int) =~= self.logs@);
        }
        out
    }

    /// One site's daily view: hourly buckets, gap-filled to 24 entries
    /// walking back from `now`.
    pub fn get_daily_stats(&self, alias: &String, now: i64) -> (r: Vec<WebsiteStats>)
        requires
            self.wf(),
            86400 <= now,
        ensures
            r@ == daily_series(self.logs@, alias@, now as int),
    {
        let data = self.bucketed_stats(alias, SplitBy::Hour, 24);
        fill_data_gaps(data, 24, SplitBy::Hour, 3600, now)
    }

    /// One site's monthly view: daily buckets, gap-filled to 30 entries
    /// walking back from `now`.
    pub fn get_monthly_stats(&self, alias: &String, now: i64) -> (r: Vec<WebsiteStats>)
        requires
            self.wf(),
            2592000 <= now,
        ensures
            r@ == monthly_series(self.logs@, alias@, now as int),
    {
        let data = self.bucketed_stats(alias, SplitBy::Day, 30);
        fill_data_gaps(data, 30, SplitBy::Day, 86400, now)
    }

    /// The overview of every registered site: each with its daily series.
    pub fn get_websites(&self, now: i64) -> (r: Vec<WebsiteInfo>)
        requires
            self.wf(),
            86400 <= now,
        ensures
            r@.len() == self.sites@.len(),
            forall|i: int|
                0 <= i < r@.len() ==> (#[trigger] r@[i]).url@ == self.sites@[i].url@ && r@[i].alias@
                    == self.sites@[i].alias@ && r@[i].data@ == daily_series(
                    self.logs@,
                    self.sites@[i].alias@,
                    now as int,
                ),
    {
        let mut out: Vec<WebsiteInfo> = Vec::new();
        let mut i: usize = 0;
        while i < self.sites.len()
            invariant
                0 <= i <= self.sites@.len(),
                self.wf(),
                86400 <= now,
                out@.len() == i,
                forall|q: int|
                    0 <= q < i ==> (#[trigger] out@[q]).url@ == self.sites@[q].url@ && out@[q].alias@
                        == self.sites@[q].alias@ && out@[q].data@ == daily_series(
                        self.logs@,
                        self.sites@[q].alias@,
                        now as int,
                    ),
            decreases self.sites@.len() - i,
        {
            let site = self.sites[i].clone();
            let data = self.get_daily_stats(&site.alias, now);
            out.push(WebsiteInfo { url: site.url, alias: site.alias, data });
            i += 1;
        }
        out
    }

    /// One site's detail view under its alias: the site's URL, its daily
    /// and monthly series, and its incidents; `NotFound` for an unknown
    /// alias.
    pub fn get_website_by_alias(&self, alias: &String, now: i64) -> (r: Result<
        SingleWebsiteLog,
        StoreError,
    >)
        requires
            self.wf(),
            2592000 <= now,
        ensures
            match r {
                Ok(s) => self.has_alias(alias@) && s.log.alias@ == alias@ && (exists|i: int|
                    0 <= i < self.sites@.len() && (#[trigger] self.sites@[i]).alias@ == alias@
                        && s.log.url@ == self.sites@[i].url@) && s.log.data@ == daily_series(
                    self.logs@,
                    alias@,
                    now as int,
                ) && s.monthly_data@ == monthly_series(self.logs@, alias@, now as int)
                    && s.incidents@ == incidents_of(self.logs@, alias@),
                Err(e) => e == StoreError::NotFound && !self.has_alias(alias@),
            },
    {
        let website = match self.get_site(alias) {
            Ok(w) => w,
            Err(_) => {
                return Err(StoreError::NotFound);
            },
        };
        let last_24_hours_data = self.get_daily_stats(alias, now);
        let monthly_data = self.get_monthly_stats(alias, now);
        let incidents = self.incidents(alias);
        let log = WebsiteInfo { url: website.url, alias: website.alias, data: last_24_hours_data };
        Ok(SingleWebsiteLog { log, incidents, monthly_data })
    }
}

/// After a delete, no remaining site or observation refers to the alias:
/// what `keep` retains satisfies its predicate.
pub proof fn lemma_delete_purges(sites: Seq<Website>, logs: Seq<Observation>, alias: Seq<char>)
    ensures
        forall|k: int|
            0 <= k < keep(sites, site_not_aliased(alias)).len() ==> (#[trigger] keep(
                sites,
                site_not_aliased(alias),
            )[k]).alias@ != alias,
        forall|k: int|
            0 <= k < keep(logs, not_of_alias(alias)).len() ==> (#[trigger] keep(
                logs,
                not_of_alias(alias),
            )[k]).site_alias@ != alias,
{
    lemma_keep_contains(sites, site_not_aliased(alias));
    lemma_keep_contains(logs, not_of_alias(alias));
}

} // verus!

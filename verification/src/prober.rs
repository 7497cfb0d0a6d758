//! Per-tick probing rules: what one probe outcome records, and what one
//! tick appends to the store.
//!
//! The probing loop itself lives outside: once per interval it fetches
//! the registered sites, issues one HTTP GET per site, and hands the
//! outcomes back here. A probe that fails at the network level is an
//! outcome like any other: it is recorded under a sentinel status and
//! never stops the tick or touches another site's probe.

use vstd::prelude::*;
use crate::store::{obs_insert_pos, Observation, Store, Website};
use crate::store::{lemma_obs_insert_pos_char, lemma_obs_insert_pos_from_scan};

verus! {

/// The status recorded when the probe itself failed (connection refused,
/// timeout, DNS failure): distinct from every valid HTTP status code.
pub const FAILURE_STATUS: i16 = 0;

/// What one HTTP probe of a site came back with: a response's status
/// code, or a network-level failure with no response at all.
#[derive(Clone, Copy, Debug, PartialEq, Eq)]
pub enum ProbeOutcome {
    Status(u16),
    Failed,
}

/// The status an outcome records: a response's code verbatim, and the
/// failure sentinel for a failed probe or a code outside the HTTP range.
pub open spec fn outcome_status(o: ProbeOutcome) -> i16 {
    match o {
        ProbeOutcome::Status(c) => if c <= 999 {
            c as i16
        } else {
            FAILURE_STATUS
        },
        ProbeOutcome::Failed => FAILURE_STATUS,
    }
}

/// The status code to record for one probe outcome.
pub fn status_for_outcome(o: &ProbeOutcome) -> (s: i16)
    ensures
        s == outcome_status(*o),
{
    match o {
        ProbeOutcome::Status(c) => {
            if *c <= 999 {
                *c as i16
            } else {
                FAILURE_STATUS
            }
        },
        ProbeOutcome::Failed => FAILURE_STATUS,
    }
}

/// The observations that one tick appends: one per registered site, in
/// listing order, all at the tick's instant.
pub open spec fn tick_observations(
    sites: Seq<Website>,
    outcomes: Seq<ProbeOutcome>,
    now: i64,
) -> Seq<Observation> {
    Seq::new(
        sites.len(),
        |i: int|
            (Observation {
                site_alias: sites[i].alias,
                status: outcome_status(outcomes[i]),
                observed_at: now,
            }),
    )
}

/// Every site of a tick gets exactly one observation, at the tick's
/// instant, with the status of its own outcome: one site's failure never
/// takes another site's observation with it.
pub proof fn lemma_tick_one_observation_each(
    sites: Seq<Website>,
    outcomes: Seq<ProbeOutcome>,
    now: i64,
)
    ensures
        tick_observations(sites, outcomes, now).len() == sites.len(),
        forall|i: int|
            0 <= i < sites.len() ==> (#[trigger] tick_observations(sites, outcomes, now)[i])
                == (Observation {
                site_alias: sites[i].alias,
                status: outcome_status(outcomes[i]),
                observed_at: now,
            }),
{
}

/// Run one probing tick against the store: record, for each registered
/// site in listing order, the observation of its outcome. The sites
/// themselves do not change, and the rest of the log is kept as it was,
/// with the tick's observations inserted in instant order.
pub fn run_tick(store: &mut Store, outcomes: &Vec<ProbeOutcome>, now: i64)
    requires
        old(store).wf(),
        0 <= now,
        outcomes@.len() == old(store).sites@.len(),
    ensures
        final(store).wf(),
        final(store).sites@ == old(store).sites@,
        final(store).logs@ == old(store).logs@.subrange(
            0,
            obs_insert_pos(old(store).logs@, now as int),
        ) + tick_observations(old(store).sites@, outcomes@, now) + old(store).logs@.subrange(
            obs_insert_pos(old(store).logs@, now as int),
            old(store).logs@.len() as int,
        ),
{
    let ghost pre = old(store).logs@;
    let ghost p = obs_insert_pos(pre, now as int);
    let ghost batch = tick_observations(old(store).sites@, outcomes@, now);
    let ghost head = pre.subrange(0, p);
    let ghost tail = pre.subrange(p, pre.len() as int);
    proof {
        lemma_obs_insert_pos_char(pre, now as int);
        assert(pre =~= head + tail);
        assert forall|q: int| 0 <= q < tail.len() implies (#[trigger] tail[q]).observed_at
            > now by {
            assert(tail[q] == pre[p + q]);
            if q > 0 {
                assert(pre[p].observed_at <= pre[p + q].observed_at);
            }
        }
        assert(store.logs@ =~= head + batch.take(0) + tail);
    }
    let n = store.sites.len();
    let mut k: usize = 0;
    while k < n
        invariant
            0 <= k <= n,
            n == old(store).sites@.len(),
            outcomes@.len() == old(store).sites@.len(),
            0 <= now,
            store.wf(),
            store.sites@ == old(store).sites@,
            batch == tick_observations(old(store).sites@, outcomes@, now),
            head == pre.subrange(0, p),
            tail == pre.subrange(p, pre.len() as int),
            p == head.len(),
            forall|q: int| 0 <= q < head.len() ==> (#[trigger] head[q]).observed_at <= now,
            forall|q: int| 0 <= q < tail.len() ==> (#[trigger] tail[q]).observed_at > now,
            store.logs@ == head + batch.take(k as int) + tail,
        decreases n - k,
    {
        let alias = store.sites[k].alias.clone();
        let status = status_for_outcome(&outcomes[k]);
        let ghost cur = store.logs@;
        proof {
            assert forall|q: int| 0 <= q < p + k implies (#[trigger] cur[q]).observed_at
                <= now by {
                if q < p {
                    assert(cur[q] == head[q]);
                } else {
                    assert(cur[q] == batch.take(k as int)[q - p]);
                    assert(batch[q - p].observed_at == now);
                }
            }
            if p + k < cur.len() {
                assert(cur[p + k] == tail[0]);
            }
            lemma_obs_insert_pos_from_scan(cur, now as int, p + k);
        }
        store.insert_observation(alias, status, now);
        proof {
            let obs = Observation { site_alias: alias, status: status, observed_at: now };
            assert(obs == batch[k as int]);
            assert(store.logs@ == cur.insert(p + k, obs));
            cur.insert_ensures(p + k, obs);
            assert(store.logs@ =~= head + batch.take(k as int + 1) + tail) by {
                assert forall|q: int| 0 <= q < store.logs@.len() implies store.logs@[q] == (head
                    + batch.take(k as int + 1) + tail)[q] by {
                    if q < p + k {
                        assert(store.logs@[q] == cur[q]);
                    } else if q == p + k {
                        assert(store.logs@[q] == obs);
                    } else {
                        assert(store.logs@[q] == cur[q - 1]);
                    }
                }
            }
        }
        k += 1;
    }
    proof {
        assert(batch.take(n as int) =~= batch);
    }
}

} // verus!

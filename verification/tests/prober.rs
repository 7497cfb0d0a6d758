use uptime_ferris::prober::{run_tick, status_for_outcome, ProbeOutcome, FAILURE_STATUS};
use uptime_ferris::store::Store;

const NOW: i64 = 1_700_000_000;

#[test]
fn outcome_status_is_recorded_verbatim() {
    assert_eq!(status_for_outcome(&ProbeOutcome::Status(200)), 200);
    assert_eq!(status_for_outcome(&ProbeOutcome::Status(301)), 301);
    assert_eq!(status_for_outcome(&ProbeOutcome::Status(404)), 404);
    assert_eq!(status_for_outcome(&ProbeOutcome::Status(503)), 503);
}

#[test]
fn failed_probe_gets_the_sentinel_status() {
    assert_eq!(status_for_outcome(&ProbeOutcome::Failed), FAILURE_STATUS);
    assert_ne!(FAILURE_STATUS, 200);
}

#[test]
fn one_failing_site_does_not_take_the_others_with_it() {
    let mut store = Store::new();
    for (url, alias) in [
        ("https://one.example.com", "one"),
        ("https://two.example.com", "two"),
        ("https://three.example.com", "three"),
    ] {
        let r = store.insert_site(url.to_string(), alias.to_string(), NOW);
        assert_eq!(r, Ok(()));
    }
    let outcomes = vec![
        ProbeOutcome::Status(200),
        ProbeOutcome::Failed,
        ProbeOutcome::Status(200),
    ];
    run_tick(&mut store, &outcomes, NOW);
    assert_eq!(store.logs.len(), 3);
    for alias in ["one", "two", "three"] {
        let count = store.logs.iter().filter(|o| o.site_alias == alias).count();
        assert_eq!(count, 1);
    }
    assert_eq!(store.logs[0].site_alias, "one");
    assert_eq!(store.logs[0].status, 200);
    assert_eq!(store.logs[1].site_alias, "two");
    assert_eq!(store.logs[1].status, FAILURE_STATUS);
    assert_eq!(store.logs[2].site_alias, "three");
    assert_eq!(store.logs[2].status, 200);
    for o in store.logs.iter() {
        assert_eq!(o.observed_at, NOW);
    }
}

#[test]
fn ticks_keep_observations_in_instant_order() {
    let mut store = Store::new();
    let r = store.insert_site("https://example.com".to_string(), "ex".to_string(), NOW);
    assert_eq!(r, Ok(()));
    let outcomes = vec![ProbeOutcome::Status(200)];
    run_tick(&mut store, &outcomes, NOW);
    run_tick(&mut store, &outcomes, NOW + 60);
    run_tick(&mut store, &outcomes, NOW + 120);
    assert_eq!(store.logs.len(), 3);
    assert_eq!(store.logs[0].observed_at, NOW);
    assert_eq!(store.logs[1].observed_at, NOW + 60);
    assert_eq!(store.logs[2].observed_at, NOW + 120);
}

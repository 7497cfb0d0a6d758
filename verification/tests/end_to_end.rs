use uptime_ferris::argument_parsing::{choose_backend, Args, Backend};
use uptime_ferris::prober::{run_tick, ProbeOutcome};
use uptime_ferris::store::Store;

const NOW: i64 = 1_700_000_000;
const NOW_HOUR: i64 = 1_699_999_200;
const NOW_DAY: i64 = 1_699_920_000;

#[test]
fn register_probe_and_read_daily_stats() {
    // Register a site, run one probing tick that answers 200, and read
    // the daily series: one full bucket at the current hour, 23 empty.
    let mut store = Store::new();
    let r = store.insert_site("https://example.com".to_string(), "ex".to_string(), NOW);
    assert_eq!(r, Ok(()));
    let outcomes = vec![ProbeOutcome::Status(200)];
    run_tick(&mut store, &outcomes, NOW);

    let series = store.get_daily_stats(&"ex".to_string(), NOW);
    assert_eq!(series.len(), 24);
    assert_eq!(series[0].time, NOW_HOUR);
    assert_eq!(series[0].uptime_pct, Some(100));
    for (i, stat) in series.iter().enumerate().skip(1) {
        assert_eq!(stat.time, NOW_HOUR - 3600 * i as i64);
        assert_eq!(stat.uptime_pct, None);
    }
}

#[test]
fn detail_view_combines_series_and_incidents() {
    let mut store = Store::new();
    let r = store.insert_site("https://example.com".to_string(), "ex".to_string(), NOW);
    assert_eq!(r, Ok(()));
    run_tick(&mut store, &vec![ProbeOutcome::Status(200)], NOW - 60);
    run_tick(&mut store, &vec![ProbeOutcome::Status(500)], NOW);

    let view = store.get_website_by_alias(&"ex".to_string(), NOW).unwrap();
    assert_eq!(view.log.alias, "ex");
    assert_eq!(view.log.url, "https://example.com");
    assert_eq!(view.log.data.len(), 24);
    assert_eq!(view.log.data[0].time, NOW_HOUR);
    assert_eq!(view.log.data[0].uptime_pct, Some(50));
    assert_eq!(view.monthly_data.len(), 30);
    assert_eq!(view.monthly_data[0].time, NOW_DAY);
    assert_eq!(view.monthly_data[0].uptime_pct, Some(50));
    assert_eq!(view.incidents.len(), 1);
    assert_eq!(view.incidents[0].status, 500);
    assert_eq!(view.incidents[0].time, NOW);
}

#[test]
fn overview_lists_every_site_with_its_series() {
    let mut store = Store::new();
    store.insert_site("https://one.example.com".to_string(), "one".to_string(), NOW).unwrap();
    store.insert_site("https://two.example.com".to_string(), "two".to_string(), NOW).unwrap();
    run_tick(&mut store, &vec![ProbeOutcome::Status(200), ProbeOutcome::Failed], NOW);

    let overview = store.get_websites(NOW);
    assert_eq!(overview.len(), 2);
    assert_eq!(overview[0].alias, "one");
    assert_eq!(overview[0].data[0].uptime_pct, Some(100));
    assert_eq!(overview[1].alias, "two");
    // The failed probe's sentinel is not a 200, so the bucket shows 0%.
    assert_eq!(overview[1].data[0].uptime_pct, Some(0));
}

#[test]
fn unknown_alias_is_not_found() {
    let store = Store::new();
    let r = store.get_website_by_alias(&"ghost".to_string(), NOW);
    assert!(r.is_err());
}

#[test]
fn nonempty_postgres_string_selects_postgres() {
    let args = Args { pg: Some("postgres://localhost/uptime".to_string()), sqlite: true };
    match choose_backend(args) {
        Backend::Postgres(conn) => assert_eq!(conn, "postgres://localhost/uptime"),
        Backend::Sqlite => panic!("expected the Postgres backend"),
    }
}

#[test]
fn missing_or_empty_postgres_string_selects_sqlite() {
    let none = Args { pg: None, sqlite: true };
    assert!(matches!(choose_backend(none), Backend::Sqlite));
    let empty = Args { pg: Some(String::new()), sqlite: true };
    assert!(matches!(choose_backend(empty), Backend::Sqlite));
}

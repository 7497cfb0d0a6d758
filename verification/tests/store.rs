use uptime_ferris::store::{Store, StoreError};
use uptime_ferris::stats::SplitBy;

const NOW: i64 = 1_700_000_000;
const NOW_HOUR: i64 = 1_699_999_200;

fn store_with_site(alias: &str) -> Store {
    let mut store = Store::new();
    let r = store.insert_site("https://example.com".to_string(), alias.to_string(), NOW);
    assert_eq!(r, Ok(()));
    store
}

#[test]
fn insert_site_rejects_malformed_url() {
    let mut store = Store::new();
    let r = store.insert_site("not a url".to_string(), "ex".to_string(), NOW);
    assert_eq!(r, Err(StoreError::Validation));
    assert_eq!(store.list_sites().len(), 0);
}

#[test]
fn insert_site_rejects_duplicate_alias() {
    let mut store = store_with_site("ex");
    let r = store.insert_site("https://example.org".to_string(), "ex".to_string(), NOW);
    assert_eq!(r, Err(StoreError::Conflict));
    assert_eq!(store.list_sites().len(), 1);
    assert_eq!(store.list_sites()[0].url, "https://example.com");
}

#[test]
fn get_site_finds_registered_alias() {
    let store = store_with_site("ex");
    let site = store.get_site(&"ex".to_string()).unwrap();
    assert_eq!(site.alias, "ex");
    assert_eq!(site.url, "https://example.com");
    let missing = store.get_site(&"nope".to_string());
    assert!(matches!(missing, Err(StoreError::NotFound)));
}

#[test]
fn delete_removes_site_and_all_its_observations() {
    let mut store = store_with_site("ex");
    let r = store.insert_site("https://example.org".to_string(), "other".to_string(), NOW);
    assert_eq!(r, Ok(()));
    for i in 0..5 {
        store.insert_observation("ex".to_string(), 200, NOW + i);
        store.insert_observation("other".to_string(), 404, NOW + i);
    }
    let r = store.delete_site_and_observations(&"ex".to_string());
    assert_eq!(r, Ok(()));
    assert!(store.sites.iter().all(|w| w.alias != "ex"));
    assert!(store.logs.iter().all(|o| o.site_alias != "ex"));
    // Nothing else left with it.
    assert_eq!(store.sites.len(), 1);
    assert_eq!(store.logs.len(), 5);
}

#[test]
fn failed_delete_changes_nothing() {
    let mut store = store_with_site("ex");
    store.insert_observation("ex".to_string(), 200, NOW);
    let sites_before = store.sites.len();
    let logs_before = store.logs.len();
    let r = store.delete_site_and_observations(&"ghost".to_string());
    assert_eq!(r, Err(StoreError::NotFound));
    assert_eq!(store.sites.len(), sites_before);
    assert_eq!(store.logs.len(), logs_before);
    assert_eq!(store.sites[0].alias, "ex");
    assert_eq!(store.logs[0].site_alias, "ex");
}

#[test]
fn incidents_lists_only_failures_of_the_site() {
    let mut store = store_with_site("ex");
    store.insert_observation("ex".to_string(), 200, NOW);
    store.insert_observation("ex".to_string(), 404, NOW + 1);
    store.insert_observation("ex".to_string(), 500, NOW + 2);
    store.insert_observation("other".to_string(), 503, NOW + 3);
    let incidents = store.incidents(&"ex".to_string());
    assert_eq!(incidents.len(), 2);
    assert_eq!(incidents[0].time, NOW + 1);
    assert_eq!(incidents[0].status, 404);
    assert_eq!(incidents[1].time, NOW + 2);
    assert_eq!(incidents[1].status, 500);
}

#[test]
fn uptime_is_truncated_not_rounded_three_of_four() {
    let mut store = store_with_site("ex");
    for status in [200, 200, 200, 404] {
        store.insert_observation("ex".to_string(), status, NOW);
    }
    let stats = store.bucketed_stats(&"ex".to_string(), SplitBy::Hour, 24);
    assert_eq!(stats.len(), 1);
    assert_eq!(stats[0].time, NOW_HOUR);
    assert_eq!(stats[0].uptime_pct, Some(75));
}

#[test]
fn uptime_is_truncated_not_rounded_four_of_five() {
    let mut store = store_with_site("ex");
    for status in [200, 200, 200, 200, 404] {
        store.insert_observation("ex".to_string(), status, NOW);
    }
    let stats = store.bucketed_stats(&"ex".to_string(), SplitBy::Hour, 24);
    assert_eq!(stats.len(), 1);
    assert_eq!(stats[0].uptime_pct, Some(80));
}

#[test]
fn uptime_is_truncated_not_rounded_one_of_three() {
    let mut store = store_with_site("ex");
    for status in [200, 404, 404] {
        store.insert_observation("ex".to_string(), status, NOW);
    }
    let stats = store.bucketed_stats(&"ex".to_string(), SplitBy::Hour, 24);
    assert_eq!(stats.len(), 1);
    // 100 * 1 / 3 rounds down to 33, never up to 34.
    assert_eq!(stats[0].uptime_pct, Some(33));
}

#[test]
fn bucketed_stats_groups_by_hour_ascending() {
    let mut store = store_with_site("ex");
    store.insert_observation("ex".to_string(), 200, NOW - 2 * 3600);
    store.insert_observation("ex".to_string(), 404, NOW - 2 * 3600 + 1);
    store.insert_observation("ex".to_string(), 200, NOW);
    let stats = store.bucketed_stats(&"ex".to_string(), SplitBy::Hour, 24);
    assert_eq!(stats.len(), 2);
    assert_eq!(stats[0].time, NOW_HOUR - 2 * 3600);
    assert_eq!(stats[0].uptime_pct, Some(50));
    assert_eq!(stats[1].time, NOW_HOUR);
    assert_eq!(stats[1].uptime_pct, Some(100));
}

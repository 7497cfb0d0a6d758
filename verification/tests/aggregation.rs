use uptime_ferris::stats::{fill_data_gaps, truncate_bucket, SplitBy, WebsiteStats};

// 2023-11-14 22:13:20 UTC; its hour starts at 1_699_999_200.
const NOW: i64 = 1_700_000_000;
const NOW_HOUR: i64 = 1_699_999_200;
const NOW_DAY: i64 = 1_699_920_000;

#[test]
fn truncate_to_hour_and_day() {
    assert_eq!(truncate_bucket(NOW, 3600), NOW_HOUR);
    assert_eq!(truncate_bucket(NOW, 86400), NOW_DAY);
    assert_eq!(truncate_bucket(NOW_HOUR, 3600), NOW_HOUR);
    assert_eq!(truncate_bucket(0, 3600), 0);
    assert_eq!(truncate_bucket(3599, 3600), 0);
    assert_eq!(truncate_bucket(3600, 3600), 3600);
}

#[test]
fn empty_series_fills_to_full_hourly_window() {
    let out = fill_data_gaps(Vec::new(), 24, SplitBy::Hour, 3600, NOW);
    assert_eq!(out.len(), 24);
    for (i, stat) in out.iter().enumerate() {
        assert_eq!(stat.time, NOW_HOUR - 3600 * i as i64);
        assert_eq!(stat.uptime_pct, None);
    }
}

#[test]
fn empty_series_fills_to_full_daily_window() {
    let out = fill_data_gaps(Vec::new(), 30, SplitBy::Day, 86400, NOW);
    assert_eq!(out.len(), 30);
    for (i, stat) in out.iter().enumerate() {
        assert_eq!(stat.time, NOW_DAY - 86400 * i as i64);
        assert_eq!(stat.uptime_pct, None);
    }
}

#[test]
fn sparse_series_fills_to_exact_count_without_duplicates() {
    let data = vec![
        WebsiteStats { time: NOW_HOUR, uptime_pct: Some(100) },
        WebsiteStats { time: NOW_HOUR - 5 * 3600, uptime_pct: Some(50) },
    ];
    let out = fill_data_gaps(data, 24, SplitBy::Hour, 3600, NOW);
    assert_eq!(out.len(), 24);
    for i in 0..out.len() {
        for j in (i + 1)..out.len() {
            assert_ne!(out[i].time, out[j].time);
        }
    }
    // Most recent first, and the real buckets kept their percentages.
    assert_eq!(out[0].time, NOW_HOUR);
    assert_eq!(out[0].uptime_pct, Some(100));
    assert_eq!(out[5].time, NOW_HOUR - 5 * 3600);
    assert_eq!(out[5].uptime_pct, Some(50));
    for (i, stat) in out.iter().enumerate() {
        assert_eq!(stat.time, NOW_HOUR - 3600 * i as i64);
        if i != 0 && i != 5 {
            assert_eq!(stat.uptime_pct, None);
        }
    }
}

#[test]
fn filling_twice_with_same_now_is_identical() {
    let data = vec![
        WebsiteStats { time: NOW_HOUR - 3 * 3600, uptime_pct: Some(66) },
        WebsiteStats { time: NOW_HOUR, uptime_pct: Some(100) },
    ];
    let out1 = fill_data_gaps(data.clone(), 24, SplitBy::Hour, 3600, NOW);
    let out2 = fill_data_gaps(data, 24, SplitBy::Hour, 3600, NOW);
    assert_eq!(out1, out2);
}

#[test]
fn full_series_is_returned_unchanged() {
    // 24 buckets in ascending order: no gap to fill, order preserved.
    let mut data = Vec::new();
    for i in 0..24 {
        data.push(WebsiteStats { time: NOW_HOUR - 3600 * (23 - i), uptime_pct: Some(i as i16) });
    }
    let out = fill_data_gaps(data.clone(), 24, SplitBy::Hour, 3600, NOW);
    assert_eq!(out, data);
}

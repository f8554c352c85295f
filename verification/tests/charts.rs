use qr_engine::dec::Dec;
use qr_engine::err::Error;
use qr_engine::filter::{BucketKey, CommonFilter};
use qr_engine::group::{group_by_dates, group_by_metrics, sort_items_by_timestamp};
use qr_engine::json::JsonScalar;
use qr_engine::line_chart::{
    enumerate_day_keys, query_line_chart, LineChartQueryX, LineChartQueryY, LineChartRequest,
    XValueType,
};
use qr_engine::model::Item;
use qr_engine::pie_chart::{
    query_pie_chart, KeyValueType, PieChartCateQuery, PieChartRequest, SeriesQuery,
};
use qr_engine::plain::query_plain;
use chrono::{TimeZone, Utc};

// 2024-11-12T00:00:00Z and the day after, in epoch milliseconds
const DAY1_TS: i64 = 1731369600000;
const DAY2_TS: i64 = 1731456000000;

fn item_with(ts: i64, metrics: Vec<(String, JsonScalar)>) -> Item {
    Item {
        id: Some(1),
        ref_id: String::from("r"),
        timestamp: ts,
        name: None,
        action: String::from("a"),
        metrics,
        payload: None,
    }
}

fn visit(v: i64) -> Vec<(String, JsonScalar)> {
    vec![(String::from("visit"), JsonScalar::Int(v))]
}

fn filter_of(ts_start: Option<i64>, ts_end: Option<i64>, utc_offset: i64) -> CommonFilter {
    CommonFilter {
        bucket: BucketKey { id: None, builtin: None, builtin_ref_id: None },
        utc_offset,
        ts_start,
        ts_end,
        payload: None,
        metrics: None,
    }
}

#[test]
fn line_chart_sums_per_day() {
    let items = vec![
        item_with(DAY1_TS + 1000, visit(4)),
        item_with(DAY1_TS + 2000, visit(6)),
        item_with(DAY2_TS + 1000, visit(2)),
    ];
    let req = LineChartRequest {
        filter: filter_of(Some(DAY1_TS), Some(DAY2_TS + 86399999), 0),
        x: LineChartQueryX { x_type: XValueType::Date },
        y: vec![LineChartQueryY { metrics: String::from("visit") }],
    };
    let res = query_line_chart(&req, items).unwrap();
    assert_eq!(
        res.x.value,
        vec![String::from("20241112"), String::from("20241113")]
    );
    assert_eq!(res.y.len(), 1);
    let (name, series) = &res.y[0];
    assert_eq!(name, "visit");
    assert_eq!(series.len(), 2);
    assert_eq!(series[0].x, String::from("20241112"));
    assert_eq!(series[0].y, Dec::new(10, 0));
    assert_eq!(series[1].x, String::from("20241113"));
    assert_eq!(series[1].y, Dec::new(2, 0));
}

#[test]
fn line_chart_of_no_items_has_no_axis() {
    let req = LineChartRequest {
        filter: filter_of(Some(DAY1_TS), Some(DAY2_TS), 0),
        x: LineChartQueryX { x_type: XValueType::Date },
        y: vec![],
    };
    let res = query_line_chart(&req, vec![]).unwrap();
    assert!(res.x.value.is_empty());
    assert!(res.y.is_empty());
}

#[test]
fn day_range_is_gap_free_across_a_year_boundary() {
    // 2024-12-30 through 2025-01-02, UTC
    let ks = enumerate_day_keys(1735516800000, 1735776000000, 0).unwrap();
    assert_eq!(
        ks,
        vec![
            String::from("20241230"),
            String::from("20241231"),
            String::from("20250101"),
            String::from("20250102"),
        ]
    );
}

#[test]
fn day_keys_agree_with_chrono() {
    let samples: Vec<i64> = vec![0, 86399999, 951782400000, 1731369600000, 4102444800000];
    for ts in samples {
        let groups = group_by_dates(0, vec![item_with(ts, visit(1))]).unwrap();
        let expected = Utc.timestamp_millis_opt(ts).unwrap().format("%Y%m%d").to_string();
        assert_eq!(groups[0].key, expected);
    }
}

#[test]
fn day_grouping_respects_the_offset() {
    // 2024-11-13T00:00:00 in UTC+8 is 2024-11-12T16:00:00Z
    let ts = 1731427200000;
    let groups = group_by_dates(-480, vec![item_with(ts, visit(1))]).unwrap();
    assert_eq!(groups[0].key, String::from("20241113"));
    let groups_utc = group_by_dates(0, vec![item_with(ts, visit(1))]).unwrap();
    assert_eq!(groups_utc[0].key, String::from("20241112"));
}

#[test]
fn day_group_keys_ascend() {
    let items = vec![
        item_with(DAY2_TS, visit(1)),
        item_with(DAY1_TS, visit(2)),
        item_with(DAY2_TS + 5, visit(3)),
    ];
    let groups = group_by_dates(0, items).unwrap();
    assert_eq!(groups.len(), 2);
    assert!(groups[0].key < groups[1].key);
    assert_eq!(groups[0].items.len(), 1);
    assert_eq!(groups[1].items.len(), 2);
}

#[test]
fn grouping_rejects_bad_offsets_and_timestamps() {
    assert_eq!(
        group_by_dates(100000, vec![]).unwrap_err(),
        Error::InvalidOffset
    );
    assert_eq!(
        group_by_dates(0, vec![item_with(i64::MAX, visit(1))]).unwrap_err(),
        Error::InvalidTimestamp
    );
}

#[test]
fn pie_chart_sums_per_category() {
    let host = |h: &str, v: i64| {
        vec![
            (String::from("host"), JsonScalar::Str(String::from(h))),
            (String::from("visit"), JsonScalar::Int(v)),
        ]
    };
    let items = vec![
        item_with(DAY1_TS, host("a", 1)),
        item_with(DAY1_TS + 1, host("a", 2)),
        item_with(DAY1_TS + 2, host("b", 3)),
    ];
    let req = PieChartRequest {
        filter: filter_of(None, None, 0),
        cate: PieChartCateQuery {
            cate_type: KeyValueType::Metrics,
            metrics: Some(String::from("host")),
        },
        series: vec![SeriesQuery { metrics: String::from("visit") }],
    };
    let res = query_pie_chart(&req, items).unwrap();
    assert_eq!(res.series.len(), 1);
    assert_eq!(res.series[0].query.metrics, String::from("visit"));
    assert_eq!(
        res.series[0].data,
        vec![
            (String::from("a"), Dec::new(3, 0)),
            (String::from("b"), Dec::new(3, 0)),
        ]
    );
}

#[test]
fn pie_chart_by_metric_needs_the_category_metric() {
    let req = PieChartRequest {
        filter: filter_of(None, None, 0),
        cate: PieChartCateQuery { cate_type: KeyValueType::Metrics, metrics: None },
        series: vec![],
    };
    assert_eq!(query_pie_chart(&req, vec![]).unwrap_err(), Error::MissingMetric);
}

#[test]
fn metric_grouping_drops_non_string_values() {
    let items = vec![
        item_with(1, vec![(String::from("host"), JsonScalar::Str(String::from("a")))]),
        item_with(2, vec![(String::from("host"), JsonScalar::Int(5))]),
        item_with(3, vec![]),
    ];
    let groups = group_by_metrics(&String::from("host"), items);
    assert_eq!(groups.len(), 1);
    assert_eq!(groups[0].0, String::from("a"));
    assert_eq!(groups[0].1.len(), 1);
}

#[test]
fn plain_listing_sorts_and_restricts_metrics() {
    let items = vec![
        item_with(
            DAY2_TS,
            vec![
                (String::from("visit"), JsonScalar::Int(1)),
                (String::from("focus"), JsonScalar::Int(2)),
            ],
        ),
        item_with(DAY1_TS, visit(3)),
    ];
    let mut filter = filter_of(None, None, 0);
    filter.metrics = Some(vec![String::from("visit")]);
    let res = query_plain(filter, items);
    assert_eq!(res.version, 1);
    assert_eq!(res.items.len(), 2);
    assert_eq!(res.items[0].timestamp, DAY1_TS);
    assert_eq!(res.items[1].timestamp, DAY2_TS);
    assert_eq!(res.items[1].metrics, vec![(String::from("visit"), JsonScalar::Int(1))]);
}

#[test]
fn sorting_keeps_every_item() {
    let items = vec![item_with(5, vec![]), item_with(1, vec![]), item_with(3, vec![])];
    let sorted = sort_items_by_timestamp(items);
    let ts: Vec<i64> = sorted.iter().map(|i| i.timestamp).collect();
    assert_eq!(ts, vec![1, 3, 5]);
}

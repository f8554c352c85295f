use qr_engine::coerce::json_val_to_decimal;
use qr_engine::dec::Dec;
use qr_engine::err::Error;
use qr_engine::group_report::{
    compute_key, query_group, GroupBy, GroupMetrics, GroupRequest,
};
use qr_engine::filter::{BucketKey, CommonFilter};
use qr_engine::json::JsonScalar;
use qr_engine::model::{list_series_by_builtin, Builtin, ChartSeries, Item, Metrics, MetricsValueType};

fn filter_of() -> CommonFilter {
    CommonFilter {
        bucket: BucketKey { id: None, builtin: None, builtin_ref_id: None },
        utc_offset: 0,
        ts_start: None,
        ts_end: None,
        payload: None,
        metrics: None,
    }
}

fn item_with(ts: i64, metrics: Vec<(String, JsonScalar)>) -> Item {
    Item {
        id: Some(1),
        ref_id: String::from("r"),
        timestamp: ts,
        name: None,
        action: String::from("a"),
        metrics,
        payload: None,
    }
}

#[test]
fn decimals_parse_and_normalize() {
    assert_eq!(Dec::from_str("1.5").unwrap(), Dec::new(15, 1));
    assert_eq!(Dec::from_str("-00.50").unwrap(), Dec::new(-5, 1));
    assert_eq!(Dec::from_str("+12").unwrap(), Dec::new(12, 0));
    assert_eq!(Dec::from_str("0.000").unwrap(), Dec::new(0, 0));
    assert_eq!(Dec::from_str("abc").unwrap_err(), Error::InvalidDecimal);
    assert_eq!(Dec::from_str("").unwrap_err(), Error::InvalidDecimal);
    assert_eq!(Dec::from_str("1.").unwrap_err(), Error::InvalidDecimal);
    assert_eq!(Dec::from_str("1.2.3").unwrap_err(), Error::InvalidDecimal);
}

#[test]
fn decimal_addition_is_exact_in_range() {
    let a = Dec::from_str("1.5").unwrap();
    let b = Dec::from_str("2.25").unwrap();
    assert_eq!(a.saturating_add(b), Dec::from_str("3.75").unwrap());
    let neg = Dec::from_str("-1.5").unwrap();
    assert_eq!(a.saturating_add(neg), Dec::new(0, 0));
}

#[test]
fn decimal_division_truncates_toward_zero() {
    let ten = Dec::new(10, 0);
    assert_eq!(ten.checked_div_int(4), Dec::new(25, 1));
    let zero = Dec::new(0, 0);
    assert_eq!(zero.checked_div_int(7), Dec::new(0, 0));
}

#[test]
fn decimal_comparison_follows_value() {
    let a = Dec::from_str("1.25").unwrap();
    let b = Dec::from_str("1.3").unwrap();
    assert!(a.lt(&b));
    assert!(!b.lt(&a));
    assert_eq!(a.max_dec(b), b);
    assert_eq!(a.min_dec(b), a);
}

#[test]
fn coercion_accepts_numbers_and_strings_only() {
    assert_eq!(json_val_to_decimal(&JsonScalar::Int(-7)).unwrap(), Dec::new(-7, 0));
    assert_eq!(json_val_to_decimal(&JsonScalar::UInt(7)).unwrap(), Dec::new(7, 0));
    assert_eq!(
        json_val_to_decimal(&JsonScalar::Str(String::from("2.5"))).unwrap(),
        Dec::new(25, 1)
    );
    assert_eq!(
        json_val_to_decimal(&JsonScalar::Str(String::from("x"))).unwrap_err(),
        Error::InvalidDecimal
    );
    assert_eq!(json_val_to_decimal(&JsonScalar::Bool(true)).unwrap_err(), Error::UnsupportedType);
    assert_eq!(json_val_to_decimal(&JsonScalar::Null).unwrap_err(), Error::UnsupportedType);
}

#[test]
fn group_requests_allow_at_most_one_timing_key() {
    let req = GroupRequest {
        filter: filter_of(),
        group: vec![GroupBy::Daily, GroupBy::Monthly],
        utc_offset: Some(0),
    };
    assert_eq!(query_group(&req, vec![]).unwrap_err(), Error::InvalidGroupSpec);
    let req2 = GroupRequest { filter: filter_of(), group: vec![GroupBy::Daily], utc_offset: None };
    assert_eq!(query_group(&req2, vec![]).unwrap_err(), Error::InvalidOffset);
}

#[test]
fn group_reduces_per_metric_and_key() {
    let req = GroupRequest {
        filter: filter_of(),
        group: vec![GroupBy::Bucket],
        utc_offset: None,
    };
    let items = vec![
        (item_with(1, vec![(String::from("visit"), JsonScalar::Int(4))]), 10, None),
        (item_with(2, vec![(String::from("visit"), JsonScalar::Int(6))]), 10, None),
    ];
    let res = query_group(&req, items).unwrap();
    assert_eq!(res.version, 1);
    assert_eq!(res.metrics.len(), 1);
    let (name, groups) = &res.metrics[0];
    assert_eq!(name, "visit");
    assert_eq!(groups.len(), 1);
    assert_eq!(groups[0].group_key, vec![String::from("10")]);
    assert_eq!(groups[0].metrics.count, 2);
    assert_eq!(groups[0].metrics.sum, Dec::new(10, 0));
    assert_eq!(groups[0].metrics.min, Dec::new(4, 0));
    assert_eq!(groups[0].metrics.max, Dec::new(6, 0));
    assert_eq!(groups[0].metrics.average, Dec::new(5, 0));
}

#[test]
fn composite_keys_follow_the_request() {
    let it = item_with(1731369600000, vec![]);
    let ks = compute_key(
        &it,
        &vec![GroupBy::Yearly, GroupBy::Monthly, GroupBy::Bucket, GroupBy::Builtin],
        0,
        42,
        Some(Builtin::BrowserTime),
    )
    .unwrap();
    assert_eq!(
        ks,
        vec![
            String::from("2024"),
            String::from("202411"),
            String::from("42"),
            String::from("BrowserTime"),
        ]
    );
    let weekly = compute_key(&it, &vec![GroupBy::Weekly], 0, 42, None);
    assert_eq!(weekly.unwrap_err(), Error::NotSupported);
}

#[test]
fn running_reduction_tracks_all_five_figures() {
    let mut m = GroupMetrics::new();
    m.reduce(Dec::new(4, 0));
    m.reduce(Dec::new(-2, 0));
    assert_eq!(m.count, 2);
    assert_eq!(m.sum, Dec::new(2, 0));
    assert_eq!(m.min, Dec::new(-2, 0));
    assert_eq!(m.max, Dec::new(4, 0));
    assert_eq!(m.average, Dec::new(1, 0));
}

#[test]
fn builtin_schema_is_fixed() {
    let b = Builtin::BrowserTime;
    assert!(b.is_multiple());
    assert_eq!(b.get_default_name(), String::from("Browser Time"));
    let defs: Vec<Metrics> = b.get_metrics_def();
    assert_eq!(defs.len(), 2);
    assert_eq!(defs[0].field, String::from("visit"));
    assert!(matches!(defs[0].value_type, MetricsValueType::Count));
    assert_eq!(defs[1].field, String::from("focus"));
    let series = list_series_by_builtin(&b);
    assert_eq!(series, vec![ChartSeries::CalendarHeat, ChartSeries::Line]);
}

use qr_engine::add;
use qr_engine::agg::{count_cycle, query_indicator, AggregationMethod, IndicatorCycle, IndicatorRequest};
use qr_engine::dec::Dec;
use qr_engine::err::Error;
use qr_engine::filter::{build_clauses_and_params, bucket_query_plan, ids_for_explicit, BucketKey, CommonFilter, FilterOp, PayloadFilter};
use qr_engine::json::{JsonScalar, SqlValue};
use qr_engine::model::Item;

fn empty_key() -> BucketKey {
    BucketKey { id: None, builtin: None, builtin_ref_id: None }
}

fn filter_of(ts_start: Option<i64>, ts_end: Option<i64>, utc_offset: i64) -> CommonFilter {
    CommonFilter { bucket: empty_key(), utc_offset, ts_start, ts_end, payload: None, metrics: None }
}

pub fn item_with(ts: i64, metrics: Vec<(String, JsonScalar)>) -> Item {
    Item {
        id: Some(1),
        ref_id: String::from("r"),
        timestamp: ts,
        name: None,
        action: String::from("a"),
        metrics,
        payload: None,
    }
}

#[test]
fn it_works() {
    let result = add(2, 2);
    assert_eq!(result, 4);
}

#[test]
fn test_count_cycle() {
    let filter = CommonFilter {
        bucket: empty_key(),
        utc_offset: -480,
        ts_start: Some(1731427200000),
        ts_end: Some(1731489428526),
        payload: None,
        metrics: None,
    };
    let count = count_cycle(&vec![], &Some(IndicatorCycle::Daily), &filter);
    assert_eq!(1, count.unwrap());
}

#[test]
fn average_over_one_day_of_no_items_is_zero() {
    let req = IndicatorRequest {
        filter: CommonFilter {
            bucket: empty_key(),
            utc_offset: -480,
            ts_start: Some(1731427200000),
            ts_end: Some(1731489428526),
            payload: None,
            metrics: Some(vec![String::from("visit")]),
        },
        aggregation: AggregationMethod::Average,
        average_cycle: Some(IndicatorCycle::Daily),
    };
    let items: Vec<Item> = vec![];
    let divisor = count_cycle(&items, &req.average_cycle, &req.filter).unwrap();
    assert_eq!(divisor, 1);
    let r = query_indicator(&items, &req).unwrap();
    assert_eq!(r, Dec::new(0, 0));
}

#[test]
fn compiled_clauses_and_params_line_up() {
    let filter = CommonFilter {
        bucket: empty_key(),
        utc_offset: 0,
        ts_start: Some(1000),
        ts_end: Some(2000),
        payload: Some(vec![PayloadFilter {
            path: String::from("$.a.val"),
            op: FilterOp::Eq,
            val: Some(JsonScalar::Str(String::from("test"))),
        }]),
        metrics: None,
    };
    let (clauses, params) = build_clauses_and_params(&filter, &vec![10, 20]).unwrap();
    assert_eq!(
        clauses,
        vec![
            String::from("bucket_id in (?1, ?2)"),
            String::from("timestamp >= ?3"),
            String::from("timestamp < ?4"),
            String::from("json_field_at(payload, '$.a.val') = ?5"),
        ]
    );
    assert_eq!(
        params,
        vec![
            SqlValue::Integer(10),
            SqlValue::Integer(20),
            SqlValue::Integer(1000),
            SqlValue::Integer(2000),
            SqlValue::Text(String::from("test")),
        ]
    );
    let qmarks: usize = clauses.iter().map(|c| c.chars().filter(|ch| *ch == '?').count()).sum();
    assert_eq!(qmarks, params.len());
}

#[test]
fn empty_bucket_set_compiles_to_false() {
    let filter = filter_of(Some(1000), None, 0);
    let (clauses, params) = build_clauses_and_params(&filter, &vec![]).unwrap();
    assert_eq!(clauses, vec![String::from("false")]);
    assert!(params.is_empty());
}

#[test]
fn null_checks_bind_no_parameter() {
    let filter = CommonFilter {
        bucket: empty_key(),
        utc_offset: 0,
        ts_start: None,
        ts_end: None,
        payload: Some(vec![
            PayloadFilter { path: String::from("$.x"), op: FilterOp::IsNul, val: None },
            PayloadFilter { path: String::from("$.y"), op: FilterOp::NotNul, val: None },
        ]),
        metrics: None,
    };
    let (clauses, params) = build_clauses_and_params(&filter, &vec![7]).unwrap();
    assert_eq!(
        clauses,
        vec![
            String::from("bucket_id in (?1)"),
            String::from("json_field_at(payload, '$.x') IS NULL"),
            String::from("json_field_at(payload, '$.y') IS NOT NULL"),
        ]
    );
    assert_eq!(params, vec![SqlValue::Integer(7)]);
}

#[test]
fn invalid_json_path_is_refused() {
    let filter = CommonFilter {
        bucket: empty_key(),
        utc_offset: 0,
        ts_start: None,
        ts_end: None,
        payload: Some(vec![PayloadFilter {
            path: String::from("no dollar here"),
            op: FilterOp::Eq,
            val: Some(JsonScalar::Int(1)),
        }]),
        metrics: None,
    };
    let r = build_clauses_and_params(&filter, &vec![1]);
    assert_eq!(r, Err(Error::InvalidPath(String::from("no dollar here"))));
}

#[test]
fn comparison_values_must_be_present_scalars() {
    let mk = |val: Option<JsonScalar>| CommonFilter {
        bucket: empty_key(),
        utc_offset: 0,
        ts_start: None,
        ts_end: None,
        payload: Some(vec![PayloadFilter { path: String::from("$.a"), op: FilterOp::Neq, val }]),
        metrics: None,
    };
    assert_eq!(build_clauses_and_params(&mk(None), &vec![1]), Err(Error::AbsentValue));
    assert_eq!(
        build_clauses_and_params(&mk(Some(JsonScalar::Null)), &vec![1]),
        Err(Error::UnsupportedType)
    );
    assert_eq!(
        build_clauses_and_params(&mk(Some(JsonScalar::Obj(String::from("{}")))), &vec![1]),
        Err(Error::UnsupportedType)
    );
}

#[test]
fn filter_numbers_past_the_parser_width_are_refused() {
    // the path parser reads filter numbers as 64-bit integers; a
    // longer digit run is refused as a bad path instead of admitted
    let long = String::from("$[?(@>9223372036854775808)]");
    let filter = CommonFilter {
        bucket: empty_key(),
        utc_offset: 0,
        ts_start: None,
        ts_end: None,
        payload: Some(vec![PayloadFilter {
            path: long.clone(),
            op: FilterOp::Eq,
            val: Some(JsonScalar::Int(1)),
        }]),
        metrics: None,
    };
    let r = build_clauses_and_params(&filter, &vec![1]);
    assert_eq!(r, Err(Error::InvalidPath(long)));
    // a short filter number stays acceptable
    let ok_path = String::from("$[?(@>42)]");
    let filter2 = CommonFilter {
        bucket: empty_key(),
        utc_offset: 0,
        ts_start: None,
        ts_end: None,
        payload: Some(vec![PayloadFilter {
            path: ok_path,
            op: FilterOp::Eq,
            val: Some(JsonScalar::Int(1)),
        }]),
        metrics: None,
    };
    let (clauses, params) = build_clauses_and_params(&filter2, &vec![1]).unwrap();
    assert_eq!(clauses.len(), 2);
    assert_eq!(params.len(), 2);
}

#[test]
fn bucket_selector_classification() {
    let plan = bucket_query_plan(&BucketKey { id: Some(9), builtin: None, builtin_ref_id: None });
    assert!(matches!(plan, Ok(qr_engine::filter::BucketPlan::ById(9))));
    let bad = bucket_query_plan(&empty_key());
    assert_eq!(bad.unwrap_err(), Error::InvalidSelector);
    assert_eq!(ids_for_explicit(5, true).unwrap(), vec![5]);
    assert_eq!(ids_for_explicit(5, false).unwrap_err(), Error::NotFound);
}

#[test]
fn indicator_needs_a_metric() {
    let req = IndicatorRequest {
        filter: filter_of(None, None, 0),
        aggregation: AggregationMethod::Sum,
        average_cycle: None,
    };
    assert_eq!(query_indicator(&vec![], &req), Err(Error::MissingMetric));
}

#[test]
fn indicator_counts_items_with_the_field_present() {
    let visit = String::from("visit");
    let items = vec![
        item_with(1000, vec![(visit.clone(), JsonScalar::Int(4))]),
        item_with(2000, vec![(String::from("focus"), JsonScalar::Int(9))]),
        item_with(3000, vec![(visit.clone(), JsonScalar::Int(6))]),
    ];
    let req = IndicatorRequest {
        filter: CommonFilter {
            bucket: empty_key(),
            utc_offset: 0,
            ts_start: None,
            ts_end: None,
            payload: None,
            metrics: Some(vec![visit]),
        },
        aggregation: AggregationMethod::Count,
        average_cycle: None,
    };
    assert_eq!(query_indicator(&items, &req).unwrap(), Dec::new(2, 0));
}

#[test]
fn weekly_cycle_and_missing_range_are_refused() {
    let f = filter_of(Some(0), Some(1), 0);
    assert_eq!(count_cycle(&vec![], &Some(IndicatorCycle::Weekly), &f), Err(Error::NotSupported));
    let half = filter_of(None, Some(1), 0);
    assert_eq!(count_cycle(&vec![], &Some(IndicatorCycle::Daily), &half), Err(Error::MissingRange));
    let bad_off = filter_of(Some(0), Some(1), 100000);
    assert_eq!(count_cycle(&vec![], &Some(IndicatorCycle::Hourly), &bad_off), Err(Error::InvalidOffset));
}

#[test]
fn monthly_and_yearly_divisors_follow_the_local_calendar() {
    // 2024-11-12 through 2025-01-02, UTC
    let f = filter_of(Some(1731369600000), Some(1735776000000), 0);
    assert_eq!(count_cycle(&vec![], &Some(IndicatorCycle::Monthly), &f).unwrap(), 3);
    assert_eq!(count_cycle(&vec![], &Some(IndicatorCycle::Yearly), &f).unwrap(), 2);
}

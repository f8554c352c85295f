use vstd::prelude::*;

verus! {

use crate::err::Error;
use crate::filter::{
    build_clauses_and_params, compile_spec, payload_seq, views_of, BucketKey, CommonFilter,
    PayloadFilter,
};
use crate::json::{JsonScalar, SqlValue};
use crate::model::ChartSeries;

/// A chart request over one bucket selector and time range.
#[derive(Debug)]
pub struct ChartQueryRequest {
    pub bucket: BucketKey,
    pub ts_start: Option<i64>,
    pub ts_end: Option<i64>,
    pub payload_filter: Option<Vec<PayloadFilter>>,
    pub metrics: Option<Vec<String>>,
    pub series: ChartSeries,
}

/// A chart: the query it answered, a format version, and the chart
/// options (none are produced yet for either series style).
#[derive(Debug)]
pub struct ChartResult {
    pub query: ChartQueryRequest,
    pub version: i64,
    pub option: Vec<(String, JsonScalar)>,
}

/// The common filter a chart request stands for: same bounds and
/// predicates, day keys unshifted.
pub open spec fn chart_filter_of(req: ChartQueryRequest) -> CommonFilter {
    CommonFilter {
        bucket: req.bucket,
        utc_offset: 0,
        ts_start: req.ts_start,
        ts_end: req.ts_end,
        payload: req.payload_filter,
        metrics: req.metrics,
    }
}

/// Compiles a chart request's filter against the resolved bucket ids
/// (see `compile_spec`).
pub fn built_clauses_and_params(bucket_ids: &Vec<i64>, req: ChartQueryRequest) -> (r: (
    Result<(Vec<String>, Vec<SqlValue>), Error>,
    ChartQueryRequest,
))
    requires
        bucket_ids@.len() + payload_seq(chart_filter_of(req)).len() + 3 < usize::MAX,
    ensures
        match compile_spec(chart_filter_of(r.1), bucket_ids@) {
            Ok(t) => (r.0 matches Ok(rt) && views_of(rt.0@) == t.0 && rt.1@ == t.1),
            Err(e) => r.0 == Err::<(Vec<String>, Vec<SqlValue>), Error>(e),
        },
        r.1 == req,
{
    let ChartQueryRequest { bucket, ts_start, ts_end, payload_filter, metrics, series } = req;
    let f = CommonFilter {
        bucket,
        utc_offset: 0,
        ts_start,
        ts_end,
        payload: payload_filter,
        metrics,
    };
    let out = build_clauses_and_params(&f, bucket_ids);
    let CommonFilter { bucket, ts_start, ts_end, payload, metrics, .. } = f;
    let back = ChartQueryRequest {
        bucket,
        ts_start,
        ts_end,
        payload_filter: payload,
        metrics,
        series,
    };
    (out, back)
}

/// Builds a chart for the fetched items. Neither series style shapes
/// options yet, so the option map is empty.
pub fn query_chart(req: ChartQueryRequest, items: Vec<crate::model::Item>) -> (r: ChartResult)
    ensures
        r.version == 1,
        r.query == req,
        r.option@.len() == 0,
{
    let _ = items;
    let option: Vec<(String, JsonScalar)> = Vec::new();
    ChartResult { query: req, version: 1, option }
}

} // verus!

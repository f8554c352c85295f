use vstd::prelude::*;

verus! {

use crate::agg::{lemma_sum_err_kind, sum, sum_spec};
use crate::date::UTC_OFFSET_MAX;
use crate::dec::Dec;
use crate::err::Error;
use crate::filter::CommonFilter;
use crate::group::{all_days_in_range, day_groups_ok, day_pred, group_by_dates, group_by_metrics, metric_groups_ok, metric_pred, DayGroup};
use crate::line_chart::copy_string;
use crate::model::Item;

/// What a pie chart's categories are keyed by.
#[derive(Clone, Copy, Debug, PartialEq, Eq, Structural)]
pub enum KeyValueType {
    Date,
    Metrics,
}

/// One requested series: the metric it sums per category.
#[derive(Clone, Debug)]
pub struct SeriesQuery {
    pub metrics: String,
}

/// The category axis of a pie chart: by day, or by the string value
/// of a chosen metric.
#[derive(Clone, Debug)]
pub struct PieChartCateQuery {
    pub cate_type: KeyValueType,
    /// Required where the category is a metric.
    pub metrics: Option<String>,
}

/// A pie chart request.
#[derive(Clone, Debug)]
pub struct PieChartRequest {
    pub filter: CommonFilter,
    pub cate: PieChartCateQuery,
    pub series: Vec<SeriesQuery>,
}

/// One series: its query, and one decimal per category, in category
/// order.
#[derive(Debug)]
pub struct PieSeries {
    pub query: SeriesQuery,
    pub data: Vec<(String, Dec)>,
}

/// A pie chart: one series per requested metric.
#[derive(Debug)]
pub struct PieChartResult {
    pub series: Vec<PieSeries>,
}

/// Every series sums its metric over every category's items.
pub open spec fn pie_series_ok(
    ps: Seq<PieSeries>,
    qs: Seq<SeriesQuery>,
    cats: Seq<(String, Vec<Item>)>,
) -> bool {
    &&& ps.len() == qs.len()
    &&& forall|q: int| 0 <= q < ps.len() ==> (#[trigger] ps[q].query.metrics@) == qs[q].metrics@
    &&& forall|q: int| 0 <= q < ps.len() ==> (#[trigger] ps[q].data@).len() == cats.len()
    &&& forall|q: int, c: int|
        0 <= q < ps.len() && 0 <= c < cats.len() ==> (#[trigger] ps[q].data@[c]).0@ == cats[c].0@
    &&& forall|q: int, c: int|
        0 <= q < ps.len() && 0 <= c < cats.len() ==> Ok::<Dec, Error>(
            (#[trigger] ps[q].data@[c]).1,
        ) == sum_spec(cats[c].1@, qs[q].metrics@)
}

/// Builds the series for already-categorized items: one series per
/// requested metric, each holding that metric's sum per category.
pub fn pie_from_categories(qs: &Vec<SeriesQuery>, cats: &Vec<(String, Vec<Item>)>) -> (r: Result<
    Vec<PieSeries>,
    Error,
>)
    ensures
        r matches Ok(ps) ==> pie_series_ok(ps@, qs@, cats@),
        (forall|q: int, c: int|
            0 <= q < qs@.len() && 0 <= c < cats@.len() ==> #[trigger] sum_spec(
                cats@[c].1@,
                qs@[q].metrics@,
            ) is Ok) ==> r is Ok,
        r matches Err(e) ==> exists|q: int, c: int|
            0 <= q < qs@.len() && 0 <= c < cats@.len() && #[trigger] sum_spec(
                cats@[c].1@,
                qs@[q].metrics@,
            ) == Err::<Dec, Error>(e),
        r matches Err(e) ==> (e == Error::InvalidDecimal || e == Error::UnsupportedType),
{
    let mut ps: Vec<PieSeries> = Vec::new();
    let nq = qs.len();
    let mut q: usize = 0;
    proof {
        assert(pie_series_ok(ps@, qs@.take(0), cats@)) by {
            assert(qs@.take(0) =~= Seq::<SeriesQuery>::empty());
        }
    }
    while q < nq
        invariant
            0 <= q <= nq,
            nq == qs@.len(),
            pie_series_ok(ps@, qs@.take(q as int), cats@),
        decreases nq - q,
    {
        let metric = &qs[q].metrics;
        let mut data: Vec<(String, Dec)> = Vec::new();
        let nc = cats.len();
        let mut c: usize = 0;
        while c < nc
            invariant
                0 <= c <= nc,
                nc == cats@.len(),
                nq == qs@.len(),
                0 <= q < nq,
                metric == &qs@[q as int].metrics,
                data@.len() == c,
                forall|t: int| 0 <= t < c ==> (#[trigger] data@[t]).0@ == cats@[t].0@,
                forall|t: int|
                    0 <= t < c ==> Ok::<Dec, Error>((#[trigger] data@[t]).1) == sum_spec(
                        cats@[t].1@,
                        metric@,
                    ),
            decreases nc - c,
        {
            let s = match sum(&cats[c].1, metric) {
                Ok(s) => s,
                Err(e) => {
                    proof {
                        lemma_sum_err_kind(cats@[c as int].1@, metric@);
                        assert(sum_spec(cats@[c as int].1@, qs@[q as int].metrics@) == Err::<
                            Dec,
                            Error,
                        >(e));
                    }
                    return Err(e);
                },
            };
            data.push((copy_string(&cats[c].0), s));
            c = c + 1;
        }
        ps.push(PieSeries { query: SeriesQuery { metrics: copy_string(metric) }, data });
        proof {
            assert(qs@.take(q as int + 1).drop_last() =~= qs@.take(q as int));
        }
        q = q + 1;
    }
    proof {
        assert(qs@.take(nq as int) =~= qs@);
    }
    Ok(ps)
}

/// Turns day groups into plain category pairs, keeping order and
/// contents.
pub fn categories_of_day_groups(groups: Vec<DayGroup>) -> (r: Vec<(String, Vec<Item>)>)
    ensures
        r@ == day_cats_of(groups@),
{
    let mut src = groups;
    let mut r: Vec<(String, Vec<Item>)> = Vec::new();
    let ghost all = src@;
    let total: usize = src.len();
    let mut done: usize = 0;
    proof {
        assert(src@ =~= all.skip(0));
    }
    while src.len() > 0
        invariant
            total == all.len(),
            done + src@.len() == all.len(),
            src@ == all.skip(done as int),
            r@.len() == done,
            forall|j: int| 0 <= j < done ==> (#[trigger] r@[j]) == (all[j].key, all[j].items),
        decreases src.len(),
    {
        let g = src.remove(0);
        proof {
            assert(all.skip(done as int)[0] == all[done as int]);
            assert(all.skip(done as int).subrange(1, all.skip(done as int).len() as int) =~= all.skip(
                done as int + 1,
            ));
        }
        let DayGroup { day: _, key, items } = g;
        r.push((key, items));
        done = done + 1;
    }
    proof {
        assert(r@ =~= day_cats_of(all));
    }
    r
}

/// The day groups, as plain category pairs.
pub open spec fn day_cats_of(gds: Seq<DayGroup>) -> Seq<(String, Vec<Item>)> {
    gds.map_values(|g: DayGroup| (g.key, g.items))
}

/// The whole of a correct date-keyed pie chart for the given day
/// groups.
pub open spec fn pie_date_ok(
    res: PieChartResult,
    gds: Seq<DayGroup>,
    items: Seq<Item>,
    req: PieChartRequest,
) -> bool {
    &&& day_groups_ok(gds, items, req.filter.utc_offset as int)
    &&& pie_series_ok(res.series@, req.series@, day_cats_of(gds))
}

/// The whole of a correct value-keyed pie chart for the given
/// categories.
pub open spec fn pie_metric_ok(
    res: PieChartResult,
    cats: Seq<(String, Vec<Item>)>,
    items: Seq<Item>,
    req: PieChartRequest,
) -> bool {
    &&& req.cate.metrics is Some
    &&& metric_groups_ok(cats, items, (req.cate.metrics->0)@)
    &&& pie_series_ok(res.series@, req.series@, cats)
}

/// Some grouping of the items, of the kind the request asks for,
/// satisfies the whole pie-chart spec for this result.
pub open spec fn pie_result_exists(
    res: PieChartResult,
    items: Seq<Item>,
    req: PieChartRequest,
) -> bool {
    match req.cate.cate_type {
        KeyValueType::Date => exists|gds: Seq<DayGroup>| #[trigger] pie_date_ok(
            res,
            gds,
            items,
            req,
        ),
        KeyValueType::Metrics => exists|cats: Seq<(String, Vec<Item>)>| #[trigger] pie_metric_ok(
            res,
            cats,
            items,
            req,
        ),
    }
}

/// Every condition a pie chart needs: a valid grouping request, and
/// every series metric summing without a coercion failure on every
/// category.
pub open spec fn pie_ready(items: Seq<Item>, req: PieChartRequest) -> bool {
    let off = req.filter.utc_offset as int;
    match req.cate.cate_type {
        KeyValueType::Date => {
            &&& -UTC_OFFSET_MAX <= req.filter.utc_offset <= UTC_OFFSET_MAX
            &&& all_days_in_range(items, off)
            &&& (forall|q: int, d: int|
                0 <= q < req.series@.len() ==> #[trigger] sum_spec(
                    items.filter(day_pred(off, d)),
                    req.series@[q].metrics@,
                ) is Ok)
        },
        KeyValueType::Metrics => {
            &&& req.cate.metrics is Some
            &&& (forall|q: int, v: Seq<char>|
                0 <= q < req.series@.len() ==> #[trigger] sum_spec(
                    items.filter(metric_pred((req.cate.metrics->0)@, v)),
                    req.series@[q].metrics@,
                ) is Ok)
        },
    }
}

/// A date grouping that satisfies the whole pie-chart spec exists.
proof fn lemma_pie_date_exists(
    res: PieChartResult,
    gds: Seq<DayGroup>,
    items: Seq<Item>,
    req: PieChartRequest,
)
    requires
        pie_date_ok(res, gds, items, req),
    ensures
        exists|g2: Seq<DayGroup>| #[trigger] pie_date_ok(res, g2, items, req),
{
}

/// A value grouping that satisfies the whole pie-chart spec exists.
proof fn lemma_pie_metric_exists(
    res: PieChartResult,
    cats: Seq<(String, Vec<Item>)>,
    items: Seq<Item>,
    req: PieChartRequest,
)
    requires
        pie_metric_ok(res, cats, items, req),
    ensures
        exists|c2: Seq<(String, Vec<Item>)>| #[trigger] pie_metric_ok(res, c2, items, req),
{
}

/// Builds the pie chart: categories come from calendar days or from
/// one metric's string values; each series holds per-category sums.
pub fn query_pie_chart(req: &PieChartRequest, items: Vec<Item>) -> (r: Result<
    PieChartResult,
    Error,
>)
    ensures
        (req.cate.cate_type is Date && (req.filter.utc_offset < -UTC_OFFSET_MAX
            || req.filter.utc_offset > UTC_OFFSET_MAX)) ==> r == Err::<PieChartResult, Error>(
            Error::InvalidOffset,
        ),
        (req.cate.cate_type is Metrics && req.cate.metrics is None) ==> r == Err::<
            PieChartResult,
            Error,
        >(Error::MissingMetric),
        pie_ready(items@, *req) ==> r is Ok,
        r matches Ok(res) ==> pie_result_exists(res, items@, *req),
        r matches Err(e) ==> (e == Error::InvalidOffset || e == Error::InvalidTimestamp || e
            == Error::InvalidDecimal || e == Error::UnsupportedType || e == Error::MissingMetric),
{
    match req.cate.cate_type {
        KeyValueType::Date => {
            if req.filter.utc_offset < -UTC_OFFSET_MAX || req.filter.utc_offset > UTC_OFFSET_MAX {
                return Err(Error::InvalidOffset);
            }
            let ghost items_view = items@;
            let groups = match group_by_dates(req.filter.utc_offset, items) {
                Ok(gs) => gs,
                Err(e) => {
                    proof {
                        assert(!pie_ready(items_view, *req));
                    }
                    return Err(e);
                },
            };
            let ghost gds_view = groups@;
            let cats = categories_of_day_groups(groups);
            match pie_from_categories(&req.series, &cats) {
                Ok(ps) => {
                    let res = PieChartResult { series: ps };
                    proof {
                        assert(cats@ == day_cats_of(gds_view));
                        assert(pie_date_ok(res, gds_view, items_view, *req));
                        assert(items_view == items@);
                        lemma_pie_date_exists(res, gds_view, items@, *req);
                        assert(pie_result_exists(res, items@, *req));
                    }
                    Ok(res)
                },
                Err(e) => {
                    proof {
                        let off = req.filter.utc_offset as int;
                        let (q, c) = choose|q: int, c: int|
                            0 <= q < req.series@.len() && 0 <= c < cats@.len()
                                && #[trigger] sum_spec(cats@[c].1@, req.series@[q].metrics@)
                                == Err::<Dec, Error>(e);
                        assert(cats@[c].1 == gds_view[c].items);
                        assert(gds_view[c].items@ == items_view.filter(
                            day_pred(off, gds_view[c].day as int),
                        ));
                        assert(sum_spec(
                            items_view.filter(day_pred(off, gds_view[c].day as int)),
                            req.series@[q].metrics@,
                        ) == Err::<Dec, Error>(e));
                        assert(!pie_ready(items_view, *req));
                    }
                    Err(e)
                },
            }
        },
        KeyValueType::Metrics => {
            let m = match &req.cate.metrics {
                None => {
                    return Err(Error::MissingMetric);
                },
                Some(m) => m,
            };
            let ghost items_view = items@;
            let cats = group_by_metrics(m, items);
            match pie_from_categories(&req.series, &cats) {
                Ok(ps) => {
                    let res = PieChartResult { series: ps };
                    proof {
                        assert(metric_groups_ok(cats@, items_view, m@));
                        assert(pie_metric_ok(res, cats@, items_view, *req));
                        assert(items_view == items@);
                        lemma_pie_metric_exists(res, cats@, items@, *req);
                        assert(pie_result_exists(res, items@, *req));
                    }
                    Ok(res)
                },
                Err(e) => {
                    proof {
                        let (q, c) = choose|q: int, c: int|
                            0 <= q < req.series@.len() && 0 <= c < cats@.len()
                                && #[trigger] sum_spec(cats@[c].1@, req.series@[q].metrics@)
                                == Err::<Dec, Error>(e);
                        assert(cats@[c].1@ == items_view.filter(metric_pred(m@, cats@[c].0@)));
                        assert(sum_spec(
                            items_view.filter(metric_pred(m@, cats@[c].0@)),
                            req.series@[q].metrics@,
                        ) == Err::<Dec, Error>(e));
                        assert(!pie_ready(items_view, *req));
                    }
                    Err(e)
                },
            }
        },
    }
}

} // verus!

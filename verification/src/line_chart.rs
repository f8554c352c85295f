use vstd::prelude::*;

verus! {

use crate::agg::sum_spec;
use crate::agg::sum;
use crate::date::{
    civil_of, day_in_range, days_before_year, days_from_civil, days_in_year, day_key_of_day,
    key_chars, key_of_day, lemma_civil_unique, lemma_day_has_civil, lemma_dbm_mono,
    lemma_months_sum, lemma_next_civil, lemma_next_civil_valid, local_unit_of, local_unit_floor,
    next_civil, valid_ymd, MS_PER_DAY, UTC_OFFSET_MAX, YEAR_MAX,
};
use crate::dec::Dec;
use crate::err::Error;
use crate::filter::CommonFilter;
use crate::group::{all_days_in_range, day_groups_ok, day_pred, group_by_dates, DayGroup};
use crate::model::Item;

/// What the x axis of a line chart ranges over.
#[derive(Clone, Copy, Debug, PartialEq, Eq, Structural)]
pub enum XValueType {
    Date,
}

/// The x-axis request of a line chart.
#[derive(Clone, Copy, Debug)]
pub struct LineChartQueryX {
    pub x_type: XValueType,
}

/// One requested y series: the metric it sums.
#[derive(Clone, Debug)]
pub struct LineChartQueryY {
    pub metrics: String,
}

/// A line chart request.
#[derive(Clone, Debug)]
pub struct LineChartRequest {
    pub filter: CommonFilter,
    pub x: LineChartQueryX,
    pub y: Vec<LineChartQueryY>,
}

/// The gap-free x-axis values.
#[derive(Clone, Debug)]
pub struct LineChartResultX {
    pub value: Vec<String>,
}

/// One point of a y series.
#[derive(Clone, Debug)]
pub struct LineChartItemY {
    pub x: String,
    pub y: Dec,
}

/// A line chart: the day-key axis and one series per metric.
#[derive(Debug)]
pub struct LineChartResult {
    pub x: LineChartResultX,
    pub y: Vec<(String, Vec<LineChartItemY>)>,
}

/// The smallest timestamp among items (zero when there are none).
pub open spec fn min_ts_spec(s: Seq<Item>) -> int
    decreases s.len(),
{
    if s.len() == 0 {
        0
    } else if s.len() == 1 {
        s[0].timestamp as int
    } else {
        let m = min_ts_spec(s.drop_last());
        if s.last().timestamp < m {
            s.last().timestamp as int
        } else {
            m
        }
    }
}

/// The largest timestamp among items (zero when there are none).
pub open spec fn max_ts_spec(s: Seq<Item>) -> int
    decreases s.len(),
{
    if s.len() == 0 {
        0
    } else if s.len() == 1 {
        s[0].timestamp as int
    } else {
        let m = max_ts_spec(s.drop_last());
        if s.last().timestamp > m {
            s.last().timestamp as int
        } else {
            m
        }
    }
}

/// The smallest timestamp among the items.
pub fn min_ts(items: &Vec<Item>) -> (r: i64)
    requires
        items@.len() > 0,
    ensures
        r == min_ts_spec(items@),
{
    let mut m = items[0].timestamp;
    let mut i: usize = 1;
    proof {
        assert(items@.take(1) =~= seq![items@[0]]);
    }
    while i < items.len()
        invariant
            1 <= i <= items@.len(),
            m == min_ts_spec(items@.take(i as int)),
        decreases items@.len() - i,
    {
        proof {
            assert(items@.take(i as int + 1).drop_last() =~= items@.take(i as int));
            assert(items@.take(i as int + 1).last() == items@[i as int]);
        }
        if items[i].timestamp < m {
            m = items[i].timestamp;
        }
        i = i + 1;
    }
    proof {
        assert(items@.take(items@.len() as int) =~= items@);
    }
    m
}

/// The largest timestamp among the items.
pub fn max_ts(items: &Vec<Item>) -> (r: i64)
    requires
        items@.len() > 0,
    ensures
        r == max_ts_spec(items@),
{
    let mut m = items[0].timestamp;
    let mut i: usize = 1;
    proof {
        assert(items@.take(1) =~= seq![items@[0]]);
    }
    while i < items.len()
        invariant
            1 <= i <= items@.len(),
            m == max_ts_spec(items@.take(i as int)),
        decreases items@.len() - i,
    {
        proof {
            assert(items@.take(i as int + 1).drop_last() =~= items@.take(i as int));
            assert(items@.take(i as int + 1).last() == items@[i as int]);
        }
        if items[i].timestamp > m {
            m = items[i].timestamp;
        }
        i = i + 1;
    }
    proof {
        assert(items@.take(items@.len() as int) =~= items@);
    }
    m
}

/// Walks one calendar day at a time from the start timestamp's local
/// day to the end's, inclusive, yielding every day key in range even
/// where no item falls: line charts need an x axis with no holes.
pub fn enumerate_day_keys(start_ts: i64, end_ts: i64, utc_offset: i64) -> (r: Result<
    Vec<String>,
    Error,
>)
    requires
        -UTC_OFFSET_MAX <= utc_offset <= UTC_OFFSET_MAX,
    ensures
        ({
            let d0 = local_unit_of(start_ts as int, utc_offset as int, MS_PER_DAY as int);
            let d1 = local_unit_of(end_ts as int, utc_offset as int, MS_PER_DAY as int);
            match r {
                Ok(ks) => if d0 > d1 {
                    ks@.len() == 0
                } else {
                    &&& day_in_range(d0)
                    &&& day_in_range(d1)
                    &&& ks@.len() == d1 - d0 + 1
                    &&& forall|i: int| 0 <= i < ks@.len() ==> (#[trigger] ks@[i]@) == key_of_day(d0 + i)
                },
                Err(e) => e == Error::InvalidTimestamp && d0 <= d1 && (!day_in_range(d0)
                    || !day_in_range(d1)),
            }
        }),
{
    let d0 = local_unit_floor(start_ts, utc_offset, MS_PER_DAY);
    let d1 = local_unit_floor(end_ts, utc_offset, MS_PER_DAY);
    let mut ks: Vec<String> = Vec::new();
    if d0 > d1 {
        return Ok(ks);
    }
    // the endpoints decide the whole interval
    match day_key_of_day(d0) {
        None => {
            return Err(Error::InvalidTimestamp);
        },
        Some(_) => {},
    }
    match day_key_of_day(d1) {
        None => {
            return Err(Error::InvalidTimestamp);
        },
        Some(_) => {},
    }
    proof {
        crate::date::lemma_dby_bounds(1970);
        crate::date::lemma_dby_bounds(10000);
    }
    let mut d = d0;
    while d <= d1
        invariant
            d0 <= d <= d1 + 1,
            d1 < 4000000,
            day_in_range(d0 as int),
            day_in_range(d1 as int),
            ks@.len() == d - d0,
            forall|i: int| 0 <= i < ks@.len() ==> (#[trigger] ks@[i]@) == key_of_day(d0 + i),
        decreases d1 + 1 - d,
    {
        match day_key_of_day(d) {
            None => {
                proof {
                    assert(day_in_range(d as int));
                    assert(false);
                }
                return Err(Error::InvalidTimestamp);
            },
            Some(k) => {
                ks.push(k);
            },
        }
        d = d + 1;
    }
    Ok(ks)
}

/// The enumerated range is gap-free: for any two adjacent entries,
/// the key of the calendar day after the first's date is the second.
pub proof fn lemma_day_range_gap_free(ks: Seq<Seq<char>>, d0: int)
    requires
        forall|i: int| 0 <= i < ks.len() ==> (#[trigger] ks[i]) == key_of_day(d0 + i),
        forall|dd: int| d0 <= dd < d0 + ks.len() ==> #[trigger] day_in_range(dd),
    ensures
        forall|i: int|
            0 <= i < ks.len() - 1 ==> (#[trigger] ks[i + 1]) == ({
                let c = civil_of(d0 + i);
                let n = next_civil(c.0, c.1, c.2);
                key_chars(n.0, n.1, n.2)
            }),
{
    assert forall|i: int| 0 <= i < ks.len() - 1 implies (#[trigger] ks[i + 1]) == ({
        let c = civil_of(d0 + i);
        let n = next_civil(c.0, c.1, c.2);
        key_chars(n.0, n.1, n.2)
    }) by {
        assert(day_in_range(d0 + i));
        assert(day_in_range(d0 + i + 1));
        lemma_day_has_civil(d0 + i);
        lemma_day_has_civil(d0 + i + 1);
        let c = civil_of(d0 + i);
        assert(valid_ymd(c.0, c.1, c.2) && days_from_civil(c.0, c.1, c.2) == d0 + i);
        let e = days_before_year(1970);
        if c.0 == YEAR_MAX && c.1 == 12 && c.2 == 31 {
            // the last supported day has no in-range successor
            lemma_months_sum(YEAR_MAX as int);
            lemma_dbm_mono(YEAR_MAX as int, 12, 13);
            assert(days_before_year(10000) == days_before_year(YEAR_MAX as int) + days_in_year(
                YEAR_MAX as int,
            ));
            assert(days_from_civil(c.0, c.1, c.2) == days_before_year(10000) - 1 - e);
            assert(false);
        }
        lemma_next_civil_valid(c.0, c.1, c.2);
        lemma_next_civil(c.0, c.1, c.2);
        let n = next_civil(c.0, c.1, c.2);
        let c2 = civil_of(d0 + i + 1);
        assert(valid_ymd(c2.0, c2.1, c2.2) && days_from_civil(c2.0, c2.1, c2.2) == d0 + i + 1);
        lemma_civil_unique(c2.0, c2.1, c2.2, n.0, n.1, n.2);
    }
}

/// The per-day series a line chart carries for the given groups.
pub open spec fn line_series_ok(
    ys: Seq<(String, Vec<LineChartItemY>)>,
    qs: Seq<LineChartQueryY>,
    gds: Seq<DayGroup>,
) -> bool {
    &&& ys.len() == qs.len()
    &&& forall|q: int| 0 <= q < ys.len() ==> (#[trigger] ys[q].0@) == qs[q].metrics@
    &&& forall|q: int| 0 <= q < ys.len() ==> (#[trigger] ys[q].1@).len() == gds.len()
    &&& forall|q: int, g: int|
        0 <= q < ys.len() && 0 <= g < gds.len() ==> (#[trigger] ys[q].1@[g]).x@ == gds[g].key@
    &&& forall|q: int, g: int|
        0 <= q < ys.len() && 0 <= g < gds.len() ==> Ok::<Dec, Error>((#[trigger] ys[q].1@[g]).y)
            == sum_spec(gds[g].items@, qs[q].metrics@)
}

/// The whole of a correct line chart for the given day groups.
pub open spec fn line_result_ok(
    res: LineChartResult,
    gds: Seq<DayGroup>,
    items: Seq<Item>,
    req: LineChartRequest,
) -> bool {
    &&& day_groups_ok(gds, items, req.filter.utc_offset as int)
    &&& line_series_ok(res.y@, req.y@, gds)
    &&& (items.len() == 0 ==> res.x.value@.len() == 0)
    &&& (items.len() > 0 ==> ({
        let bs = if req.filter.ts_start is Some {
            req.filter.ts_start->0 as int
        } else {
            min_ts_spec(items)
        };
        let be = if req.filter.ts_end is Some {
            req.filter.ts_end->0 as int
        } else {
            max_ts_spec(items)
        };
        let d0 = local_unit_of(bs, req.filter.utc_offset as int, MS_PER_DAY as int);
        let d1 = local_unit_of(be, req.filter.utc_offset as int, MS_PER_DAY as int);
        if d0 > d1 {
            res.x.value@.len() == 0
        } else {
            res.x.value@.len() == d1 - d0 + 1 && forall|i: int|
                0 <= i < res.x.value@.len() ==> (#[trigger] res.x.value@[i]@) == key_of_day(d0 + i)
        }
    }))
}

/// Some day grouping of the items satisfies the whole line-chart
/// spec for this result.
pub open spec fn line_result_exists(
    res: LineChartResult,
    items: Seq<Item>,
    req: LineChartRequest,
) -> bool {
    exists|gds: Seq<DayGroup>| #[trigger] line_result_ok(res, gds, items, req)
}

/// A grouping that satisfies the whole line-chart spec exists.
proof fn lemma_line_exists(
    res: LineChartResult,
    gds: Seq<DayGroup>,
    items: Seq<Item>,
    req: LineChartRequest,
)
    requires
        line_result_ok(res, gds, items, req),
    ensures
        exists|g2: Seq<DayGroup>| #[trigger] line_result_ok(res, g2, items, req),
{
}

/// Builds the y series for already-grouped items: one series per
/// requested metric, one point per day group, each point the sum of
/// that metric over the group's items.
pub fn line_chart_from_groups(qs: &Vec<LineChartQueryY>, groups: &Vec<DayGroup>) -> (r: Result<
    Vec<(String, Vec<LineChartItemY>)>,
    Error,
>)
    ensures
        r matches Ok(ys) ==> line_series_ok(ys@, qs@, groups@),
        (forall|q: int, g: int|
            0 <= q < qs@.len() && 0 <= g < groups@.len() ==> #[trigger] sum_spec(
                groups@[g].items@,
                qs@[q].metrics@,
            ) is Ok) ==> r is Ok,
        r matches Err(e) ==> exists|q: int, g: int|
            0 <= q < qs@.len() && 0 <= g < groups@.len() && #[trigger] sum_spec(
                groups@[g].items@,
                qs@[q].metrics@,
            ) == Err::<Dec, Error>(e),
        r matches Err(e) ==> (e == Error::InvalidDecimal || e == Error::UnsupportedType),
{
    let mut ys: Vec<(String, Vec<LineChartItemY>)> = Vec::new();
    let nq = qs.len();
    let mut q: usize = 0;
    proof {
        assert(line_series_ok(ys@, qs@.take(0), groups@)) by {
            assert(qs@.take(0) =~= Seq::<LineChartQueryY>::empty());
        }
    }
    while q < nq
        invariant
            0 <= q <= nq,
            nq == qs@.len(),
            line_series_ok(ys@, qs@.take(q as int), groups@),
        decreases nq - q,
    {
        let metric = &qs[q].metrics;
        let mut series: Vec<LineChartItemY> = Vec::new();
        let ng = groups.len();
        let mut g: usize = 0;
        while g < ng
            invariant
                0 <= g <= ng,
                ng == groups@.len(),
                nq == qs@.len(),
                0 <= q < nq,
                metric == &qs@[q as int].metrics,
                series@.len() == g,
                forall|t: int|
                    0 <= t < g ==> (#[trigger] series@[t]).x@ == groups@[t].key@,
                forall|t: int|
                    0 <= t < g ==> Ok::<Dec, Error>((#[trigger] series@[t]).y) == sum_spec(
                        groups@[t].items@,
                        metric@,
                    ),
            decreases ng - g,
        {
            let s = match sum(&groups[g].items, metric) {
                Ok(s) => s,
                Err(e) => {
                    proof {
                        crate::agg::lemma_sum_err_kind(groups@[g as int].items@, metric@);
                        assert(sum_spec(groups@[g as int].items@, qs@[q as int].metrics@)
                            == Err::<Dec, Error>(e));
                    }
                    return Err(e);
                },
            };
            let key_copy = copy_string(&groups[g].key);
            series.push(LineChartItemY { x: key_copy, y: s });
            g = g + 1;
        }
        let name_copy = copy_string(metric);
        ys.push((name_copy, series));
        proof {
            assert(qs@.take(q as int + 1).drop_last() =~= qs@.take(q as int));
        }
        q = q + 1;
    }
    proof {
        assert(qs@.take(nq as int) =~= qs@);
    }
    Ok(ys)
}

/// Every condition a line chart needs: the offset forms a valid
/// fixed timezone, every item day is on the supported calendar, the
/// x-axis bounds (where items exist and the range is nonempty) are
/// too, and every requested metric sums without a coercion failure
/// on every day.
pub open spec fn line_ready(items: Seq<Item>, req: LineChartRequest) -> bool {
    let off = req.filter.utc_offset as int;
    &&& -UTC_OFFSET_MAX <= req.filter.utc_offset <= UTC_OFFSET_MAX
    &&& all_days_in_range(items, off)
    &&& (forall|q: int, d: int|
        0 <= q < req.y@.len() ==> #[trigger] sum_spec(
            items.filter(day_pred(off, d)),
            req.y@[q].metrics@,
        ) is Ok)
    &&& (items.len() > 0 ==> ({
        let bs = if req.filter.ts_start is Some {
            req.filter.ts_start->0 as int
        } else {
            min_ts_spec(items)
        };
        let be = if req.filter.ts_end is Some {
            req.filter.ts_end->0 as int
        } else {
            max_ts_spec(items)
        };
        let d0 = local_unit_of(bs, off, MS_PER_DAY as int);
        let d1 = local_unit_of(be, off, MS_PER_DAY as int);
        d0 <= d1 ==> (day_in_range(d0) && day_in_range(d1))
    }))
}

/// Builds the line chart for the fetched items: the x axis spans the
/// filter's range (or the items' own), gap-free, and the y series are
/// the per-day metric sums of `line_chart_from_groups`, over the
/// day grouping of `group_by_dates`.
pub fn query_line_chart(req: &LineChartRequest, items: Vec<Item>) -> (r: Result<
    LineChartResult,
    Error,
>)
    ensures
        (req.filter.utc_offset < -UTC_OFFSET_MAX || req.filter.utc_offset > UTC_OFFSET_MAX) ==> r
            == Err::<LineChartResult, Error>(Error::InvalidOffset),
        line_ready(items@, *req) ==> r is Ok,
        r matches Ok(res) ==> line_result_exists(res, items@, *req),
        r matches Err(e) ==> (e == Error::InvalidOffset || e == Error::InvalidTimestamp || e
            == Error::InvalidDecimal || e == Error::UnsupportedType),
{
    let offset = req.filter.utc_offset;
    if offset < -UTC_OFFSET_MAX || offset > UTC_OFFSET_MAX {
        return Err(Error::InvalidOffset);
    }
    let x_values: Vec<String> = if items.len() == 0 {
        Vec::new()
    } else {
        let bs = match req.filter.ts_start {
            Some(t) => t,
            None => min_ts(&items),
        };
        let be = match req.filter.ts_end {
            Some(t) => t,
            None => max_ts(&items),
        };
        match enumerate_day_keys(bs, be, offset) {
            Ok(ks) => ks,
            Err(e) => {
                proof {
                    assert(!line_ready(items@, *req));
                }
                return Err(e);
            },
        }
    };
    let ghost items_view = items@;
    let groups = match group_by_dates(offset, items) {
        Ok(gs) => gs,
        Err(e) => {
            return Err(e);
        },
    };
    let ys = match line_chart_from_groups(&req.y, &groups) {
        Ok(ys) => ys,
        Err(e) => {
            return Err(e);
        },
    };
    let res = LineChartResult { x: LineChartResultX { value: x_values }, y: ys };
    proof {
        assert(line_result_ok(res, groups@, items_view, *req));
        assert(items_view == items@);
        lemma_line_exists(res, groups@, items@, *req);
        assert(line_result_exists(res, items@, *req));
    }
    Ok(res)
}

/// A character-identical copy of a string.
pub fn copy_string(s: &String) -> (r: String)
    ensures
        r@ == s@,
{
    let mut r = String::new();
    r.append(s.as_str());
    r
}

} // verus!

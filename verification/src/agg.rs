use vstd::prelude::*;

verus! {

use crate::coerce::{coerce_spec, json_to_decimal};
use crate::date::{
    civil_of, day_in_range, local_unit_of, civil_from_days, local_unit_floor, lemma_civil_unique,
    valid_ymd, days_from_civil, MS_PER_DAY, MS_PER_HOUR, UTC_OFFSET_MAX,
};
use crate::dec::{div_int_spec, norm_spec, Dec};
use crate::err::Error;
use crate::filter::CommonFilter;
use crate::model::{map_get, Item};

/// How an indicator reduces its item set.
#[derive(Clone, Copy, Debug, PartialEq, Eq, Structural)]
pub enum AggregationMethod {
    Sum,
    Average,
    Count,
}

/// The calendar granularity an average's divisor is drawn from.
#[derive(Clone, Copy, Debug, PartialEq, Eq, Structural)]
pub enum IndicatorCycle {
    Hourly,
    Daily,
    Weekly,
    Monthly,
    Yearly,
}

/// A request for one scalar aggregate over a filtered item set.
#[derive(Clone, Debug)]
pub struct IndicatorRequest {
    pub filter: CommonFilter,
    pub aggregation: AggregationMethod,
    pub average_cycle: Option<IndicatorCycle>,
}

/// What summing a metric over items yields: the fold of saturating
/// addition over each item's coerced value, an absent value counting
/// as zero; the first coercion failure propagates.
pub open spec fn sum_spec(items: Seq<Item>, k: Seq<char>) -> Result<Dec, Error>
    decreases items.len(),
{
    if items.len() == 0 {
        Ok(Dec::zero_spec())
    } else {
        match sum_spec(items.drop_last(), k) {
            Err(e) => Err(e),
            Ok(acc) => match coerce_spec(map_get(items.last().metrics@, k), true) {
                Err(e) => Err(e),
                Ok(v) => Ok(acc.add_spec(v)),
            },
        }
    }
}

/// A failing sum fails only on a value of an unsupported kind or an
/// unparseable decimal.
pub proof fn lemma_sum_err_kind(items: Seq<Item>, k: Seq<char>)
    ensures
        sum_spec(items, k) matches Err(e) ==> (e == Error::InvalidDecimal || e
            == Error::UnsupportedType),
    decreases items.len(),
{
    if items.len() > 0 {
        lemma_sum_err_kind(items.drop_last(), k);
    }
}

/// A failing prefix decides the whole sum.
proof fn lemma_sum_prefix_err(items: Seq<Item>, k: Seq<char>, i: int)
    requires
        0 <= i <= items.len(),
        sum_spec(items.take(i), k) is Err,
    ensures
        sum_spec(items, k) == sum_spec(items.take(i), k),
    decreases items.len() - i,
{
    if i < items.len() {
        assert(items.take(i + 1).drop_last() =~= items.take(i));
        lemma_sum_prefix_err(items, k, i + 1);
    } else {
        assert(items.take(i) =~= items);
    }
}

/// Folds a metric's values with saturating decimal addition; the sum
/// of no items is zero.
pub fn sum(items: &Vec<Item>, metrics: &String) -> (r: Result<Dec, Error>)
    ensures
        r == sum_spec(items@, metrics@),
        r matches Ok(d) ==> d.wf(),
{
    let mut acc = Dec::zero();
    let n = items.len();
    let mut i: usize = 0;
    proof {
        assert(items@.take(0) =~= Seq::<Item>::empty());
    }
    while i < n
        invariant
            0 <= i <= n,
            n == items@.len(),
            acc.wf(),
            sum_spec(items@.take(i as int), metrics@) == Ok::<Dec, Error>(acc),
        decreases n - i,
    {
        proof {
            assert(items@.take(i as int + 1).drop_last() =~= items@.take(i as int));
            assert(items@.take(i as int + 1).last() == items@[i as int]);
        }
        let v = items[i].metric(metrics);
        match json_to_decimal(v, true) {
            Err(e) => {
                proof {
                    lemma_sum_prefix_err(items@, metrics@, i as int + 1);
                }
                return Err(e);
            },
            Ok(d) => {
                acc = acc.saturating_add(d);
            },
        }
        i = i + 1;
    }
    proof {
        assert(items@.take(n as int) =~= items@);
    }
    Ok(acc)
}

/// The item's metric coerces to a whole-number decimal within `bound`.
pub open spec fn small_int_val(it: Item, k: Seq<char>, bound: int) -> bool {
    match coerce_spec(map_get(it.metrics@, k), true) {
        Ok(d) => d.e == 0 && -bound <= d.m <= bound,
        Err(_) => false,
    }
}

/// The whole-number total of the items' metric values.
pub open spec fn msum(items: Seq<Item>, k: Seq<char>) -> int
    decreases items.len(),
{
    if items.len() == 0 {
        0
    } else {
        msum(items.drop_last(), k) + (match coerce_spec(
            map_get(items.last().metrics@, k),
            true,
        ) {
            Ok(d) => d.m as int,
            Err(_) => 0,
        })
    }
}

/// On whole-number values with a bounded total, the sum is exactly
/// the total, at scale zero.
proof fn lemma_sum_int(items: Seq<Item>, k: Seq<char>, bound: int)
    requires
        0 <= bound,
        items.len() * bound <= crate::dec::DEC_MANTISSA_MAX,
        forall|i: int| 0 <= i < items.len() ==> small_int_val(#[trigger] items[i], k, bound),
    ensures
        sum_spec(items, k) == Ok::<Dec, Error>(
            Dec { m: msum(items, k) as i128, e: 0 },
        ),
        -(items.len() * bound) <= msum(items, k) <= items.len() * bound,
    decreases items.len(),
{
    if items.len() == 0 {
    } else {
        let rest = items.drop_last();
        assert(forall|i: int|
            0 <= i < rest.len() ==> small_int_val(#[trigger] rest[i], k, bound)) by {
            assert(forall|i: int| 0 <= i < rest.len() ==> rest[i] == items[i]);
        }
        assert(rest.len() * bound <= items.len() * bound) by (nonlinear_arith)
            requires
                0 <= bound,
                rest.len() == items.len() - 1,
        ;
        lemma_sum_int(rest, k, bound);
        let acc = Dec { m: msum(rest, k) as i128, e: 0 };
        assert(small_int_val(items.last(), k, bound)) by {
            assert(items[items.len() - 1] == items.last());
        }
        let d = coerce_spec(map_get(items.last().metrics@, k), true)->Ok_0;
        assert((items.len() - 1) * bound + bound == items.len() * bound) by (nonlinear_arith);
        assert(acc.wf() && d.wf());
        assert(acc.add_exact_ok(d)) by {
            assert(crate::dec::pow10(0) == 1);
        }
        crate::dec::lemma_add_spec_exact(acc, d);
        let s = Dec { m: (msum(rest, k) + d.m) as i128, e: 0 };
        assert(s.wf());
        assert(acc.add_spec(d).val28() == s.val28()) by {
            crate::dec::lemma_pow10_pos(28);
            assert((acc.m + d.m) * crate::dec::pow10(28) == acc.m * crate::dec::pow10(28) + d.m
                * crate::dec::pow10(28)) by (nonlinear_arith);
        }
        crate::dec::lemma_val28_injective(acc.add_spec(d), s);
    }
}

/// Removing one item takes exactly its value out of the total.
proof fn lemma_msum_remove(items: Seq<Item>, k: Seq<char>, j: int)
    requires
        0 <= j < items.len(),
    ensures
        msum(items, k) == msum(items.remove(j), k) + (match coerce_spec(
            map_get(items[j].metrics@, k),
            true,
        ) {
            Ok(d) => d.m as int,
            Err(_) => 0,
        }),
    decreases items.len(),
{
    if j == items.len() - 1 {
        assert(items.remove(j) =~= items.drop_last());
    } else {
        assert(items.remove(j).drop_last() =~= items.drop_last().remove(j));
        assert(items.remove(j).last() == items.last());
        lemma_msum_remove(items.drop_last(), k, j);
        assert(items.drop_last()[j] == items[j]);
    }
}

/// The total does not depend on the order of the items.
proof fn lemma_msum_perm(s1: Seq<Item>, s2: Seq<Item>, k: Seq<char>)
    requires
        s1.to_multiset() == s2.to_multiset(),
    ensures
        msum(s1, k) == msum(s2, k),
    decreases s1.len(),
{
    broadcast use vstd::seq_lib::group_to_multiset_ensures, vstd::multiset::group_multiset_axioms;

    if s1.len() == 0 {
        assert(s1.to_multiset().len() == s1.len());
        assert(s2.to_multiset().len() == s2.len());
        assert(s2.len() == 0);
    } else {
        let a = s1.last();
        assert(s1[s1.len() - 1] == a);
        assert(s1.contains(a));
        assert(s1.to_multiset().count(a) > 0);
        assert(s2.to_multiset().count(a) > 0);
        assert(s2.contains(a));
        let j = choose|t: int| 0 <= t < s2.len() && s2[t] == a;
        lemma_msum_remove(s2, k, j);
        assert(s1.drop_last().push(a) =~= s1);
        assert(s1.drop_last().push(a).to_multiset() =~= s1.drop_last().to_multiset().insert(a));
        assert(s2.remove(j).to_multiset() =~= s2.to_multiset().remove(a));
        assert(s1.drop_last().to_multiset() =~= s2.remove(j).to_multiset());
        lemma_msum_perm(s1.drop_last(), s2.remove(j), k);
    }
}

/// Summing a metric does not depend on the order of the items, as
/// long as the values are whole numbers whose total cannot leave the
/// representable range at any point. (Saturation or shed precision
/// can make a reordered sum differ, so such inputs are left out.)
pub proof fn lemma_sum_reorder(items1: Seq<Item>, items2: Seq<Item>, k: Seq<char>, bound: int)
    requires
        items1.to_multiset() == items2.to_multiset(),
        0 <= bound,
        items1.len() * bound <= crate::dec::DEC_MANTISSA_MAX,
        forall|i: int| 0 <= i < items1.len() ==> small_int_val(#[trigger] items1[i], k, bound),
    ensures
        sum_spec(items1, k) == sum_spec(items2, k),
{
    broadcast use vstd::seq_lib::group_to_multiset_ensures, vstd::multiset::group_multiset_axioms;

    assert(items1.len() == items2.len()) by {
        assert(items1.to_multiset().len() == items1.len());
        assert(items2.to_multiset().len() == items2.len());
    }
    assert(forall|i: int|
        0 <= i < items2.len() ==> small_int_val(#[trigger] items2[i], k, bound)) by {
        assert forall|i: int|
            0 <= i < items2.len() implies small_int_val(#[trigger] items2[i], k, bound) by {
            let x = items2[i];
            assert(items2.contains(x));
            assert(items2.to_multiset().count(x) > 0);
            assert(items1.to_multiset().count(x) > 0);
            assert(items1.contains(x));
            let t = choose|t: int| 0 <= t < items1.len() && items1[t] == x;
            assert(small_int_val(items1[t], k, bound));
        }
    }
    lemma_sum_int(items1, k, bound);
    lemma_sum_int(items2, k, bound);
    lemma_msum_perm(items1, items2, k);
}

/// How many items carry the metric field at all (presence, not
/// truthiness).
pub open spec fn count_spec(items: Seq<Item>, k: Seq<char>) -> int
    decreases items.len(),
{
    if items.len() == 0 {
        0
    } else {
        count_spec(items.drop_last(), k) + if map_get(items.last().metrics@, k) is Some {
            1int
        } else {
            0int
        }
    }
}

proof fn lemma_count_bound(items: Seq<Item>, k: Seq<char>)
    ensures
        0 <= count_spec(items, k) <= items.len(),
    decreases items.len(),
{
    if items.len() > 0 {
        lemma_count_bound(items.drop_last(), k);
    }
}

/// Counts the items where the metric field is present.
pub fn count(items: &Vec<Item>, metrics: &String) -> (r: Result<Dec, Error>)
    ensures
        r == Ok::<Dec, Error>(norm_spec(count_spec(items@, metrics@), 0)),
{
    let n = items.len();
    let mut c: u64 = 0;
    let mut i: usize = 0;
    proof {
        assert(items@.take(0) =~= Seq::<Item>::empty());
    }
    while i < n
        invariant
            0 <= i <= n,
            n == items@.len(),
            c == count_spec(items@.take(i as int), metrics@),
            0 <= c <= i,
            i <= u64::MAX,
        decreases n - i,
    {
        proof {
            assert(items@.take(i as int + 1).drop_last() =~= items@.take(i as int));
            assert(items@.take(i as int + 1).last() == items@[i as int]);
        }
        match items[i].metric(metrics) {
            Some(_) => {
                c = c + 1;
            },
            None => {},
        }
        i = i + 1;
    }
    proof {
        assert(items@.take(n as int) =~= items@);
    }
    Ok(Dec::from_u64(c))
}

/// The divisor an average uses: the sample count without a cycle, and
/// a calendar-derived span with one. A cycle needs both ends of the
/// filter's time range; weekly cycles are not supported.
pub open spec fn cycle_divisor_spec(
    items_len: int,
    cycle: Option<IndicatorCycle>,
    f: CommonFilter,
) -> Result<int, Error> {
    match cycle {
        None => Ok(items_len),
        Some(c) => if !(-UTC_OFFSET_MAX <= f.utc_offset <= UTC_OFFSET_MAX) {
            Err(Error::InvalidOffset)
        } else {
            match f.ts_start {
                None => Err(Error::MissingRange),
                Some(s) => match f.ts_end {
                    None => Err(Error::MissingRange),
                    Some(e) => match c {
                        IndicatorCycle::Weekly => Err(Error::NotSupported),
                        IndicatorCycle::Hourly => Ok(
                            local_unit_of(e as int, f.utc_offset as int, MS_PER_HOUR as int)
                                - local_unit_of(s as int, f.utc_offset as int, MS_PER_HOUR as int)
                                + 1,
                        ),
                        IndicatorCycle::Daily => Ok(
                            local_unit_of(e as int, f.utc_offset as int, MS_PER_DAY as int)
                                - local_unit_of(s as int, f.utc_offset as int, MS_PER_DAY as int)
                                + 1,
                        ),
                        IndicatorCycle::Monthly | IndicatorCycle::Yearly => {
                            let ds = local_unit_of(s as int, f.utc_offset as int, MS_PER_DAY as int);
                            let de = local_unit_of(e as int, f.utc_offset as int, MS_PER_DAY as int);
                            if day_in_range(ds) && day_in_range(de) {
                                let ys = civil_of(ds).0;
                                let ms = civil_of(ds).1;
                                let ye = civil_of(de).0;
                                let me = civil_of(de).1;
                                if c is Monthly {
                                    Ok((ye - ys) * 12 + (me - ms) + 1)
                                } else {
                                    Ok(ye - ys + 1)
                                }
                            } else {
                                Err(Error::InvalidTimestamp)
                            }
                        },
                    },
                },
            }
        },
    }
}

/// Computes the average's divisor (see `cycle_divisor_spec`).
pub fn count_cycle(items: &Vec<Item>, cycle: &Option<IndicatorCycle>, filter: &CommonFilter) -> (r:
    Result<i64, Error>)
    requires
        items@.len() <= i64::MAX,
    ensures
        match cycle_divisor_spec(items@.len() as int, *cycle, *filter) {
            Ok(v) => (r matches Ok(x) && x == v),
            Err(e) => r == Err::<i64, Error>(e),
        },
{
    let c = match cycle {
        None => {
            return Ok(items.len() as i64);
        },
        Some(c) => *c,
    };
    if filter.utc_offset < -UTC_OFFSET_MAX || filter.utc_offset > UTC_OFFSET_MAX {
        return Err(Error::InvalidOffset);
    }
    let ts_start = match filter.ts_start {
        None => {
            return Err(Error::MissingRange);
        },
        Some(s) => s,
    };
    let ts_end = match filter.ts_end {
        None => {
            return Err(Error::MissingRange);
        },
        Some(e) => e,
    };
    match c {
        IndicatorCycle::Weekly => Err(Error::NotSupported),
        IndicatorCycle::Hourly => {
            let h_start = local_unit_floor(ts_start, filter.utc_offset, MS_PER_HOUR);
            let h_end = local_unit_floor(ts_end, filter.utc_offset, MS_PER_HOUR);
            Ok(h_end - h_start + 1)
        },
        IndicatorCycle::Daily => {
            let d_start = local_unit_floor(ts_start, filter.utc_offset, MS_PER_DAY);
            let d_end = local_unit_floor(ts_end, filter.utc_offset, MS_PER_DAY);
            Ok(d_end - d_start + 1)
        },
        IndicatorCycle::Monthly | IndicatorCycle::Yearly => {
            let d_start = local_unit_floor(ts_start, filter.utc_offset, MS_PER_DAY);
            let d_end = local_unit_floor(ts_end, filter.utc_offset, MS_PER_DAY);
            let (ys, ms, dds) = match civil_from_days(d_start) {
                None => {
                    return Err(Error::InvalidTimestamp);
                },
                Some(t) => (t.0, t.1, t.2),
            };
            let (ye, me, dde) = match civil_from_days(d_end) {
                None => {
                    return Err(Error::InvalidTimestamp);
                },
                Some(t) => (t.0, t.1, t.2),
            };
            proof {
                let cs = civil_of(d_start as int);
                let ce = civil_of(d_end as int);
                assert(valid_ymd(cs.0, cs.1, cs.2) && days_from_civil(cs.0, cs.1, cs.2)
                    == d_start as int);
                assert(valid_ymd(ce.0, ce.1, ce.2) && days_from_civil(ce.0, ce.1, ce.2)
                    == d_end as int);
                lemma_civil_unique(cs.0, cs.1, cs.2, ys as int, ms as int, dds as int);
                lemma_civil_unique(ce.0, ce.1, ce.2, ye as int, me as int, dde as int);
            }
            match c {
                IndicatorCycle::Monthly => {
                    let yd: i64 = (ye as i64) - (ys as i64);
                    let md: i64 = (me as i64) - (ms as i64);
                    Ok(yd * 12 + md + 1)
                },
                _ => Ok((ye as i64) - (ys as i64) + 1),
            }
        },
    }
}

/// What averaging yields: the sum over the divisor, where a
/// non-positive divisor defensively yields zero rather than failing.
pub open spec fn average_spec(
    items: Seq<Item>,
    k: Seq<char>,
    cycle: Option<IndicatorCycle>,
    f: CommonFilter,
) -> Result<Dec, Error> {
    match sum_spec(items, k) {
        Err(e) => Err(e),
        Ok(s) => match cycle_divisor_spec(items.len() as int, cycle, f) {
            Err(e) => Err(e),
            Ok(d) => if d <= 0 {
                Ok(Dec::zero_spec())
            } else {
                Ok(div_int_spec(s, d))
            },
        },
    }
}

/// What an indicator request yields for its fetched items: the
/// requested reduction of the single target metric, which must be
/// named first in the filter's metric list.
pub open spec fn indicator_spec(items: Seq<Item>, req: IndicatorRequest) -> Result<Dec, Error> {
    match req.filter.metrics {
        None => Err(Error::MissingMetric),
        Some(ms) => if ms@.len() == 0 {
            Err(Error::MissingMetric)
        } else {
            let k = ms@[0]@;
            match req.aggregation {
                AggregationMethod::Sum => sum_spec(items, k),
                AggregationMethod::Count => Ok(norm_spec(count_spec(items, k), 0)),
                AggregationMethod::Average => average_spec(items, k, req.average_cycle, req.filter),
            }
        },
    }
}

/// Builds the indicator: one decimal scalar for the fetched items.
pub fn query_indicator(items: &Vec<Item>, req: &IndicatorRequest) -> (r: Result<Dec, Error>)
    requires
        items@.len() <= i64::MAX,
    ensures
        r == indicator_spec(items@, *req),
        r matches Ok(d) ==> d.wf(),
{
    let metrics: &String = match &req.filter.metrics {
        None => {
            return Err(Error::MissingMetric);
        },
        Some(ms) => {
            if ms.len() == 0 {
                return Err(Error::MissingMetric);
            }
            &ms[0]
        },
    };
    match req.aggregation {
        AggregationMethod::Sum => sum(items, metrics),
        AggregationMethod::Count => {
            proof {
                lemma_count_bound(items@, metrics@);
                crate::dec::lemma_norm_spec(count_spec(items@, metrics@), 0);
            }
            count(items, metrics)
        },
        AggregationMethod::Average => {
            let s = match sum(items, metrics) {
                Err(e) => {
                    return Err(e);
                },
                Ok(s) => s,
            };
            let d = match count_cycle(items, &req.average_cycle, &req.filter) {
                Err(e) => {
                    return Err(e);
                },
                Ok(d) => d,
            };
            if d <= 0 {
                Ok(Dec::zero())
            } else {
                Ok(s.checked_div_int(d))
            }
        },
    }
}

} // verus!

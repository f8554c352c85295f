use vstd::prelude::*;

verus! {

use crate::date::{
    civil_of, day_in_range, day_key_of_day, days_from_civil, lemma_civil_unique, local_unit_floor,
    pad_digits, valid_ymd, MS_PER_DAY, UTC_OFFSET_MAX,
};
use crate::dec::{div_int_spec, Dec};
use crate::err::Error;
use crate::filter::CommonFilter;
use crate::line_chart::copy_string;
use crate::model::{Builtin, Item};

/// One component of a group key.
#[derive(Clone, Copy, Debug, PartialEq, Eq, Structural)]
pub enum GroupBy {
    Daily,
    Weekly,
    Monthly,
    Yearly,
    Bucket,
    Builtin,
}

impl GroupBy {
    /// Whether this component groups by a calendar period.
    pub fn is_timing_key(self) -> (r: bool)
        ensures
            r == (self is Daily || self is Weekly || self is Monthly || self is Yearly),
    {
        matches!(self, GroupBy::Daily | GroupBy::Weekly | GroupBy::Monthly | GroupBy::Yearly)
    }
}

/// A grouped-aggregation request.
#[derive(Debug)]
pub struct GroupRequest {
    pub filter: CommonFilter,
    pub group: Vec<GroupBy>,
    /// The UTC offset for computing timing keys.
    pub utc_offset: Option<i64>,
}

/// The running reduction of one metric within one group.
#[derive(Clone, Copy, Debug, PartialEq, Eq, Structural)]
pub struct GroupMetrics {
    pub sum: Dec,
    pub count: i64,
    pub max: Dec,
    pub min: Dec,
    pub average: Dec,
}

impl GroupMetrics {
    /// All the decimals are well-formed.
    pub open spec fn wf(self) -> bool {
        self.sum.wf() && self.max.wf() && self.min.wf() && self.average.wf() && 0 <= self.count
    }

    /// The reduction over no values yet.
    pub fn new() -> (r: Self)
        ensures
            r.wf(),
            r.count == 0,
            r.sum == Dec::zero_spec(),
            r.max == Dec::zero_spec(),
            r.min == Dec::zero_spec(),
            r.average == Dec::zero_spec(),
    {
        GroupMetrics {
            sum: Dec::zero(),
            count: 0,
            max: Dec::zero(),
            min: Dec::zero(),
            average: Dec::zero(),
        }
    }

    /// Folds one more value in: count, saturating sum, running
    /// min/max (the first value starts them), and the running average
    /// of the sum over the count.
    pub fn reduce(&mut self, val: Dec)
        requires
            old(self).wf(),
            old(self).count < i64::MAX,
            val.wf(),
        ensures
            final(self).wf(),
            final(self).count == old(self).count + 1,
            final(self).sum == old(self).sum.add_spec(val),
            old(self).count == 0 ==> final(self).max == val && final(self).min == val,
            old(self).count > 0 ==> final(self).max == (if old(self).max.val28() < val.val28() {
                val
            } else {
                old(self).max
            }),
            old(self).count > 0 ==> final(self).min == (if val.val28() < old(self).min.val28() {
                val
            } else {
                old(self).min
            }),
            final(self).average == div_int_spec(final(self).sum, final(self).count as int),
    {
        let first = self.count == 0;
        self.count = self.count + 1;
        self.sum = self.sum.saturating_add(val);
        if first {
            self.max = val;
            self.min = val;
        } else {
            self.max = self.max.max_dec(val);
            self.min = self.min.min_dec(val);
        }
        self.average = self.sum.checked_div_int(self.count);
    }
}

/// One group's key and its reduced metrics.
#[derive(Debug)]
pub struct GroupItem {
    pub group_key: Vec<String>,
    pub metrics: GroupMetrics,
}

/// A grouped aggregation: per metric name, the reductions of every
/// group key.
#[derive(Debug)]
pub struct GroupResult {
    pub version: i64,
    pub metrics: Vec<(String, Vec<GroupItem>)>,
}

impl GroupResult {
    pub fn v1(metrics: Vec<(String, Vec<GroupItem>)>) -> (r: Self)
        ensures
            r.version == 1,
            r.metrics == metrics,
    {
        GroupResult { version: 1, metrics }
    }
}

/// How many of the requested components are timing keys.
pub open spec fn timing_count(g: Seq<GroupBy>) -> int
    decreases g.len(),
{
    if g.len() == 0 {
        0
    } else {
        timing_count(g.drop_last()) + if g.last() is Daily || g.last() is Weekly || g.last()
            is Monthly || g.last() is Yearly {
            1int
        } else {
            0int
        }
    }
}

/// What one group-key component is for an item: a calendar period
/// key, the item's bucket id, or its builtin's name.
pub open spec fn key_component_spec(
    g: GroupBy,
    it: Item,
    off: int,
    bucket_id: int,
    builtin: Option<Builtin>,
) -> Result<Seq<char>, Error> {
    let day = crate::group::day_of_item(it, off);
    match g {
        GroupBy::Weekly => Err(Error::NotSupported),
        GroupBy::Daily => if day_in_range(day) {
            Ok(crate::date::key_of_day(day))
        } else {
            Err(Error::InvalidTimestamp)
        },
        GroupBy::Monthly => if day_in_range(day) {
            Ok(pad_digits(civil_of(day).0, 4) + pad_digits(civil_of(day).1, 2))
        } else {
            Err(Error::InvalidTimestamp)
        },
        GroupBy::Yearly => if day_in_range(day) {
            Ok(pad_digits(civil_of(day).0, 4))
        } else {
            Err(Error::InvalidTimestamp)
        },
        GroupBy::Bucket => Ok(int_chars(bucket_id)),
        GroupBy::Builtin => Ok(
            match builtin {
                Some(b) => "BrowserTime"@,
                None => ""@,
            },
        ),
    }
}

/// A signed number's decimal text.
pub open spec fn int_chars(n: int) -> Seq<char> {
    if n < 0 {
        "-"@ + crate::filter::digits_of(-n)
    } else {
        crate::filter::digits_of(n)
    }
}

/// The decimal text of a signed number.
pub fn i64_to_string(n: i64) -> (r: String)
    ensures
        r@ == int_chars(n as int),
{
    if n >= 0 {
        let r = crate::filter::u64_to_string(n as u64);
        r
    } else {
        let mag: u64 = #[verifier::truncate] ((-(n as i128)) as u64);
        proof {
            assert(-(n as int) <= u64::MAX);
        }
        let mut r = String::from_str("-");
        let digits = crate::filter::u64_to_string(mag);
        r.append(digits.as_str());
        r
    }
}

/// The composite group key of one item: one component per requested
/// `GroupBy`, in order.
pub fn compute_key(
    item: &Item,
    group: &Vec<GroupBy>,
    offset: i64,
    bucket_id: i64,
    builtin: Option<Builtin>,
) -> (r: Result<Vec<String>, Error>)
    requires
        -UTC_OFFSET_MAX <= offset <= UTC_OFFSET_MAX,
    ensures
        r matches Ok(ks) ==> ks@.len() == group@.len() && (forall|i: int|
            0 <= i < ks@.len() ==> Ok::<Seq<char>, Error>((#[trigger] ks@[i]@))
                == key_component_spec(group@[i], *item, offset as int, bucket_id as int, builtin)),
        r matches Err(e) ==> exists|i: int|
            0 <= i < group@.len() && #[trigger] key_component_spec(
                group@[i],
                *item,
                offset as int,
                bucket_id as int,
                builtin,
            ) == Err::<Seq<char>, Error>(e),
{
    let mut ks: Vec<String> = Vec::new();
    let n = group.len();
    let mut i: usize = 0;
    let day = local_unit_floor(item.timestamp, offset, MS_PER_DAY);
    while i < n
        invariant
            0 <= i <= n,
            n == group@.len(),
            -UTC_OFFSET_MAX <= offset <= UTC_OFFSET_MAX,
            day == crate::group::day_of_item(*item, offset as int),
            ks@.len() == i,
            forall|t: int|
                0 <= t < i ==> Ok::<Seq<char>, Error>((#[trigger] ks@[t]@)) == key_component_spec(
                    group@[t],
                    *item,
                    offset as int,
                    bucket_id as int,
                    builtin,
                ),
        decreases n - i,
    {
        let component: String = match group[i] {
            GroupBy::Weekly => {
                proof {
                    assert(key_component_spec(
                        group@[i as int],
                        *item,
                        offset as int,
                        bucket_id as int,
                        builtin,
                    ) == Err::<Seq<char>, Error>(Error::NotSupported));
                }
                return Err(Error::NotSupported);
            },
            GroupBy::Daily => {
                match day_key_of_day(day) {
                    None => {
                        proof {
                            assert(key_component_spec(
                                group@[i as int],
                                *item,
                                offset as int,
                                bucket_id as int,
                                builtin,
                            ) == Err::<Seq<char>, Error>(Error::InvalidTimestamp));
                        }
                        return Err(Error::InvalidTimestamp);
                    },
                    Some(k) => k,
                }
            },
            GroupBy::Monthly => {
                match crate::date::civil_from_days(day) {
                    None => {
                        proof {
                            assert(key_component_spec(
                                group@[i as int],
                                *item,
                                offset as int,
                                bucket_id as int,
                                builtin,
                            ) == Err::<Seq<char>, Error>(Error::InvalidTimestamp));
                        }
                        return Err(Error::InvalidTimestamp);
                    },
                    Some((y, m, d)) => {
                        let mut s = String::new();
                        proof {
                            assert(crate::dec::pow10(4) == 10000) by {
                                reveal_with_fuel(crate::dec::pow10, 5);
                            }
                            assert(crate::dec::pow10(2) == 100) by {
                                reveal_with_fuel(crate::dec::pow10, 3);
                            }
                            let c = civil_of(day as int);
                            assert(valid_ymd(c.0, c.1, c.2) && days_from_civil(c.0, c.1, c.2)
                                == day as int);
                            lemma_civil_unique(c.0, c.1, c.2, y as int, m as int, d as int);
                        }
                        crate::date::push_pad(&mut s, y as u32, 4);
                        crate::date::push_pad(&mut s, m, 2);
                        s
                    },
                }
            },
            GroupBy::Yearly => {
                match crate::date::civil_from_days(day) {
                    None => {
                        proof {
                            assert(key_component_spec(
                                group@[i as int],
                                *item,
                                offset as int,
                                bucket_id as int,
                                builtin,
                            ) == Err::<Seq<char>, Error>(Error::InvalidTimestamp));
                        }
                        return Err(Error::InvalidTimestamp);
                    },
                    Some((y, m, d)) => {
                        let mut s = String::new();
                        proof {
                            assert(crate::dec::pow10(4) == 10000) by {
                                reveal_with_fuel(crate::dec::pow10, 5);
                            }
                            let c = civil_of(day as int);
                            assert(valid_ymd(c.0, c.1, c.2) && days_from_civil(c.0, c.1, c.2)
                                == day as int);
                            lemma_civil_unique(c.0, c.1, c.2, y as int, m as int, d as int);
                        }
                        crate::date::push_pad(&mut s, y as u32, 4);
                        proof {
                            assert(s@ =~= pad_digits(y as int, 4));
                        }
                        s
                    },
                }
            },
            GroupBy::Bucket => i64_to_string(bucket_id),
            GroupBy::Builtin => {
                match builtin {
                    Some(_) => String::from_str("BrowserTime"),
                    None => String::from_str(""),
                }
            },
        };
        ks.push(component);
        i = i + 1;
    }
    Ok(ks)
}

/// The allow list of a group request (absent means no restriction).
pub open spec fn group_allow_of(req: GroupRequest) -> Seq<String> {
    match req.filter.metrics {
        Some(v) => v@,
        None => Seq::<String>::empty(),
    }
}

/// A metric name the allow list keeps.
pub open spec fn kept_name(name: Seq<char>, allow: Seq<String>) -> bool {
    allow.len() == 0 || crate::plain::contains_str(allow, name)
}

/// A series under this metric name exists.
pub open spec fn has_series(out: Seq<(String, Vec<GroupItem>)>, name: Seq<char>) -> bool {
    exists|a: int| 0 <= a < out.len() && (#[trigger] out[a].0@) == name
}

/// The key's components are exactly the item's, under the request.
pub open spec fn key_matches(
    ks: Seq<String>,
    t: (Item, i64, Option<Builtin>),
    req: GroupRequest,
) -> bool {
    &&& ks.len() == req.group@.len()
    &&& forall|c: int|
        0 <= c < ks.len() ==> Ok::<Seq<char>, Error>((#[trigger] ks[c])@) == key_component_spec(
            req.group@[c],
            t.0,
            group_offset_of(req),
            t.1 as int,
            t.2,
        )
}

/// The key is the composite of some item's components.
pub open spec fn key_from_items(
    ks: Seq<String>,
    items: Seq<(Item, i64, Option<Builtin>)>,
    req: GroupRequest,
) -> bool {
    exists|i: int| 0 <= i < items.len() && key_matches(ks, #[trigger] items[i], req)
}

/// An item whose components make up the key names a key origin.
proof fn lemma_key_from_items(
    ks: Seq<String>,
    i: int,
    items: Seq<(Item, i64, Option<Builtin>)>,
    req: GroupRequest,
)
    requires
        0 <= i < items.len(),
        key_matches(ks, items[i], req),
    ensures
        key_from_items(ks, items, req),
{
}

/// Keys with the same characters have the same origins.
proof fn lemma_key_from_items_views(
    k1: Seq<String>,
    k2: Seq<String>,
    items: Seq<(Item, i64, Option<Builtin>)>,
    req: GroupRequest,
)
    requires
        k1.len() == k2.len(),
        forall|c: int| 0 <= c < k1.len() ==> (#[trigger] k1[c])@ == k2[c]@,
        key_from_items(k1, items, req),
    ensures
        key_from_items(k2, items, req),
{
    let i = choose|i: int| 0 <= i < items.len() && key_matches(k1, #[trigger] items[i], req);
    assert forall|c: int| 0 <= c < k2.len() implies Ok::<Seq<char>, Error>(
        (#[trigger] k2[c])@,
    ) == key_component_spec(
        req.group@[c],
        items[i].0,
        group_offset_of(req),
        items[i].1 as int,
        items[i].2,
    ) by {
        assert(k1[c]@ == k2[c]@);
    }
    assert(key_matches(k2, items[i], req));
    lemma_key_from_items(k2, i, items, req);
}

/// Every group key of every series is some item's composite.
pub open spec fn groups_keys_from(
    gs: Seq<GroupItem>,
    items: Seq<(Item, i64, Option<Builtin>)>,
    req: GroupRequest,
) -> bool {
    forall|g: int| 0 <= g < gs.len() ==> key_from_items((#[trigger] gs[g].group_key)@, items, req)
}

/// Every group key of every series is some item's composite.
pub open spec fn out_keys_from(
    out: Seq<(String, Vec<GroupItem>)>,
    items: Seq<(Item, i64, Option<Builtin>)>,
    req: GroupRequest,
) -> bool {
    forall|a: int| 0 <= a < out.len() ==> groups_keys_from((#[trigger] out[a].1)@, items, req)
}

/// The name is a kept metric of some item.
pub open spec fn name_from_items(
    name: Seq<char>,
    items: Seq<(Item, i64, Option<Builtin>)>,
    allow: Seq<String>,
) -> bool {
    exists|i: int, j: int|
        0 <= i < items.len() && 0 <= j < items[i].0.metrics@.len() && name == (#[trigger] items[i].0.metrics@[j]).0@
            && kept_name(items[i].0.metrics@[j].0@, allow)
}

/// A kept metric of an item names a series origin.
proof fn lemma_name_from_items(
    name: Seq<char>,
    i: int,
    j: int,
    items: Seq<(Item, i64, Option<Builtin>)>,
    allow: Seq<String>,
)
    requires
        0 <= i < items.len(),
        0 <= j < items[i].0.metrics@.len(),
        name == items[i].0.metrics@[j].0@,
        kept_name(items[i].0.metrics@[j].0@, allow),
    ensures
        name_from_items(name, items, allow),
{
}

/// The offset timing keys are computed under: the request's own
/// where one timing key asks for it, else zero.
pub open spec fn group_offset_of(req: GroupRequest) -> int {
    if timing_count(req.group@) == 1 {
        req.utc_offset->0 as int
    } else {
        0
    }
}

/// Everything a grouped aggregation needs to succeed: a valid group
/// spec and offset, every item's key components computable, and
/// every kept metric value coercible.
pub open spec fn group_ready(items: Seq<(Item, i64, Option<Builtin>)>, req: GroupRequest) -> bool {
    &&& timing_count(req.group@) <= 1
    &&& (timing_count(req.group@) == 1 ==> req.utc_offset is Some)
    &&& -UTC_OFFSET_MAX <= group_offset_of(req) <= UTC_OFFSET_MAX
    &&& (forall|i: int, c: int|
        0 <= i < items.len() && 0 <= c < req.group@.len() ==> #[trigger] key_component_spec(
            req.group@[c],
            items[i].0,
            group_offset_of(req),
            items[i].1 as int,
            items[i].2,
        ) is Ok)
    &&& (forall|i: int, j: int|
        0 <= i < items.len() && 0 <= j < items[i].0.metrics@.len() ==> (kept_name(
            (#[trigger] items[i].0.metrics@[j]).0@,
            group_allow_of(req),
        ) ==> crate::coerce::json_dec_spec(items[i].0.metrics@[j].1) is Ok))
}

/// Two allow lists with the same contents keep the same names.
proof fn lemma_kept_same(a1: Seq<String>, a2: Seq<String>, name: Seq<char>)
    requires
        a1.len() == a2.len(),
        forall|t: int| 0 <= t < a1.len() ==> (#[trigger] a1[t])@ == a2[t]@,
    ensures
        kept_name(name, a1) == kept_name(name, a2),
{
    if crate::plain::contains_str(a1, name) {
        let tw = choose|tw: int| 0 <= tw < a1.len() && (#[trigger] a1[tw]@) == name;
        assert(a2[tw]@ == name);
    }
    if crate::plain::contains_str(a2, name) {
        let tw = choose|tw: int| 0 <= tw < a2.len() && (#[trigger] a2[tw]@) == name;
        assert(a1[tw]@ == name);
    }
}

/// Builds the grouped aggregation for fetched items, each paired with
/// its resolved bucket id and builtin. At most one timing key is
/// allowed, and a timing key needs the request's own UTC offset.
/// Every series belongs to a kept metric of some item, and every
/// kept metric of every item has its series.
pub fn query_group(request: &GroupRequest, items: Vec<(Item, i64, Option<Builtin>)>) -> (r: Result<
    GroupResult,
    Error,
>)
    ensures
        timing_count(request.group@) > 1 ==> r == Err::<GroupResult, Error>(
            Error::InvalidGroupSpec,
        ),
        (timing_count(request.group@) == 1 && request.utc_offset is None) ==> r == Err::<
            GroupResult,
            Error,
        >(Error::InvalidOffset),
        group_ready(items@, *request) ==> r is Ok,
        r matches Ok(res) ==> res.version == 1 && (forall|a: int, b: int|
            0 <= a < b < res.metrics@.len() ==> (#[trigger] res.metrics@[a].0@)
                != (#[trigger] res.metrics@[b].0@)),
        r matches Ok(res) ==> (forall|a: int|
            0 <= a < res.metrics@.len() ==> name_from_items(
                (#[trigger] res.metrics@[a].0@),
                items@,
                group_allow_of(*request),
            )),
        r matches Ok(res) ==> (forall|i: int, j: int|
            0 <= i < items@.len() && 0 <= j < items@[i].0.metrics@.len() ==> (kept_name(
                (#[trigger] items@[i].0.metrics@[j]).0@,
                group_allow_of(*request),
            ) ==> has_series(res.metrics@, items@[i].0.metrics@[j].0@))),
        r matches Ok(res) ==> out_wf(res.metrics@),
        r matches Ok(res) ==> out_key_len(res.metrics@, request.group@.len() as int),
        r matches Ok(res) ==> out_keys_from(res.metrics@, items@, *request),
        r matches Err(e) ==> (e == Error::InvalidGroupSpec || e == Error::InvalidOffset || e
            == Error::NotSupported || e == Error::InvalidTimestamp || e == Error::InvalidDecimal
            || e == Error::UnsupportedType),
{
    let tc = count_timing(&request.group);
    if tc > 1 {
        return Err(Error::InvalidGroupSpec);
    }
    let offset: i64 = if tc == 1 {
        match request.utc_offset {
            None => {
                return Err(Error::InvalidOffset);
            },
            Some(o) => o,
        }
    } else {
        0
    };
    if offset < -UTC_OFFSET_MAX || offset > UTC_OFFSET_MAX {
        return Err(Error::InvalidOffset);
    }
    let allow: Vec<String> = match &request.filter.metrics {
        Some(v) => crate::plain::copy_strings(v),
        None => Vec::new(),
    };
    let ghost sallow = group_allow_of(*request);
    let ghost all = items@;
    let mut out: Vec<(String, Vec<GroupItem>)> = Vec::new();
    let mut src = items;
    let total: usize = src.len();
    let mut done: usize = 0;
    proof {
        assert(src@ =~= all.skip(0));
    }
    while src.len() > 0
        invariant
            -UTC_OFFSET_MAX <= offset <= UTC_OFFSET_MAX,
            timing_count(request.group@) <= 1,
            timing_count(request.group@) == 1 ==> request.utc_offset is Some,
            offset as int == group_offset_of(*request),
            all == items@,
            total == all.len(),
            done + src@.len() == all.len(),
            src@ == all.skip(done as int),
            sallow == group_allow_of(*request),
            allow@.len() == sallow.len(),
            forall|t: int| 0 <= t < allow@.len() ==> (#[trigger] allow@[t])@ == sallow[t]@,
            out_wf(out@),
            out_key_len(out@, request.group@.len() as int),
            out_keys_from(out@, all, *request),
            forall|a: int, b: int|
                0 <= a < b < out@.len() ==> (#[trigger] out@[a].0@) != (#[trigger] out@[b].0@),
            forall|a: int|
                0 <= a < out@.len() ==> name_from_items((#[trigger] out@[a].0@), all, sallow),
            forall|i: int, j: int|
                0 <= i < done && 0 <= j < all[i].0.metrics@.len() ==> (kept_name(
                    (#[trigger] all[i].0.metrics@[j]).0@,
                    sallow,
                ) ==> has_series(out@, all[i].0.metrics@[j].0@)),
        decreases src.len(),
    {
        let ghost pre_done = done as int;
        let (item, bucket_id, builtin) = src.remove(0);
        proof {
            assert(all.skip(pre_done)[0] == all[pre_done]);
            assert((item, bucket_id, builtin) == all[pre_done]);
            assert(all.skip(pre_done).subrange(1, all.skip(pre_done).len() as int) =~= all.skip(
                pre_done + 1,
            ));
        }
        let key = match compute_key(&item, &request.group, offset, bucket_id, builtin) {
            Ok(k) => {
                proof {
                    assert(key_matches(k@, all[pre_done], *request));
                    lemma_key_from_items(k@, pre_done, all, *request);
                }
                k
            },
            Err(e) => {
                proof {
                    let c = choose|c: int|
                        0 <= c < request.group@.len() && #[trigger] key_component_spec(
                            request.group@[c],
                            item,
                            offset as int,
                            bucket_id as int,
                            builtin,
                        ) == Err::<Seq<char>, Error>(e);
                    assert(key_component_spec(
                        request.group@[c],
                        all[pre_done].0,
                        group_offset_of(*request),
                        all[pre_done].1 as int,
                        all[pre_done].2,
                    ) == Err::<Seq<char>, Error>(e));
                    assert(!group_ready(all, *request));
                    assert(e == Error::NotSupported || e == Error::InvalidTimestamp);
                }
                return Err(e);
            },
        };
        let nm = item.metrics.len();
        let mut mi: usize = 0;
        while mi < nm
            invariant
                0 <= mi <= nm,
                nm == item.metrics@.len(),
                -UTC_OFFSET_MAX <= offset <= UTC_OFFSET_MAX,
                timing_count(request.group@) <= 1,
                timing_count(request.group@) == 1 ==> request.utc_offset is Some,
                offset as int == group_offset_of(*request),
                all == items@,
                0 <= pre_done < all.len(),
                done == pre_done,
                item == all[pre_done].0,
                sallow == group_allow_of(*request),
                allow@.len() == sallow.len(),
                forall|t: int| 0 <= t < allow@.len() ==> (#[trigger] allow@[t])@ == sallow[t]@,
                out_wf(out@),
                out_key_len(out@, request.group@.len() as int),
                out_keys_from(out@, all, *request),
                key_from_items(key@, all, *request),
                key@.len() == request.group@.len(),
                forall|a: int, b: int|
                    0 <= a < b < out@.len() ==> (#[trigger] out@[a].0@) != (#[trigger] out@[b].0@),
                forall|a: int|
                    0 <= a < out@.len() ==> name_from_items((#[trigger] out@[a].0@), all, sallow),
                forall|i: int, j: int|
                    0 <= i < pre_done && 0 <= j < all[i].0.metrics@.len() ==> (kept_name(
                        (#[trigger] all[i].0.metrics@[j]).0@,
                        sallow,
                    ) ==> has_series(out@, all[i].0.metrics@[j].0@)),
                forall|j: int|
                    0 <= j < mi ==> (kept_name(
                        (#[trigger] item.metrics@[j]).0@,
                        sallow,
                    ) ==> has_series(out@, item.metrics@[j].0@)),
            decreases nm - mi,
        {
            let name = &item.metrics[mi].0;
            let keep = if allow.len() == 0 {
                true
            } else {
                crate::plain::contains_string(&allow, name)
            };
            proof {
                lemma_kept_same(allow@, sallow, name@);
                assert(keep == kept_name(name@, sallow));
            }
            if keep {
                let val = match crate::coerce::json_val_to_decimal(&item.metrics[mi].1) {
                    Ok(d) => d,
                    Err(e) => {
                        proof {
                            assert(crate::coerce::json_dec_spec(
                                all[pre_done].0.metrics@[mi as int].1,
                            ) == Err::<crate::dec::Dec, Error>(e));
                            assert(!group_ready(all, *request));
                            assert(e == Error::InvalidDecimal || e == Error::UnsupportedType);
                        }
                        return Err(e);
                    },
                };
                let ghost pre_out = out@;
                reduce_into(&mut out, name, &key, val, Ghost(all), Ghost(*request));
                proof {
                    lemma_name_from_items(name@, pre_done, mi as int, all, sallow);
                    assert forall|a: int| 0 <= a < out@.len() implies name_from_items(
                        (#[trigger] out@[a].0@),
                        all,
                        sallow,
                    ) by {
                        if has_series(pre_out, out@[a].0@) {
                            let a0 = choose|a0: int|
                                0 <= a0 < pre_out.len() && (#[trigger] pre_out[a0].0@)
                                    == out@[a].0@;
                            assert(name_from_items(pre_out[a0].0@, all, sallow));
                        } else {
                            assert(out@[a].0@ == name@);
                        }
                    }
                }
            }
            mi = mi + 1;
        }
        done = done + 1;
    }
    proof {
        assert(all == items@);
        assert(sallow == group_allow_of(*request));
        assert forall|a: int| 0 <= a < out@.len() implies name_from_items(
            (#[trigger] out@[a].0@),
            items@,
            group_allow_of(*request),
        ) by {
            assert(name_from_items(out@[a].0@, all, sallow));
        }
        assert(out_keys_from(out@, items@, *request));
        assert forall|i: int, j: int|
            0 <= i < items@.len() && 0 <= j < items@[i].0.metrics@.len() implies (kept_name(
                (#[trigger] items@[i].0.metrics@[j]).0@,
                group_allow_of(*request),
            ) ==> has_series(out@, items@[i].0.metrics@[j].0@)) by {
            assert(all[i] == items@[i]);
        }
    }
    Ok(GroupResult::v1(out))
}

/// Counts the timing keys of a request.
fn count_timing(g: &Vec<GroupBy>) -> (r: u64)
    ensures
        r == timing_count(g@),
{
    let n = g.len();
    let mut c: u64 = 0;
    let mut i: usize = 0;
    proof {
        assert(g@.take(0) =~= Seq::<GroupBy>::empty());
    }
    while i < n
        invariant
            0 <= i <= n,
            n == g@.len(),
            c == timing_count(g@.take(i as int)),
            0 <= c <= i,
        decreases n - i,
    {
        proof {
            assert(g@.take(i as int + 1).drop_last() =~= g@.take(i as int));
            assert(g@.take(i as int + 1).last() == g@[i as int]);
        }
        if g[i].is_timing_key() {
            c = c + 1;
        }
        i = i + 1;
    }
    proof {
        assert(g@.take(n as int) =~= g@);
    }
    c
}

/// Every reduction in a series list is well-formed and has folded at
/// least one value.
pub open spec fn groups_wf(gs: Seq<GroupItem>) -> bool {
    forall|i: int| 0 <= i < gs.len() ==> ((#[trigger] gs[i].metrics).wf() && gs[i].metrics.count >= 1)
}

/// Every series' reductions are well-formed and nonempty.
pub open spec fn out_wf(out: Seq<(String, Vec<GroupItem>)>) -> bool {
    forall|i: int| 0 <= i < out.len() ==> groups_wf((#[trigger] out[i].1)@)
}

/// Every group key has exactly `n` components.
pub open spec fn groups_key_len(gs: Seq<GroupItem>, n: int) -> bool {
    forall|i: int| 0 <= i < gs.len() ==> (#[trigger] gs[i].group_key)@.len() == n
}

/// Every group key of every series has exactly `n` components.
pub open spec fn out_key_len(out: Seq<(String, Vec<GroupItem>)>, n: int) -> bool {
    forall|i: int| 0 <= i < out.len() ==> groups_key_len((#[trigger] out[i].1)@, n)
}

/// Folds one value into the named metric's reduction under a group
/// key, opening series and groups as they first appear. A reduction
/// whose count has reached the representable ceiling is left as it
/// stands.
fn reduce_into(
    out: &mut Vec<(String, Vec<GroupItem>)>,
    name: &String,
    key: &Vec<String>,
    val: Dec,
    Ghost(src): Ghost<Seq<(Item, i64, Option<Builtin>)>>,
    Ghost(req): Ghost<GroupRequest>,
)
    requires
        val.wf(),
        out_wf(old(out)@),
        out_key_len(old(out)@, key@.len() as int),
        out_keys_from(old(out)@, src, req),
        key_from_items(key@, src, req),
        forall|a: int, b: int|
            0 <= a < b < old(out)@.len() ==> (#[trigger] old(out)@[a].0@) != (#[trigger] old(out)@[b].0@),
    ensures
        out_wf(final(out)@),
        out_key_len(final(out)@, key@.len() as int),
        out_keys_from(final(out)@, src, req),
        forall|a: int, b: int|
            0 <= a < b < final(out)@.len() ==> (#[trigger] final(out)@[a].0@) != (#[trigger] final(out)@[b].0@),
        has_series(final(out)@, name@),
        forall|n2: Seq<char>| #[trigger] has_series(old(out)@, n2) ==> has_series(final(out)@, n2),
        forall|a: int|
            0 <= a < final(out)@.len() ==> (has_series(old(out)@, (#[trigger] final(out)@[a]).0@)
                || final(out)@[a].0@ == name@),
{
    let n = out.len();
    let mut i: usize = 0;
    let mut found: bool = false;
    while i < n && !found
        invariant
            0 <= i <= n,
            n == out@.len(),
            !found ==> forall|t: int| 0 <= t < i ==> (#[trigger] out@[t].0@) != name@,
            found ==> i < n && out@[i as int].0@ == name@,
            out@ == old(out)@,
        decreases n - i, (if found {
            0int
        } else {
            1int
        }),
    {
        if out[i].0 == *name {
            found = true;
        } else {
            i = i + 1;
        }
    }
    if found {
        let ghost pre = out@;
        let mut entry = out.remove(i);
        proof {
            assert(groups_wf(entry.1@) && groups_key_len(entry.1@, key@.len() as int)
                && groups_keys_from(entry.1@, src, req)) by {
                assert(entry.1 == pre[i as int].1);
            }
        }
        reduce_group(&mut entry.1, key, val, Ghost(src), Ghost(req));
        out.insert(i, entry);
        proof {
            assert(forall|t: int| 0 <= t < out@.len() ==> (#[trigger] out@[t].0) == pre[t].0);
            assert(forall|t: int|
                0 <= t < out@.len() && t != i ==> (#[trigger] out@[t].1) == pre[t].1);
            assert(has_series(out@, name@)) by {
                assert(out@[i as int].0@ == name@);
            }
            assert forall|n2: Seq<char>| #[trigger] has_series(pre, n2) implies has_series(
                out@,
                n2,
            ) by {
                let a0 = choose|a0: int| 0 <= a0 < pre.len() && (#[trigger] pre[a0].0@) == n2;
                assert(out@[a0].0@ == n2);
            }
            assert forall|a: int| 0 <= a < out@.len() implies (has_series(
                pre,
                (#[trigger] out@[a]).0@,
            ) || out@[a].0@ == name@) by {
                assert(pre[a].0@ == out@[a].0@);
            }
        }
    } else {
        let mut groups: Vec<GroupItem> = Vec::new();
        reduce_group(&mut groups, key, val, Ghost(src), Ghost(req));
        let ghost pre = out@;
        out.push((copy_string(name), groups));
        proof {
            assert(forall|t: int| 0 <= t < pre.len() ==> (#[trigger] out@[t].0) == pre[t].0);
            assert(forall|t: int| 0 <= t < pre.len() ==> (#[trigger] out@[t].1) == pre[t].1);
            assert(out@[pre.len() as int].0@ == name@);
            assert(has_series(out@, name@));
            assert forall|n2: Seq<char>| #[trigger] has_series(pre, n2) implies has_series(
                out@,
                n2,
            ) by {
                let a0 = choose|a0: int| 0 <= a0 < pre.len() && (#[trigger] pre[a0].0@) == n2;
                assert(out@[a0].0@ == n2);
            }
            assert forall|a: int| 0 <= a < out@.len() implies (has_series(
                pre,
                (#[trigger] out@[a]).0@,
            ) || out@[a].0@ == name@) by {
                if a < pre.len() {
                    assert(pre[a].0@ == out@[a].0@);
                }
            }
        }
    }
}

/// Folds one value into the group of the given key, opening the group
/// if it is new.
fn reduce_group(
    groups: &mut Vec<GroupItem>,
    key: &Vec<String>,
    val: Dec,
    Ghost(src): Ghost<Seq<(Item, i64, Option<Builtin>)>>,
    Ghost(req): Ghost<GroupRequest>,
)
    requires
        val.wf(),
        groups_wf(old(groups)@),
        groups_key_len(old(groups)@, key@.len() as int),
        groups_keys_from(old(groups)@, src, req),
        key_from_items(key@, src, req),
    ensures
        groups_wf(final(groups)@),
        groups_key_len(final(groups)@, key@.len() as int),
        groups_keys_from(final(groups)@, src, req),
{
    let n = groups.len();
    let mut i: usize = 0;
    let mut found: bool = false;
    while i < n && !found
        invariant
            0 <= i <= n,
            n == groups@.len(),
            groups@ == old(groups)@,
        decreases n - i, (if found {
            0int
        } else {
            1int
        }),
    {
        if same_key(&groups[i].group_key, key) {
            found = true;
        } else {
            i = i + 1;
        }
    }
    if found && i < n {
        let ghost pre = groups@;
        let mut g = groups.remove(i);
        proof {
            assert(g.metrics == pre[i as int].metrics);
        }
        if g.metrics.count < i64::MAX {
            g.metrics.reduce(val);
        }
        groups.insert(i, g);
        proof {
            assert(forall|t: int|
                0 <= t < groups@.len() && t != i ==> (#[trigger] groups@[t]) == pre[t]);
        }
    } else {
        let mut m = GroupMetrics::new();
        m.reduce(val);
        let ghost pre = groups@;
        let stored = crate::plain::copy_strings(key);
        proof {
            lemma_key_from_items_views(key@, stored@, src, req);
        }
        groups.push(GroupItem { group_key: stored, metrics: m });
        proof {
            assert(forall|t: int| 0 <= t < pre.len() ==> (#[trigger] groups@[t]) == pre[t]);
        }
    }
}

/// Whether two composite keys match, component for component.
fn same_key(a: &Vec<String>, b: &Vec<String>) -> (r: bool)
    ensures
        r == (a@.len() == b@.len() && forall|i: int|
            0 <= i < a@.len() ==> (#[trigger] a@[i]@) == b@[i]@),
{
    if a.len() != b.len() {
        return false;
    }
    let n = a.len();
    let mut i: usize = 0;
    while i < n
        invariant
            0 <= i <= n,
            n == a@.len() == b@.len(),
            forall|t: int| 0 <= t < i ==> (#[trigger] a@[t]@) == b@[t]@,
        decreases n - i,
    {
        if !(a[i] == b[i]) {
            return false;
        }
        i = i + 1;
    }
    true
}

} // verus!

use vstd::prelude::*;

verus! {

use vstd::multiset::Multiset;

use crate::date::{
    day_in_range, day_key_of_day, key_of_day, lemma_key_of_day_lex, lex_lt, local_unit_of,
    local_unit_floor, MS_PER_DAY, UTC_OFFSET_MAX,
};
use crate::err::Error;
use crate::json::JsonScalar;
use crate::model::{map_get, Item};

/// The local calendar day an item falls in.
pub open spec fn day_of_item(it: Item, off: int) -> int {
    local_unit_of(it.timestamp as int, off, MS_PER_DAY as int)
}

/// The items of one local calendar day.
pub open spec fn day_pred(off: int, d: int) -> spec_fn(Item) -> bool {
    |x: Item| day_of_item(x, off) == d
}

/// The items whose metric field holds one string value.
pub open spec fn metric_pred(k: Seq<char>, v: Seq<char>) -> spec_fn(Item) -> bool {
    |x: Item| metric_str_of(x, k) == Some(v)
}

/// Items in timestamp order.
pub open spec fn sorted_by_ts(s: Seq<Item>) -> bool {
    forall|i: int, j: int| 0 <= i < j < s.len() ==> #[trigger] s[i].timestamp <= #[trigger] s[j].timestamp
}

/// Reorders items by timestamp, ascending, keeping every item.
pub fn sort_items_by_timestamp(items: Vec<Item>) -> (r: Vec<Item>)
    ensures
        r@.to_multiset() == items@.to_multiset(),
        r@.len() == items@.len(),
        sorted_by_ts(r@),
{
    broadcast use vstd::seq_lib::group_to_multiset_ensures, vstd::multiset::group_multiset_axioms;

    let mut src = items;
    let mut out: Vec<Item> = Vec::new();
    let ghost all = src@;
    proof {
        assert(out@.to_multiset().add(src@.to_multiset()) =~= all.to_multiset());
    }
    while src.len() > 0
        invariant
            out@.to_multiset().add(src@.to_multiset()) == all.to_multiset(),
            out@.len() + src@.len() == all.len(),
            sorted_by_ts(out@),
            forall|a: int, b: int|
                0 <= a < out@.len() && 0 <= b < src@.len() ==> #[trigger] out@[a].timestamp
                    <= #[trigger] src@[b].timestamp,
        decreases src.len(),
    {
        let n = src.len();
        let mut mi: usize = 0;
        let mut j: usize = 1;
        while j < n
            invariant
                0 <= mi < j <= n,
                n == src@.len(),
                forall|t: int| 0 <= t < j ==> src@[mi as int].timestamp <= #[trigger] src@[t].timestamp,
            decreases n - j,
        {
            if src[j].timestamp < src[mi].timestamp {
                mi = j;
            }
            j = j + 1;
        }
        let ghost pre_src = src@;
        let ghost pre_out = out@;
        let x = src.remove(mi);
        out.push(x);
        proof {
            vstd::seq_lib::to_multiset_remove::<Item>(pre_src, mi as int);
            vstd::seq_lib::to_multiset_build::<Item>(pre_out, x);
            vstd::seq_lib::to_multiset_contains::<Item>(pre_src, x);
            assert(pre_src[mi as int] == x);
            assert(pre_src.contains(x));
            assert(pre_src.to_multiset().count(x) > 0);
            assert(out@.to_multiset().add(src@.to_multiset()) =~= all.to_multiset());
            // every remaining item is one of the old ones
            assert(forall|b: int|
                0 <= b < src@.len() ==> #[trigger] src@[b] == (if b < mi {
                    pre_src[b]
                } else {
                    pre_src[b + 1]
                }));
        }
    }
    proof {
        assert(src@.to_multiset() =~= Multiset::<Item>::empty());
        assert(out@.to_multiset().add(Multiset::<Item>::empty()) =~= out@.to_multiset());
    }
    out
}

/// One calendar day's items: the day number, its `YYYYMMDD` key, and
/// every item of that day in input order.
#[derive(Debug)]
pub struct DayGroup {
    pub day: i64,
    pub key: String,
    pub items: Vec<Item>,
}

/// Every item's local day lies in the supported calendar.
pub open spec fn all_days_in_range(items: Seq<Item>, off: int) -> bool {
    forall|i: int| 0 <= i < items.len() ==> day_in_range(day_of_item(#[trigger] items[i], off))
}

/// What a correct day grouping looks like: every group carries the
/// key of its in-range day and exactly the items of that day, days
/// strictly ascend, and every item's day has a group.
pub open spec fn day_groups_ok(gs: Seq<DayGroup>, items: Seq<Item>, off: int) -> bool {
    &&& forall|j: int| 0 <= j < gs.len() ==> day_in_range(#[trigger] gs[j].day as int)
    &&& forall|j: int| 0 <= j < gs.len() ==> (#[trigger] gs[j].key@) == key_of_day(gs[j].day as int)
    &&& forall|j: int|
        0 <= j < gs.len() ==> ((#[trigger] gs[j].items@) == items.filter(
            day_pred(off, gs[j].day as int),
        ) && gs[j].items@.len() > 0)
    &&& forall|i: int, j: int|
        0 <= i < j < gs.len() ==> (#[trigger] gs[i].day) < (#[trigger] gs[j].day)
    &&& forall|i: int|
        0 <= i < items.len() ==> exists|j: int|
            0 <= j < gs.len() && (#[trigger] gs[j].day as int) == day_of_item(
                #[trigger] items[i],
                off,
            )
}

/// Partitions items into calendar-day groups under a fixed offset;
/// the output is sorted ascending by day key, so callers never
/// re-sort.
pub fn group_by_dates(utc_offset: i64, items: Vec<Item>) -> (r: Result<Vec<DayGroup>, Error>)
    ensures
        (utc_offset < -UTC_OFFSET_MAX || utc_offset > UTC_OFFSET_MAX) ==> r == Err::<
            Vec<DayGroup>,
            Error,
        >(Error::InvalidOffset),
        r is Ok ==> (-UTC_OFFSET_MAX <= utc_offset <= UTC_OFFSET_MAX && all_days_in_range(
            items@,
            utc_offset as int,
        )),
        (-UTC_OFFSET_MAX <= utc_offset <= UTC_OFFSET_MAX && all_days_in_range(
            items@,
            utc_offset as int,
        )) ==> r is Ok,
        (-UTC_OFFSET_MAX <= utc_offset <= UTC_OFFSET_MAX && !all_days_in_range(
            items@,
            utc_offset as int,
        )) ==> r == Err::<Vec<DayGroup>, Error>(Error::InvalidTimestamp),
        r matches Ok(gs) ==> day_groups_ok(gs@, items@, utc_offset as int),
        r matches Ok(gs) ==> forall|i: int, j: int|
            0 <= i < j < gs@.len() ==> lex_lt(#[trigger] gs@[i].key@, #[trigger] gs@[j].key@),
{
    if utc_offset < -UTC_OFFSET_MAX || utc_offset > UTC_OFFSET_MAX {
        return Err(Error::InvalidOffset);
    }
    let ghost all = items@;
    let ghost off = utc_offset as int;
    let mut src = items;
    let total: usize = src.len();
    let mut gs: Vec<DayGroup> = Vec::new();
    let mut done: usize = 0;
    proof {
        assert(all.take(0) =~= Seq::<Item>::empty());
        assert(src@ =~= all.skip(0));
    }
    while src.len() > 0
        invariant
            -UTC_OFFSET_MAX <= utc_offset <= UTC_OFFSET_MAX,
            off == utc_offset as int,
            all == items@,
            total == all.len(),
            done + src@.len() == all.len(),
            0 <= done <= all.len(),
            src@ == all.skip(done as int),
            day_groups_ok(gs@, all.take(done as int), off),
        decreases src.len(),
    {
        let ghost prefix = all.take(done as int);
        let it = src.remove(0);
        proof {
            assert(all.skip(done as int)[0] == all[done as int]);
            assert(it == all[done as int]);
            assert(all.skip(done as int).subrange(1, all.skip(done as int).len() as int) =~= all.skip(
                done as int + 1,
            ));
            assert(all.take(done as int + 1).drop_last() =~= prefix);
            assert(all.take(done as int + 1).last() == it);
        }
        let d = local_unit_floor(it.timestamp, utc_offset, MS_PER_DAY);
        let key = match day_key_of_day(d) {
            None => {
                proof {
                    assert((done as int) < all.len());
                    assert(!day_in_range(day_of_item(all[done as int], utc_offset as int)));
                    assert(!all_days_in_range(all, utc_offset as int));
                }
                return Err(Error::InvalidTimestamp);
            },
            Some(k) => k,
        };
        let mut j: usize = 0;
        let glen = gs.len();
        while j < glen && gs[j].day < d
            invariant
                0 <= j <= glen,
                glen == gs@.len(),
                forall|t: int| 0 <= t < j ==> #[trigger] gs@[t].day < d,
            decreases glen - j,
        {
            j = j + 1;
        }
        let ghost newp = all.take(done as int + 1);
        if j < glen && gs[j].day == d {
            let ghost pre_gs = gs@;
            let mut g = gs.remove(j);
            g.items.push(it);
            gs.insert(j, g);
            proof {
                reveal(Seq::filter);
                assert(gs@ =~= pre_gs.update(j as int, g));
                assert forall|t: int| 0 <= t < gs@.len() implies (#[trigger] gs@[t].items@)
                    == newp.filter(day_pred(off, gs@[t].day as int)) by {
                    let p = day_pred(off, gs@[t].day as int);
                    assert(newp.drop_last() == prefix && newp.last() == it);
                    assert(pre_gs[t].items@ == prefix.filter(day_pred(off, pre_gs[t].day as int)));
                    if t == j {
                        assert(p(it));
                        assert(newp.filter(p) == prefix.filter(p).push(it));
                    } else {
                        assert(gs@[t] == pre_gs[t]);
                        assert(!p(it));
                        assert(newp.filter(p) == prefix.filter(p));
                    }
                }
                assert forall|i: int| 0 <= i < newp.len() implies exists|t: int|
                    0 <= t < gs@.len() && (#[trigger] gs@[t].day as int) == day_of_item(
                        #[trigger] newp[i],
                        off,
                    ) by {
                    if i < done {
                        assert(newp[i] == prefix[i]);
                        let t0 = choose|t: int|
                            0 <= t < pre_gs.len() && (#[trigger] pre_gs[t].day as int)
                                == day_of_item(prefix[i], off);
                        assert(gs@[t0].day == pre_gs[t0].day);
                    } else {
                        assert(newp[i] == it);
                        assert(gs@[j as int].day as int == day_of_item(it, off));
                    }
                }
            }
        } else {
            // no group holds this day yet; open one at the sorted spot
            let mut v: Vec<Item> = Vec::new();
            v.push(it);
            let g = DayGroup { day: d, key, items: v };
            let ghost pre_gs = gs@;
            gs.insert(j, g);
            proof {
                reveal(Seq::filter);
                let p = day_pred(off, d as int);
                assert(p(it));
                // no earlier item carries this day, else a group would
                assert forall|i: int| 0 <= i < prefix.len() implies !p(#[trigger] prefix[i]) by {
                    if p(prefix[i]) {
                        let t0 = choose|t: int|
                            0 <= t < pre_gs.len() && (#[trigger] pre_gs[t].day as int)
                                == day_of_item(prefix[i], off);
                        if t0 < j {
                            assert(pre_gs[t0].day < d);
                        } else {
                            assert(!(j < glen && pre_gs[j as int].day == d));
                            if j < glen {
                                assert(pre_gs[j as int].day > d || pre_gs[j as int].day == d);
                                if t0 > j {
                                    assert(pre_gs[j as int].day < pre_gs[t0].day);
                                }
                            }
                        }
                        assert(false);
                    }
                }
                prefix.lemma_all_neg_filter_empty(p);
                assert(newp.drop_last() == prefix && newp.last() == it);
                assert(newp.filter(p) =~= seq![it]);
                assert(g.items@ =~= seq![it]);
                assert forall|t: int| 0 <= t < gs@.len() implies (#[trigger] gs@[t].items@)
                    == newp.filter(day_pred(off, gs@[t].day as int)) by {
                    let pt = day_pred(off, gs@[t].day as int);
                    if t < j {
                        assert(gs@[t] == pre_gs[t]);
                        assert(!pt(it)) by {
                            assert(pre_gs[t].day < d);
                        }
                        assert(newp.filter(pt) == prefix.filter(pt));
                    } else if t == j {
                        assert(gs@[t] == g);
                    } else {
                        assert(gs@[t] == pre_gs[t - 1]);
                        assert(!pt(it)) by {
                            if j < glen {
                                assert(pre_gs[j as int].day > d);
                                if t - 1 > j {
                                    assert(pre_gs[j as int].day < pre_gs[t - 1].day);
                                }
                            }
                        }
                        assert(newp.filter(pt) == prefix.filter(pt));
                    }
                }
                assert forall|a: int, b: int| 0 <= a < b < gs@.len() implies gs@[a].day
                    < gs@[b].day by {
                    if b < j {
                    } else if a < j && b == j {
                        assert(gs@[a] == pre_gs[a]);
                    } else if a < j && b > j {
                        assert(gs@[b] == pre_gs[b - 1]);
                    } else if a == j {
                        assert(gs@[b] == pre_gs[b - 1]);
                        assert(pre_gs[j as int].day > d);
                        if b - 1 > j {
                            assert(pre_gs[j as int].day < pre_gs[b - 1].day);
                        }
                    }
                }
                assert forall|i: int| 0 <= i < newp.len() implies exists|t: int|
                    0 <= t < gs@.len() && (#[trigger] gs@[t].day as int) == day_of_item(
                        #[trigger] newp[i],
                        off,
                    ) by {
                    if i < done {
                        let t0 = choose|t: int|
                            0 <= t < pre_gs.len() && (#[trigger] pre_gs[t].day as int)
                                == day_of_item(prefix[i], off);
                        if t0 < j {
                            assert(gs@[t0].day == pre_gs[t0].day);
                        } else {
                            assert(gs@[t0 + 1].day == pre_gs[t0].day);
                        }
                    } else {
                        assert(gs@[j as int].day as int == day_of_item(it, off));
                    }
                }
            }
        }
        done = done + 1;
    }
    proof {
        assert(all.take(done as int) =~= all);
        assert forall|i: int| 0 <= i < all.len() implies day_in_range(
            day_of_item(#[trigger] all[i], off),
        ) by {
            let j0 = choose|j: int|
                0 <= j < gs@.len() && (#[trigger] gs@[j].day as int) == day_of_item(all[i], off);
            assert(day_in_range(gs@[j0].day as int));
        }
        assert(all_days_in_range(all, utc_offset as int));
        assert forall|i: int, j: int| 0 <= i < j < gs@.len() implies lex_lt(
            #[trigger] gs@[i].key@,
            #[trigger] gs@[j].key@,
        ) by {
            lemma_key_of_day_lex(gs@[i].day as int, gs@[j].day as int);
        }
    }
    Ok(gs)
}

/// The string value of an item's metric field, where it is a string.
pub open spec fn metric_str_of(it: Item, k: Seq<char>) -> Option<Seq<char>> {
    match map_get(it.metrics@, k) {
        Some(JsonScalar::Str(s)) => Some(s@),
        _ => None,
    }
}

/// What a correct metric grouping looks like: every group holds
/// exactly the items carrying its string value (and so is nonempty),
/// keys are pairwise distinct, and every occurring value has a group.
pub open spec fn metric_groups_ok(
    gs: Seq<(String, Vec<Item>)>,
    items: Seq<Item>,
    k: Seq<char>,
) -> bool {
    &&& forall|j: int|
        0 <= j < gs.len() ==> ((#[trigger] gs[j].1@) == items.filter(metric_pred(k, gs[j].0@))
            && gs[j].1@.len() > 0)
    &&& forall|i: int, j: int| 0 <= i < j < gs.len() ==> gs[i].0@ != gs[j].0@
    &&& forall|i: int|
        0 <= i < items.len() ==> (metric_str_of(#[trigger] items[i], k) is Some ==> exists|j: int|
            0 <= j < gs.len() && (#[trigger] gs[j].0@) == metric_str_of(items[i], k)->0)
}

/// Groups items by the string value of a metric field, in order of
/// first occurrence; items where the field is absent or not a string
/// are left out of every group (documented lossy behavior).
pub fn group_by_metrics(metrics: &String, items: Vec<Item>) -> (r: Vec<(String, Vec<Item>)>)
    ensures
        metric_groups_ok(r@, items@, metrics@),
{
    let ghost all = items@;
    let ghost k = metrics@;
    let mut src = items;
    let total: usize = src.len();
    let mut gs: Vec<(String, Vec<Item>)> = Vec::new();
    let mut done: usize = 0;
    proof {
        assert(all.take(0) =~= Seq::<Item>::empty());
        assert(src@ =~= all.skip(0));
    }
    while src.len() > 0
        invariant
            all == items@,
            total == all.len(),
            done + src@.len() == all.len(),
            0 <= done <= all.len(),
            src@ == all.skip(done as int),
            k == metrics@,
            forall|j: int|
                0 <= j < gs@.len() ==> (#[trigger] gs@[j].1@) == all.take(done as int).filter(
                    metric_pred(k, gs@[j].0@),
                ),
            forall|j: int| 0 <= j < gs@.len() ==> (#[trigger] gs@[j].1@).len() > 0,
            forall|i: int, j: int| 0 <= i < j < gs@.len() ==> gs@[i].0@ != gs@[j].0@,
            forall|i: int|
                0 <= i < done ==> (metric_str_of(#[trigger] all[i], k) is Some ==> exists|j: int|
                    0 <= j < gs@.len() && (#[trigger] gs@[j].0@) == metric_str_of(all[i], k)->0),
        decreases src.len(),
    {
        let ghost prefix = all.take(done as int);
        let it = src.remove(0);
        proof {
            assert(all.skip(done as int)[0] == all[done as int]);
            assert(it == all[done as int]);
            assert(all.skip(done as int).subrange(1, all.skip(done as int).len() as int) =~= all.skip(
                done as int + 1,
            ));
            assert(all.take(done as int + 1).drop_last() =~= prefix);
            assert(all.take(done as int + 1).last() == it);
        }
        let ghost newp = all.take(done as int + 1);
        let sval = match it.metric(metrics) {
            None => None,
            Some(v) => match v.as_str() {
                None => None,
                Some(s) => Some(s.clone()),
            },
        };
        match sval {
            None => {
                proof {
                    reveal(Seq::filter);
                    assert(metric_str_of(it, k) is None);
                    assert forall|j: int| 0 <= j < gs@.len() implies (#[trigger] gs@[j].1@)
                        == newp.filter(metric_pred(k, gs@[j].0@)) by {
                        let pt = metric_pred(k, gs@[j].0@);
                        assert(!pt(it));
                        assert(newp.filter(pt) == prefix.filter(pt));
                    }
                }
            },
            Some(s) => {
                proof {
                    assert(metric_str_of(it, k) == Some(s@));
                }
                let glen = gs.len();
                let mut j: usize = 0;
                let mut found: bool = false;
                while j < glen && !found
                    invariant
                        0 <= j <= glen,
                        glen == gs@.len(),
                        !found ==> forall|t: int| 0 <= t < j ==> #[trigger] gs@[t].0@ != s@,
                        found ==> j < glen && gs@[j as int].0@ == s@,
                    decreases glen - j, (if found { 0int } else { 1int }),
                {
                    if gs[j].0 == s {
                        found = true;
                    } else {
                        j = j + 1;
                    }
                }
                if found {
                    let ghost pre_gs = gs@;
                    let mut g = gs.remove(j);
                    g.1.push(it);
                    gs.insert(j, g);
                    proof {
                        reveal(Seq::filter);
                        assert(gs@ =~= pre_gs.update(j as int, g));
                        assert forall|t: int| 0 <= t < gs@.len() implies (#[trigger] gs@[t].1@)
                            == newp.filter(metric_pred(k, gs@[t].0@)) by {
                            let pt = metric_pred(k, gs@[t].0@);
                            if t == j {
                                assert(pt(it));
                                assert(newp.filter(pt) == prefix.filter(pt).push(it));
                            } else {
                                assert(gs@[t] == pre_gs[t]);
                                assert(!pt(it)) by {
                                    assert(pre_gs[j as int].0@ == s@);
                                    assert(pre_gs[t].0@ != pre_gs[j as int].0@);
                                }
                                assert(newp.filter(pt) == prefix.filter(pt));
                            }
                        }
                        assert forall|i: int| 0 <= i < done + 1 implies (metric_str_of(
                            #[trigger] all[i],
                            k,
                        ) is Some ==> exists|t: int|
                            0 <= t < gs@.len() && (#[trigger] gs@[t].0@) == metric_str_of(
                                all[i],
                                k,
                            )->0) by {
                            if i < done {
                                if metric_str_of(prefix[i], k) is Some {
                                    let t0 = choose|t: int|
                                        0 <= t < pre_gs.len() && (#[trigger] pre_gs[t].0@)
                                            == metric_str_of(all[i], k)->0;
                                    assert(gs@[t0].0@ == pre_gs[t0].0@);
                                }
                            } else {
                                assert(gs@[j as int].0@ == s@);
                            }
                        }
                    }
                } else {
                    let mut v: Vec<Item> = Vec::new();
                    v.push(it);
                    let ghost pre_gs = gs@;
                    gs.push((s, v));
                    proof {
                        reveal(Seq::filter);
                        let p = metric_pred(k, s@);
                        assert(p(it));
                        assert forall|i: int| 0 <= i < prefix.len() implies !p(
                            #[trigger] prefix[i],
                        ) by {
                            if p(prefix[i]) {
                                let t0 = choose|t: int|
                                    0 <= t < pre_gs.len() && (#[trigger] pre_gs[t].0@)
                                        == metric_str_of(all[i], k)->0;
                                assert(pre_gs[t0].0@ != s@);
                                assert(false);
                            }
                        }
                        prefix.lemma_all_neg_filter_empty(p);
                        assert(newp.filter(p) =~= seq![it]);
                        assert forall|t: int| 0 <= t < gs@.len() implies (#[trigger] gs@[t].1@)
                            == newp.filter(metric_pred(k, gs@[t].0@)) by {
                            let pt = metric_pred(k, gs@[t].0@);
                            if t < pre_gs.len() {
                                assert(gs@[t] == pre_gs[t]);
                                assert(!pt(it)) by {
                                    assert(pre_gs[t].0@ != s@);
                                }
                                assert(newp.filter(pt) == prefix.filter(pt));
                            } else {
                                assert(gs@[t].0@ == s@ && gs@[t].1@ =~= seq![it]);
                            }
                        }
                        assert forall|i: int| 0 <= i < done + 1 implies (metric_str_of(
                            #[trigger] all[i],
                            k,
                        ) is Some ==> exists|t: int|
                            0 <= t < gs@.len() && (#[trigger] gs@[t].0@) == metric_str_of(
                                all[i],
                                k,
                            )->0) by {
                            if i < done {
                                if metric_str_of(prefix[i], k) is Some {
                                    let t0 = choose|t: int|
                                        0 <= t < pre_gs.len() && (#[trigger] pre_gs[t].0@)
                                            == metric_str_of(all[i], k)->0;
                                    assert(gs@[t0].0@ == pre_gs[t0].0@);
                                }
                            } else {
                                assert(gs@[gs@.len() - 1].0@ == s@);
                            }
                        }
                    }
                }
            },
        }
        done = done + 1;
    }
    proof {
        assert(all.take(done as int) =~= all);
        assert(metric_groups_ok(gs@, all, k));
    }
    gs
}

} // verus!

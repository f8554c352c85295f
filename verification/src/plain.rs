use vstd::prelude::*;

verus! {

use crate::filter::CommonFilter;
use crate::group::sort_items_by_timestamp;
use crate::json::JsonScalar;
use crate::model::Item;

/// One row of a plain listing.
#[derive(Debug)]
pub struct PlainItem {
    pub id: i64,
    pub timestamp: i64,
    pub name: Option<String>,
    pub ref_id: String,
    pub payload: Option<Vec<(String, JsonScalar)>>,
    pub metrics: Vec<(String, JsonScalar)>,
}

/// A plain listing: the query it answered, a format version, and the
/// projected items in timestamp order.
#[derive(Debug)]
pub struct PlainResult {
    pub query: CommonFilter,
    pub version: i64,
    pub items: Vec<PlainItem>,
}

/// Whether a name is on the allow list.
pub open spec fn contains_str(a: Seq<String>, s: Seq<char>) -> bool {
    exists|t: int| 0 <= t < a.len() && (#[trigger] a[t]@) == s
}

/// The metric entries an allow list keeps.
pub open spec fn allow_pred(allow: Seq<String>) -> spec_fn((String, JsonScalar)) -> bool {
    |kv: (String, JsonScalar)| contains_str(allow, kv.0@)
}

/// Metrics restricted to an allow list; an empty list keeps all.
pub open spec fn restrict_spec(m: Seq<(String, JsonScalar)>, allow: Seq<String>) -> Seq<
    (String, JsonScalar),
> {
    if allow.len() == 0 {
        m
    } else {
        m.filter(allow_pred(allow))
    }
}

/// The allow list a filter carries (absent or empty means none).
pub open spec fn allow_of(f: CommonFilter) -> Seq<String> {
    match f.metrics {
        Some(v) => v@,
        None => Seq::<String>::empty(),
    }
}

/// The projection of one item, metrics restricted to the allow list.
pub open spec fn plain_matches(p: PlainItem, it: Item, allow: Seq<String>) -> bool {
    &&& p.id == (if it.id is Some {
        it.id->0
    } else {
        0
    })
    &&& p.timestamp == it.timestamp
    &&& p.name == it.name
    &&& p.ref_id == it.ref_id
    &&& p.payload == it.payload
    &&& p.metrics@ == restrict_spec(it.metrics@, allow)
}

/// Decides membership on the allow list.
pub fn contains_string(v: &Vec<String>, s: &String) -> (r: bool)
    ensures
        r == contains_str(v@, s@),
{
    let n = v.len();
    let mut i: usize = 0;
    while i < n
        invariant
            0 <= i <= n,
            n == v@.len(),
            forall|t: int| 0 <= t < i ==> (#[trigger] v@[t]@) != s@,
        decreases n - i,
    {
        if v[i] == *s {
            return true;
        }
        i = i + 1;
    }
    false
}

/// Keeps the metric entries whose names are on the (nonempty) allow
/// list, in order.
fn extract_metrics(value: Vec<(String, JsonScalar)>, target: &Vec<String>) -> (r: Vec<
    (String, JsonScalar),
>)
    ensures
        r@ == restrict_spec(value@, target@),
{
    if target.len() == 0 {
        return value;
    }
    let ghost all = value@;
    let ghost p = allow_pred(target@);
    let mut src = value;
    let total: usize = src.len();
    let mut r: Vec<(String, JsonScalar)> = Vec::new();
    let mut done: usize = 0;
    proof {
        reveal(Seq::filter);
        assert(src@ =~= all.skip(0));
        assert(all.take(0).filter(p) =~= Seq::<(String, JsonScalar)>::empty());
    }
    while src.len() > 0
        invariant
            total == all.len(),
            done + src@.len() == all.len(),
            src@ == all.skip(done as int),
            p == allow_pred(target@),
            r@ == all.take(done as int).filter(p),
        decreases src.len(),
    {
        let kv = src.remove(0);
        proof {
            reveal(Seq::filter);
            assert(all.skip(done as int)[0] == all[done as int]);
            assert(all.skip(done as int).subrange(1, all.skip(done as int).len() as int) =~= all.skip(
                done as int + 1,
            ));
            assert(all.take(done as int + 1).drop_last() =~= all.take(done as int));
            assert(all.take(done as int + 1).last() == all[done as int]);
        }
        if contains_string(target, &kv.0) {
            r.push(kv);
        }
        done = done + 1;
    }
    proof {
        assert(all.take(done as int) =~= all);
    }
    r
}

/// Projects each item in place: same order, each row the projection
/// of the item at its index.
pub fn plain_items_of(items: Vec<Item>, target: &Option<Vec<String>>) -> (r: Vec<PlainItem>)
    ensures
        r@.len() == items@.len(),
        forall|i: int|
            0 <= i < r@.len() ==> plain_matches(
                #[trigger] r@[i],
                items@[i],
                match *target {
                    Some(v) => v@,
                    None => Seq::<String>::empty(),
                },
            ),
{
    let empty: Vec<String> = Vec::new();
    let tv: &Vec<String> = match target {
        Some(v) => v,
        None => &empty,
    };
    let ghost allow = tv@;
    let mut src = items;
    let ghost all = src@;
    let total: usize = src.len();
    let mut r: Vec<PlainItem> = Vec::new();
    let mut done: usize = 0;
    proof {
        assert(src@ =~= all.skip(0));
    }
    while src.len() > 0
        invariant
            total == all.len(),
            done + src@.len() == all.len(),
            src@ == all.skip(done as int),
            allow == tv@,
            tv@ == (match *target {
                Some(v) => v@,
                None => Seq::<String>::empty(),
            }),
            r@.len() == done,
            forall|i: int| 0 <= i < done ==> plain_matches(#[trigger] r@[i], all[i], allow),
        decreases src.len(),
    {
        let it = src.remove(0);
        proof {
            assert(all.skip(done as int)[0] == all[done as int]);
            assert(all.skip(done as int).subrange(1, all.skip(done as int).len() as int) =~= all.skip(
                done as int + 1,
            ));
        }
        let Item { id, ref_id, timestamp, name, action: _, metrics, payload } = it;
        let pid: i64 = match id {
            Some(v) => v,
            None => 0,
        };
        let pm = extract_metrics(metrics, tv);
        r.push(PlainItem { id: pid, timestamp, name, ref_id, payload, metrics: pm });
        done = done + 1;
    }
    r
}

/// Restricting by either of two allow lists that agree on emptiness
/// and contents is one restriction.
proof fn lemma_restrict_same(m: Seq<(String, JsonScalar)>, a1: Seq<String>, a2: Seq<String>)
    requires
        (a1.len() == 0 && a2.len() == 0) || (a1.len() == a2.len() && forall|t: int|
            0 <= t < a1.len() ==> (#[trigger] a1[t])@ == a2[t]@),
    ensures
        restrict_spec(m, a1) == restrict_spec(m, a2),
{
    if a1.len() == 0 {
    } else {
        assert(forall|s: Seq<char>| contains_str(a1, s) == contains_str(a2, s)) by {
            assert forall|s: Seq<char>| contains_str(a1, s) == contains_str(a2, s) by {
                if contains_str(a1, s) {
                    let t = choose|t: int| 0 <= t < a1.len() && (#[trigger] a1[t]@) == s;
                    assert(a2[t]@ == s);
                }
                if contains_str(a2, s) {
                    let t = choose|t: int| 0 <= t < a2.len() && (#[trigger] a2[t]@) == s;
                    assert(a1[t]@ == s);
                }
            }
        }
        lemma_filter_ext(m, allow_pred(a1), allow_pred(a2));
    }
}

/// Filters by pointwise-equal predicates agree.
proof fn lemma_filter_ext(
    m: Seq<(String, JsonScalar)>,
    p1: spec_fn((String, JsonScalar)) -> bool,
    p2: spec_fn((String, JsonScalar)) -> bool,
)
    requires
        forall|kv: (String, JsonScalar)| #[trigger] p1(kv) == p2(kv),
    ensures
        m.filter(p1) == m.filter(p2),
    decreases m.len(),
{
    reveal(Seq::filter);
    if m.len() > 0 {
        lemma_filter_ext(m.drop_last(), p1, p2);
    }
}

/// A character-identical copy of a string list.
pub fn copy_strings(v: &Vec<String>) -> (r: Vec<String>)
    ensures
        r@.len() == v@.len(),
        forall|i: int| 0 <= i < r@.len() ==> (#[trigger] r@[i]) == v@[i],
{
    let mut r: Vec<String> = Vec::new();
    let n = v.len();
    let mut i: usize = 0;
    while i < n
        invariant
            0 <= i <= n,
            n == v@.len(),
            r@.len() == i,
            forall|t: int| 0 <= t < i ==> (#[trigger] r@[t]) == v@[t],
        decreases n - i,
    {
        r.push(v[i].clone());
        i = i + 1;
    }
    r
}

/// Every row is the projection of the item at its index.
pub open spec fn plain_rows_of(rows: Seq<PlainItem>, s: Seq<Item>, allow: Seq<String>) -> bool {
    &&& rows.len() == s.len()
    &&& forall|i: int| 0 <= i < rows.len() ==> plain_matches(#[trigger] rows[i], s[i], allow)
}

/// The listing is the input's items, reordered by timestamp and
/// projected row for row under the filter's allow list.
pub open spec fn plain_listing_ok(
    res: PlainResult,
    s: Seq<Item>,
    items: Seq<Item>,
    f: CommonFilter,
) -> bool {
    &&& s.to_multiset() == items.to_multiset()
    &&& crate::group::sorted_by_ts(s)
    &&& plain_rows_of(res.items@, s, allow_of(f))
}

/// Some timestamp-sorted arrangement of the items projects row for
/// row onto the listing.
pub open spec fn plain_result_exists(res: PlainResult, items: Seq<Item>, f: CommonFilter) -> bool {
    exists|s: Seq<Item>| #[trigger] plain_listing_ok(res, s, items, f)
}

/// A sorted arrangement that projects onto the listing exists.
proof fn lemma_plain_exists(res: PlainResult, s: Seq<Item>, items: Seq<Item>, f: CommonFilter)
    requires
        plain_listing_ok(res, s, items, f),
    ensures
        exists|s2: Seq<Item>| #[trigger] plain_listing_ok(res, s2, items, f),
{
}

/// Builds the plain listing: every matching item projected to its
/// row, metrics restricted to the allow list where one is given, in
/// timestamp order.
pub fn query_plain(filter: CommonFilter, items: Vec<Item>) -> (r: PlainResult)
    ensures
        r.version == 1,
        r.query == filter,
        r.items@.len() == items@.len(),
        plain_result_exists(r, items@, filter),
        forall|i: int, j: int|
            0 <= i < j < r.items@.len() ==> (#[trigger] r.items@[i]).timestamp
                <= (#[trigger] r.items@[j]).timestamp,
{
    let ghost items_view = items@;
    let sorted = sort_items_by_timestamp(items);
    let ghost sorted_view = sorted@;
    let target = match &filter.metrics {
        Some(v) => if v.len() == 0 {
            None
        } else {
            Some(copy_strings(v))
        },
        None => None,
    };
    let ghost tallow = if target is Some {
        target->0@
    } else {
        Seq::<String>::empty()
    };
    let rows = plain_items_of(sorted, &target);
    proof {
        assert forall|i: int, j: int| 0 <= i < j < rows@.len() implies (#[trigger] rows@[i]).timestamp
            <= (#[trigger] rows@[j]).timestamp by {
            assert(rows@[i].timestamp == sorted_view[i].timestamp);
            assert(rows@[j].timestamp == sorted_view[j].timestamp);
        }
    }
    let res = PlainResult { query: filter, version: 1, items: rows };
    proof {
        assert forall|i: int| 0 <= i < rows@.len() implies plain_matches(
            #[trigger] rows@[i],
            sorted_view[i],
            allow_of(res.query),
        ) by {
            assert(plain_matches(rows@[i], sorted_view[i], tallow));
            lemma_restrict_same(sorted_view[i].metrics@, tallow, allow_of(res.query));
        }
        assert(plain_listing_ok(res, sorted_view, items_view, res.query));
        assert(items_view == items@);
        lemma_plain_exists(res, sorted_view, items@, res.query);
        assert(plain_result_exists(res, items@, res.query));
    }
    res
}

} // verus!

use vstd::prelude::*;

verus! {

use crate::json::JsonScalar;

/// The kinds of values a metric field can carry.
#[derive(Clone, Copy, Debug, PartialEq, Eq, Structural)]
pub enum MetricsValueType {
    /// A time, in milliseconds.
    Time,
    Count,
    Amount,
    Enum,
}

/// The definition of one metric field.
pub struct Metrics {
    /// Name of the field.
    pub field: String,
    /// Label of the field.
    pub label: String,
    /// Value type.
    pub value_type: MetricsValueType,
    pub required: bool,
}

impl Metrics {
    pub fn new(field: &str, label: &str, value_type: MetricsValueType, required: bool) -> (r:
        Metrics)
        ensures
            r.field@ == field@,
            r.label@ == label@,
            r.value_type == value_type,
            r.required == required,
    {
        Metrics { field: String::from_str(field), label: String::from_str(label), value_type, required }
    }
}

/// A predefined item-producer category with a fixed metric schema.
#[derive(Clone, Copy, Debug, PartialEq, Eq, Structural)]
pub enum Builtin {
    BrowserTime,
}

impl Builtin {
    /// Whether several buckets of this builtin may exist side by side.
    pub fn is_multiple(&self) -> (r: bool)
        ensures
            r == match self {
                Builtin::BrowserTime => true,
            },
    {
        match self {
            Builtin::BrowserTime => true,
        }
    }

    /// The metric fields items of this builtin carry.
    pub fn get_metrics_def(&self) -> (r: Vec<Metrics>)
        ensures
            r@.len() == 2,
            r@[0].field@ == "visit"@,
            r@[0].label@ == "Visit count"@,
            r@[0].value_type == MetricsValueType::Count,
            r@[0].required == false,
            r@[1].field@ == "focus"@,
            r@[1].label@ == "Focus time"@,
            r@[1].value_type == MetricsValueType::Time,
            r@[1].required == false,
    {
        match self {
            Builtin::BrowserTime => {
                let mut v: Vec<Metrics> = Vec::new();
                v.push(Metrics::new("visit", "Visit count", MetricsValueType::Count, false));
                v.push(Metrics::new("focus", "Focus time", MetricsValueType::Time, false));
                v
            },
        }
    }

    /// The display name a bucket of this builtin gets by default.
    pub fn get_default_name(&self) -> (r: String)
        ensures
            r@ == "Browser Time"@,
    {
        match self {
            Builtin::BrowserTime => String::from_str("Browser Time"),
        }
    }
}

/// Chart styles a bucket can offer.
#[derive(Clone, Copy, Debug, PartialEq, Eq, Structural)]
pub enum ChartSeries {
    CalendarHeat,
    Line,
}

#[derive(Clone, Copy, Debug, PartialEq, Eq, Structural)]
pub enum BucketStatus {
    Enabled,
    Disabled,
}

impl Default for BucketStatus {
    fn default() -> (r: Self)
        ensures
            r == BucketStatus::Enabled,
    {
        BucketStatus::Enabled
    }
}

/// Where a tag can be used.
#[derive(Clone, Copy, Debug, PartialEq, Eq, Structural)]
pub enum TagUsage {
    BUCKET,
    ITEM,
}

/// A label attached to buckets or items.
#[derive(Clone, Debug)]
pub struct Tag {
    pub id: Option<i64>,
    pub label: String,
    pub value: Option<String>,
    pub created: Option<i64>,
    pub last_modified: Option<i64>,
    pub usage: TagUsage,
}

/// An id with a display name.
#[derive(Clone, Debug)]
pub struct NamingEntity {
    pub id: Option<i64>,
    pub name: String,
}

/// One timestamped record with a metrics map and an optional payload.
/// The engine only reads items; it never mutates or persists them.
#[derive(Clone, Debug)]
pub struct Item {
    pub id: Option<i64>,
    pub ref_id: String,
    /// Milliseconds since the epoch, UTC.
    pub timestamp: i64,
    pub name: Option<String>,
    pub action: String,
    /// An ordered mapping from metric name to value.
    pub metrics: Vec<(String, JsonScalar)>,
    pub payload: Option<Vec<(String, JsonScalar)>>,
}

/// The first value an ordered mapping holds under a key.
pub open spec fn map_get(m: Seq<(String, JsonScalar)>, k: Seq<char>) -> Option<JsonScalar>
    decreases m.len(),
{
    if m.len() == 0 {
        None
    } else if m[0].0@ == k {
        Some(m[0].1)
    } else {
        map_get(m.skip(1), k)
    }
}

impl Item {
    /// The value of one metric field, if present.
    pub fn metric(&self, k: &String) -> (r: Option<&JsonScalar>)
        ensures
            match r {
                Some(v) => map_get(self.metrics@, k@) == Some(*v),
                None => map_get(self.metrics@, k@) is None,
            },
    {
        let n = self.metrics.len();
        let mut i: usize = 0;
        proof {
            assert(self.metrics@.skip(0) =~= self.metrics@);
        }
        while i < n
            invariant
                0 <= i <= n,
                n == self.metrics@.len(),
                map_get(self.metrics@.skip(i as int), k@) == map_get(self.metrics@, k@),
            decreases n - i,
        {
            if self.metrics[i].0 == *k {
                proof {
                    assert(self.metrics@.skip(i as int)[0] == self.metrics@[i as int]);
                }
                return Some(&self.metrics[i].1);
            }
            proof {
                assert(self.metrics@.skip(i as int)[0] == self.metrics@[i as int]);
                assert(self.metrics@.skip(i as int).skip(1) =~= self.metrics@.skip(i as int + 1));
            }
            i = i + 1;
        }
        proof {
            assert(self.metrics@.skip(i as int).len() == 0);
        }
        None
    }
}

/// A named collection of items, optionally tied to a builtin.
#[derive(Clone, Debug)]
pub struct Bucket {
    pub id: Option<i64>,
    pub no: Option<i64>,
    pub name: String,
    pub builtin: Option<Builtin>,
    pub builtin_ref_id: Option<String>,
    pub status: BucketStatus,
    pub desc: Option<String>,
    pub url: Option<String>,
    pub tag: Option<Vec<Tag>>,
    pub created: Option<i64>,
    pub last_modified: Option<i64>,
    pub payload: Option<Vec<(String, JsonScalar)>>,
}

impl Bucket {
    /// The fresh bucket a builtin is provisioned with.
    pub fn default_builtin(builtin: &Builtin, ref_id: Option<String>) -> (r: Self)
        ensures
            r.id is None,
            r.no is None,
            r.name@ == "Browser Time"@,
            r.builtin == Some(*builtin),
            r.builtin_ref_id == ref_id,
            r.status == BucketStatus::Enabled,
            r.desc is None,
            r.url is None,
            r.tag is None,
            r.created is None,
            r.last_modified is None,
            r.payload is None,
    {
        Bucket {
            id: None,
            no: None,
            name: builtin.get_default_name(),
            builtin: Some(builtin.clone()),
            builtin_ref_id: ref_id,
            status: BucketStatus::default(),
            desc: None,
            url: None,
            tag: None,
            created: None,
            last_modified: None,
            payload: None,
        }
    }
}

/// A label/value pair for a metric's metadata.
#[derive(Clone, Debug)]
pub struct MetaItem {
    pub value: JsonScalar,
    pub label: String,
}

/// The chart styles a builtin supports.
pub fn list_series_by_builtin(builtin: &Builtin) -> (r: Vec<ChartSeries>)
    ensures
        r@.len() == 2,
        r@[0] == ChartSeries::CalendarHeat,
        r@[1] == ChartSeries::Line,
{
    match builtin {
        Builtin::BrowserTime => {
            let mut v: Vec<ChartSeries> = Vec::new();
            v.push(ChartSeries::CalendarHeat);
            v.push(ChartSeries::Line);
            v
        },
    }
}

/// The chart styles a bucket supports; customized buckets carry none
/// yet.
pub fn list_series_by_bucket(bucket: &Bucket) -> (r: Result<Vec<ChartSeries>, crate::err::Error>)
    ensures
        bucket.builtin is Some <==> r is Ok,
        r matches Ok(v) ==> (v@.len() == 2 && v@[0] == ChartSeries::CalendarHeat && v@[1]
            == ChartSeries::Line),
        bucket.builtin is None ==> r == Err::<Vec<ChartSeries>, crate::err::Error>(
            crate::err::Error::NotSupported,
        ),
{
    match &bucket.builtin {
        Some(b) => Ok(list_series_by_builtin(b)),
        None => Err(crate::err::Error::NotSupported),
    }
}

} // verus!

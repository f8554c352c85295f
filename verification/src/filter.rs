use vstd::prelude::*;

verus! {

use crate::date::digit_char;
use crate::err::Error;
use crate::json::{sql_val_spec, JsonScalar, SqlValue};
use crate::model::Builtin;

/// The comparison a payload filter applies.
#[derive(Clone, Copy, Debug, PartialEq, Eq, Structural)]
pub enum FilterOp {
    Eq,
    Neq,
    IsNul,
    NotNul,
}

impl FilterOp {
    /// The predicate vocabulary each operator lowers to.
    pub open spec fn sql_spec(self) -> Seq<char> {
        match self {
            FilterOp::Eq => "="@,
            FilterOp::Neq => "!="@,
            FilterOp::IsNul => "IS NULL"@,
            FilterOp::NotNul => "IS NOT NULL"@,
        }
    }

    pub fn to_sql(&self) -> (r: String)
        ensures
            r@ == self.sql_spec(),
    {
        match self {
            FilterOp::Eq => String::from_str("="),
            FilterOp::Neq => String::from_str("!="),
            FilterOp::IsNul => String::from_str("IS NULL"),
            FilterOp::NotNul => String::from_str("IS NOT NULL"),
        }
    }
}

/// One predicate over a JSON field of the payload.
#[derive(Clone, Debug)]
pub struct PayloadFilter {
    pub path: String,
    pub op: FilterOp,
    pub val: Option<JsonScalar>,
}

/// A bucket selector: an explicit id, or a builtin type with an
/// optional instance reference. Exactly one form should be populated.
#[derive(Clone, Debug)]
pub struct BucketKey {
    pub id: Option<i64>,
    pub builtin: Option<Builtin>,
    pub builtin_ref_id: Option<String>,
}

impl BucketKey {
    pub fn new_from_id(id: i64) -> (r: Self)
        ensures
            r.id == Some(id),
            r.builtin is None,
            r.builtin_ref_id is None,
    {
        BucketKey { id: Some(id), builtin: None, builtin_ref_id: None }
    }
}

/// The filter every report request carries.
#[derive(Clone, Debug)]
pub struct CommonFilter {
    pub bucket: BucketKey,
    /// UTC offset in minutes; local time is UTC minus this offset.
    pub utc_offset: i64,
    pub ts_start: Option<i64>,
    pub ts_end: Option<i64>,
    pub payload: Option<Vec<PayloadFilter>>,
    pub metrics: Option<Vec<String>>,
}

/// Whether the path parser accepts a JSON path expression.
/// The verdict is a function of the expression alone.
pub uninterp spec fn path_ok(s: Seq<char>) -> bool;

/// Scanning left to right with `run` digits already in hand, no
/// digit run ever reaches nineteen characters.
pub open spec fn digit_runs_ok_from(s: Seq<char>, run: int) -> bool
    decreases s.len(),
{
    if s.len() == 0 {
        true
    } else if crate::dec::is_digit(s[0]) {
        run < 18 && digit_runs_ok_from(s.skip(1), run + 1)
    } else {
        digit_runs_ok_from(s.skip(1), 0)
    }
}

/// Every maximal digit run in the string is at most 18 characters.
pub open spec fn digit_runs_ok(s: Seq<char>) -> bool {
    digit_runs_ok_from(s, 0)
}

/// Decides `digit_runs_ok`.
fn digit_runs_bounded(s: &str) -> (r: bool)
    ensures
        r == digit_runs_ok(s@),
{
    let n = s.unicode_len();
    let mut i: usize = 0;
    let mut run: u32 = 0;
    proof {
        assert(s@.skip(0) =~= s@);
    }
    while i < n
        invariant
            0 <= i <= n,
            n == s@.len(),
            0 <= run <= 18,
            digit_runs_ok(s@) == digit_runs_ok_from(s@.skip(i as int), run as int),
        decreases n - i,
    {
        let c = s.get_char(i);
        proof {
            assert(s@.skip(i as int)[0] == s@[i as int]);
            assert(s@.skip(i as int).skip(1) =~= s@.skip(i as int + 1));
        }
        if crate::dec::is_digit_exec(c) {
            if run >= 18 {
                return false;
            }
            run = run + 1;
        } else {
            run = 0;
        }
        i = i + 1;
    }
    proof {
        assert(s@.skip(n as int) =~= Seq::<char>::empty());
    }
    true
}

/// Relies on `jsonpath::Selector::new`: it parses the expression and
/// reports success, deciding path validity from the string alone.
/// Its parser reads each filter comparison number with an `i64`
/// parse that would abort on nineteen or more digits, so inputs with
/// such a digit run are kept out by the precondition.
#[verifier::external_body]
fn json_path_is_valid(path: &str) -> (r: bool)
    requires
        digit_runs_ok(path@),
    ensures
        r == path_ok(path@),
{
    jsonpath::Selector::new(path).is_ok()
}

/// The decimal digits of a nonnegative number.
pub open spec fn digits_of(n: int) -> Seq<char>
    decreases n,
{
    if n < 10 {
        seq![digit_char(n)]
    } else {
        digits_of(n / 10) + seq![digit_char(n % 10)]
    }
}

/// A positional parameter placeholder: `?` with its one-based index.
pub open spec fn placeholder(idx: int) -> Seq<char> {
    "?"@ + digits_of(idx)
}

/// `n` placeholders from `start` on, joined by commas.
pub open spec fn join_placeholders(start: int, n: int) -> Seq<char>
    decreases n,
{
    if n <= 0 {
        Seq::<char>::empty()
    } else if n == 1 {
        placeholder(start)
    } else {
        join_placeholders(start, n - 1) + ", "@ + placeholder(start + n - 1)
    }
}

/// The clause selecting the resolved buckets.
pub open spec fn clause_bucket(n: int) -> Seq<char> {
    "bucket_id in ("@ + join_placeholders(1, n) + ")"@
}

/// The clause bounding time from below (inclusive).
pub open spec fn clause_ts_start(idx: int) -> Seq<char> {
    "timestamp >= "@ + placeholder(idx)
}

/// The clause bounding time from above (exclusive).
pub open spec fn clause_ts_end(idx: int) -> Seq<char> {
    "timestamp < "@ + placeholder(idx)
}

/// The clause comparing a JSON field with a bound value.
pub open spec fn clause_payload_cmp(path: Seq<char>, op: FilterOp, idx: int) -> Seq<char> {
    "json_field_at(payload, '"@ + path + "') "@ + op.sql_spec() + " "@ + placeholder(idx)
}

/// The clause testing a JSON field for (non-)null.
pub open spec fn clause_payload_null(path: Seq<char>, op: FilterOp) -> Seq<char> {
    "json_field_at(payload, '"@ + path + "') "@ + op.sql_spec()
}

/// What compiling the payload predicates yields, placeholders
/// numbered from `idx` on: clauses and bound values in step, or the
/// first failure.
pub open spec fn compile_payload_spec(fs: Seq<PayloadFilter>, idx: int) -> Result<
    (Seq<Seq<char>>, Seq<SqlValue>),
    Error,
>
    decreases fs.len(),
{
    if fs.len() == 0 {
        Ok((Seq::<Seq<char>>::empty(), Seq::<SqlValue>::empty()))
    } else {
        let f = fs[0];
        if !(digit_runs_ok(f.path@) && path_ok(f.path@)) {
            Err(Error::InvalidPath(f.path))
        } else {
            match f.op {
                FilterOp::Eq | FilterOp::Neq => match f.val {
                    None => Err(Error::AbsentValue),
                    Some(v) => if v is Null || v is Obj || v is Arr {
                        Err(Error::UnsupportedType)
                    } else {
                        match compile_payload_spec(fs.skip(1), idx + 1) {
                            Err(e) => Err(e),
                            Ok((cs, ps)) => Ok(
                                (
                                    seq![clause_payload_cmp(f.path@, f.op, idx)] + cs,
                                    seq![sql_val_spec(v)] + ps,
                                ),
                            ),
                        }
                    },
                },
                FilterOp::IsNul | FilterOp::NotNul => match compile_payload_spec(
                    fs.skip(1),
                    idx,
                ) {
                    Err(e) => Err(e),
                    Ok((cs, ps)) => Ok((seq![clause_payload_null(f.path@, f.op)] + cs, ps)),
                },
            }
        }
    }
}

/// The payload predicates of a filter, as a sequence.
pub open spec fn payload_seq(f: CommonFilter) -> Seq<PayloadFilter> {
    match f.payload {
        Some(v) => v@,
        None => Seq::<PayloadFilter>::empty(),
    }
}

/// What the filter compiler yields for a filter and the resolved
/// bucket ids: ordered predicate clauses and matching bound values.
/// No buckets short-circuits to a clause matching nothing.
pub open spec fn compile_spec(f: CommonFilter, ids: Seq<i64>) -> Result<
    (Seq<Seq<char>>, Seq<SqlValue>),
    Error,
> {
    if ids.len() == 0 {
        Ok((seq!["false"@], Seq::<SqlValue>::empty()))
    } else {
        let n = ids.len() as int;
        let c0 = seq![clause_bucket(n)];
        let p0 = Seq::new(ids.len(), |i: int| SqlValue::Integer(ids[i]));
        let idx1 = n + 1;
        let c1 = if f.ts_start is Some {
            c0.push(clause_ts_start(idx1))
        } else {
            c0
        };
        let p1 = if f.ts_start is Some {
            p0.push(SqlValue::Integer(f.ts_start->0))
        } else {
            p0
        };
        let idx2 = if f.ts_start is Some {
            idx1 + 1
        } else {
            idx1
        };
        let c2 = if f.ts_end is Some {
            c1.push(clause_ts_end(idx2))
        } else {
            c1
        };
        let p2 = if f.ts_end is Some {
            p1.push(SqlValue::Integer(f.ts_end->0))
        } else {
            p1
        };
        let idx3 = if f.ts_end is Some {
            idx2 + 1
        } else {
            idx2
        };
        match compile_payload_spec(payload_seq(f), idx3) {
            Err(e) => Err(e),
            Ok((cs, ps)) => Ok((c2 + cs, p2 + ps)),
        }
    }
}

/// The character sequences of a list of strings.
pub open spec fn views_of(cs: Seq<String>) -> Seq<Seq<char>> {
    cs.map_values(|s: String| s@)
}

/// The decimal text of a number.
pub fn u64_to_string(n: u64) -> (r: String)
    ensures
        r@ == digits_of(n as int),
    decreases n,
{
    if n < 10 {
        let r = String::from_str(crate::date::digit_str(n as u32));
        proof {
            assert(r@ =~= digits_of(n as int));
        }
        r
    } else {
        let mut s = u64_to_string(n / 10);
        s.append(crate::date::digit_str((n % 10) as u32));
        proof {
            assert(s@ =~= digits_of(n as int));
        }
        s
    }
}

/// Turns a filter and the resolved bucket ids into an ordered list of
/// predicate clauses and the bound values matching them, placeholders
/// numbered in emission order (see `compile_spec`).
pub fn build_clauses_and_params(filter: &CommonFilter, bucket_ids: &Vec<i64>) -> (r: Result<
    (Vec<String>, Vec<SqlValue>),
    Error,
>)
    requires
        bucket_ids@.len() + payload_seq(*filter).len() + 3 < usize::MAX,
    ensures
        match compile_spec(*filter, bucket_ids@) {
            Ok(t) => (r matches Ok(rt) && views_of(rt.0@) == t.0 && rt.1@ == t.1),
            Err(e) => r == Err::<(Vec<String>, Vec<SqlValue>), Error>(e),
        },
{
    let n = bucket_ids.len();
    if n == 0 {
        let mut cs: Vec<String> = Vec::new();
        cs.push(String::from_str("false"));
        let ps: Vec<SqlValue> = Vec::new();
        proof {
            assert(views_of(cs@) =~= seq!["false"@]);
            assert(ps@ =~= Seq::<SqlValue>::empty());
        }
        return Ok((cs, ps));
    }
    let mut clauses: Vec<String> = Vec::new();
    let mut params: Vec<SqlValue> = Vec::new();
    let mut b_sql = String::from_str("bucket_id in (");
    let mut i: usize = 0;
    proof {
        assert(params@ =~= Seq::new(0, |j: int| SqlValue::Integer(bucket_ids@[j])));
        assert(b_sql@ =~= "bucket_id in ("@ + join_placeholders(1, 0));
    }
    while i < n
        invariant
            n == bucket_ids@.len(),
            0 <= i <= n,
            n + 3 < usize::MAX,
            b_sql@ == "bucket_id in ("@ + join_placeholders(1, i as int),
            params@ == Seq::new(i as nat, |j: int| SqlValue::Integer(bucket_ids@[j])),
            clauses@.len() == 0,
        decreases n - i,
    {
        if i > 0 {
            b_sql.append(", ");
        }
        b_sql.append("?");
        let num = u64_to_string((i + 1) as u64);
        b_sql.append(num.as_str());
        params.push(SqlValue::Integer(bucket_ids[i]));
        proof {
            if i == 0 {
                assert(join_placeholders(1, 1) == placeholder(1));
                assert(b_sql@ =~= "bucket_id in ("@ + join_placeholders(1, 1));
            } else {
                assert(join_placeholders(1, i as int + 1) == join_placeholders(1, i as int) + ", "@
                    + placeholder(i as int + 1));
                assert(b_sql@ =~= "bucket_id in ("@ + join_placeholders(1, i as int + 1));
            }
            assert(params@ =~= Seq::new((i + 1) as nat, |j: int| SqlValue::Integer(bucket_ids@[j])));
        }
        i = i + 1;
    }
    b_sql.append(")");
    proof {
        assert(b_sql@ =~= clause_bucket(n as int));
    }
    clauses.push(b_sql);
    proof {
        assert(views_of(clauses@) =~= seq![clause_bucket(n as int)]);
    }
    let ghost c0 = views_of(clauses@);
    let ghost p0 = params@;
    let mut idx: usize = n + 1;
    if let Some(ts) = filter.ts_start {
        let mut c = String::from_str("timestamp >= ");
        c.append("?");
        let num = u64_to_string(idx as u64);
        c.append(num.as_str());
        proof {
            assert(c@ =~= clause_ts_start(idx as int));
        }
        clauses.push(c);
        params.push(SqlValue::Integer(ts));
        idx = idx + 1;
        proof {
            assert(views_of(clauses@) =~= c0.push(clause_ts_start(n as int + 1)));
        }
    }
    let ghost c1 = views_of(clauses@);
    let ghost p1 = params@;
    let ghost idx2 = idx as int;
    if let Some(ts) = filter.ts_end {
        let mut c = String::from_str("timestamp < ");
        c.append("?");
        let num = u64_to_string(idx as u64);
        c.append(num.as_str());
        proof {
            assert(c@ =~= clause_ts_end(idx as int));
        }
        clauses.push(c);
        params.push(SqlValue::Integer(ts));
        idx = idx + 1;
        proof {
            assert(views_of(clauses@) =~= c1.push(clause_ts_end(idx2)));
        }
    }
    proof {
        lemma_compile_base(*filter, bucket_ids@, views_of(clauses@), params@, idx as int);
    }
    let empty_pfs: Vec<PayloadFilter> = Vec::new();
    let pfs: &Vec<PayloadFilter> = match &filter.payload {
        Some(v) => v,
        None => &empty_pfs,
    };
    let ghost pseq = payload_seq(*filter);
    proof {
        assert(pfs@ =~= pseq);
        assert(pseq.skip(0) =~= pseq);
    }
    let m = pfs.len();
    let mut j: usize = 0;
    while j < m
        invariant
            0 <= j <= m,
            m == pseq.len(),
            pfs@ == pseq,
            n as int + m + 3 < usize::MAX,
            idx <= n + 3 + j,
            match compile_payload_spec(pseq.skip(j as int), idx as int) {
                Ok(t) => compile_spec(*filter, bucket_ids@) == Ok::<_, Error>(
                    (views_of(clauses@) + t.0, params@ + t.1),
                ),
                Err(e) => compile_spec(*filter, bucket_ids@) == Err::<
                    (Seq<Seq<char>>, Seq<SqlValue>),
                    Error,
                >(e),
            },
        decreases m - j,
    {
        let f = &pfs[j];
        let ghost cs0 = clauses@;
        let ghost ps0 = params@;
        let ghost idx0 = idx as int;
        let ghost fsp = pseq[j as int];
        proof {
            assert(pseq.skip(j as int)[0] == pseq[j as int]);
            assert(pseq.skip(j as int).skip(1) =~= pseq.skip(j as int + 1));
        }
        if !digit_runs_bounded(f.path.as_str()) {
            return Err(Error::InvalidPath(f.path.clone()));
        }
        if !json_path_is_valid(f.path.as_str()) {
            return Err(Error::InvalidPath(f.path.clone()));
        }
        match f.op {
            FilterOp::Eq | FilterOp::Neq => {
                match &f.val {
                    None => {
                        return Err(Error::AbsentValue);
                    },
                    Some(v) => {
                        if v.is_null() || v.is_object() || v.is_array() {
                            return Err(Error::UnsupportedType);
                        }
                        let mut c = String::from_str("json_field_at(payload, '");
                        c.append(f.path.as_str());
                        c.append("') ");
                        let op_sql = f.op.to_sql();
                        c.append(op_sql.as_str());
                        c.append(" ");
                        c.append("?");
                        let num = u64_to_string(idx as u64);
                        c.append(num.as_str());
                        proof {
                            assert(c@ =~= clause_payload_cmp(fsp.path@, fsp.op, idx0));
                        }
                        clauses.push(c);
                        params.push(crate::json::json_val_to_sql_val(v));
                        idx = idx + 1;
                        proof {
                            let cl = clause_payload_cmp(fsp.path@, fsp.op, idx0);
                            let pv = sql_val_spec(fsp.val->0);
                            assert(views_of(clauses@) =~= views_of(cs0).push(cl));
                            let tr = compile_payload_spec(pseq.skip(j as int + 1), idx0 + 1);
                            assert(compile_payload_spec(pseq.skip(j as int), idx0) == match tr {
                                Err(e) => Err::<(Seq<Seq<char>>, Seq<SqlValue>), Error>(e),
                                Ok(t) => Ok((seq![cl] + t.0, seq![pv] + t.1)),
                            });
                            if tr is Ok {
                                let t = tr->Ok_0;
                                assert(views_of(cs0).push(cl) + t.0 =~= views_of(cs0) + (seq![cl]
                                    + t.0));
                                assert(ps0.push(pv) + t.1 =~= ps0 + (seq![pv] + t.1));
                            }
                        }
                    },
                }
            },
            FilterOp::IsNul | FilterOp::NotNul => {
                let mut c = String::from_str("json_field_at(payload, '");
                c.append(f.path.as_str());
                c.append("') ");
                let op_sql = f.op.to_sql();
                c.append(op_sql.as_str());
                proof {
                    assert(c@ =~= clause_payload_null(fsp.path@, fsp.op));
                }
                clauses.push(c);
                proof {
                    let cl = clause_payload_null(fsp.path@, fsp.op);
                    assert(views_of(clauses@) =~= views_of(cs0).push(cl));
                    let tr = compile_payload_spec(pseq.skip(j as int + 1), idx0);
                    assert(compile_payload_spec(pseq.skip(j as int), idx0) == match tr {
                        Err(e) => Err::<(Seq<Seq<char>>, Seq<SqlValue>), Error>(e),
                        Ok(t) => Ok((seq![cl] + t.0, t.1)),
                    });
                    if tr is Ok {
                        let t = tr->Ok_0;
                        assert(views_of(cs0).push(cl) + t.0 =~= views_of(cs0) + (seq![cl] + t.0));
                    }
                }
            },
        }
        j = j + 1;
    }
    proof {
        assert(pseq.skip(m as int) =~= Seq::<PayloadFilter>::empty());
        assert(views_of(clauses@) + Seq::<Seq<char>>::empty() =~= views_of(clauses@));
        assert(params@ + Seq::<SqlValue>::empty() =~= params@);
    }
    Ok((clauses, params))
}

/// After the bucket and time clauses, the compiled whole is those
/// clauses followed by whatever the payload predicates compile to.
proof fn lemma_compile_base(
    f: CommonFilter,
    ids: Seq<i64>,
    base_cs: Seq<Seq<char>>,
    base_ps: Seq<SqlValue>,
    idx: int,
)
    requires
        ids.len() > 0,
        ({
            let n = ids.len() as int;
            let c0 = seq![clause_bucket(n)];
            let p0 = Seq::new(ids.len(), |i: int| SqlValue::Integer(ids[i]));
            let idx1 = n + 1;
            let c1 = if f.ts_start is Some {
                c0.push(clause_ts_start(idx1))
            } else {
                c0
            };
            let p1 = if f.ts_start is Some {
                p0.push(SqlValue::Integer(f.ts_start->0))
            } else {
                p0
            };
            let idx2 = if f.ts_start is Some {
                idx1 + 1
            } else {
                idx1
            };
            let c2 = if f.ts_end is Some {
                c1.push(clause_ts_end(idx2))
            } else {
                c1
            };
            let p2 = if f.ts_end is Some {
                p1.push(SqlValue::Integer(f.ts_end->0))
            } else {
                p1
            };
            let idx3 = if f.ts_end is Some {
                idx2 + 1
            } else {
                idx2
            };
            base_cs == c2 && base_ps == p2 && idx == idx3
        }),
    ensures
        match compile_payload_spec(payload_seq(f), idx) {
            Ok(t) => compile_spec(f, ids) == Ok::<_, Error>((base_cs + t.0, base_ps + t.1)),
            Err(e) => compile_spec(f, ids) == Err::<(Seq<Seq<char>>, Seq<SqlValue>), Error>(e),
        },
{
}

/// How many `?` characters a clause holds.
pub open spec fn count_qmarks(s: Seq<char>) -> int
    decreases s.len(),
{
    if s.len() == 0 {
        0
    } else {
        count_qmarks(s.drop_last()) + if s.last() == '?' {
            1int
        } else {
            0int
        }
    }
}

/// How many `?` characters a clause list holds in all.
pub open spec fn total_qmarks(cs: Seq<Seq<char>>) -> int
    decreases cs.len(),
{
    if cs.len() == 0 {
        0
    } else {
        total_qmarks(cs.drop_last()) + count_qmarks(cs.last())
    }
}

/// A string free of `?` characters.
pub open spec fn no_qmark(s: Seq<char>) -> bool {
    forall|i: int| 0 <= i < s.len() ==> #[trigger] s[i] != '?'
}

proof fn lemma_cq_concat(a: Seq<char>, b: Seq<char>)
    ensures
        count_qmarks(a + b) == count_qmarks(a) + count_qmarks(b),
    decreases b.len(),
{
    if b.len() == 0 {
        assert(a + b =~= a);
    } else {
        assert((a + b).drop_last() =~= a + b.drop_last());
        assert((a + b).last() == b.last());
        lemma_cq_concat(a, b.drop_last());
    }
}

proof fn lemma_cq_none(s: Seq<char>)
    requires
        no_qmark(s),
    ensures
        count_qmarks(s) == 0,
    decreases s.len(),
{
    if s.len() > 0 {
        assert(forall|i: int|
            0 <= i < s.len() - 1 ==> #[trigger] s.drop_last()[i] == s[i]);
        lemma_cq_none(s.drop_last());
        assert(s.last() == s[s.len() - 1]);
    }
}

proof fn lemma_digits_no_qmark(n: int)
    ensures
        no_qmark(digits_of(n)),
        digits_of(n).len() >= 1,
    decreases n,
{
    if n < 10 {
    } else {
        lemma_digits_no_qmark(n / 10);
        assert(forall|i: int|
            0 <= i < digits_of(n).len() ==> #[trigger] digits_of(n)[i] != '?') by {
            assert(forall|i: int|
                0 <= i < digits_of(n / 10).len() ==> #[trigger] digits_of(n)[i] == digits_of(
                    n / 10,
                )[i]);
            assert(digits_of(n)[digits_of(n).len() - 1] == digit_char(n % 10));
        }
    }
}

proof fn lemma_cq_placeholder(idx: int)
    ensures
        count_qmarks(placeholder(idx)) == 1,
{
    reveal_strlit("?");
    reveal_with_fuel(count_qmarks, 3);
    lemma_digits_no_qmark(idx);
    lemma_cq_none(digits_of(idx));
    assert(count_qmarks("?"@) == 1) by {
        reveal_strlit("?");
        reveal_with_fuel(count_qmarks, 3);
        assert("?"@.drop_last() =~= Seq::<char>::empty());
    }
    lemma_cq_concat("?"@, digits_of(idx));
}

proof fn lemma_cq_join(start: int, n: int)
    requires
        n >= 0,
    ensures
        count_qmarks(join_placeholders(start, n)) == n,
    decreases n,
{
    if n == 0 {
    } else if n == 1 {
        lemma_cq_placeholder(start);
    } else {
        lemma_cq_join(start, n - 1);
        lemma_cq_placeholder(start + n - 1);
        reveal_strlit(", ");
        assert(no_qmark(", "@));
        lemma_cq_none(", "@);
        lemma_cq_concat(join_placeholders(start, n - 1), ", "@);
        lemma_cq_concat(join_placeholders(start, n - 1) + ", "@, placeholder(start + n - 1));
    }
}

proof fn lemma_cq_literals()
    ensures
        count_qmarks("bucket_id in ("@) == 0,
        count_qmarks(")"@) == 0,
        count_qmarks("timestamp >= "@) == 0,
        count_qmarks("timestamp < "@) == 0,
        count_qmarks("json_field_at(payload, '"@) == 0,
        count_qmarks("') "@) == 0,
        count_qmarks(" "@) == 0,
        count_qmarks("false"@) == 0,
        count_qmarks("="@) == 0,
        count_qmarks("!="@) == 0,
        count_qmarks("IS NULL"@) == 0,
        count_qmarks("IS NOT NULL"@) == 0,
{
    reveal_strlit("bucket_id in (");
    reveal_strlit(")");
    reveal_strlit("timestamp >= ");
    reveal_strlit("timestamp < (");
    reveal_strlit("timestamp < ");
    reveal_strlit("json_field_at(payload, '");
    reveal_strlit("') ");
    reveal_strlit(" ");
    reveal_strlit("false");
    reveal_strlit("=");
    reveal_strlit("!=");
    reveal_strlit("IS NULL");
    reveal_strlit("IS NOT NULL");
    reveal_with_fuel(count_qmarks, 30);
}

proof fn lemma_cq_clause_payload(path: Seq<char>, op: FilterOp, idx: int)
    requires
        no_qmark(path),
    ensures
        count_qmarks(clause_payload_cmp(path, op, idx)) == 1,
        count_qmarks(clause_payload_null(path, op)) == 0,
{
    lemma_cq_literals();
    lemma_cq_none(path);
    assert(count_qmarks(op.sql_spec()) == 0);
    lemma_cq_placeholder(idx);
    lemma_cq_concat("json_field_at(payload, '"@, path);
    lemma_cq_concat("json_field_at(payload, '"@ + path, "') "@);
    lemma_cq_concat("json_field_at(payload, '"@ + path + "') "@, op.sql_spec());
    lemma_cq_concat("json_field_at(payload, '"@ + path + "') "@ + op.sql_spec(), " "@);
    lemma_cq_concat(
        "json_field_at(payload, '"@ + path + "') "@ + op.sql_spec() + " "@,
        placeholder(idx),
    );
}

proof fn lemma_tq_concat(a: Seq<Seq<char>>, b: Seq<Seq<char>>)
    ensures
        total_qmarks(a + b) == total_qmarks(a) + total_qmarks(b),
    decreases b.len(),
{
    if b.len() == 0 {
        assert(a + b =~= a);
    } else {
        assert((a + b).drop_last() =~= a + b.drop_last());
        assert((a + b).last() == b.last());
        lemma_tq_concat(a, b.drop_last());
    }
}

proof fn lemma_payload_qmarks(fs: Seq<PayloadFilter>, idx: int)
    requires
        forall|i: int| 0 <= i < fs.len() ==> no_qmark(#[trigger] fs[i].path@),
        compile_payload_spec(fs, idx) is Ok,
    ensures
        ({
            let t = compile_payload_spec(fs, idx)->Ok_0;
            total_qmarks(t.0) == t.1.len()
        }),
    decreases fs.len(),
{
    reveal_with_fuel(total_qmarks, 3);
    if fs.len() == 0 {
    } else {
        let f = fs[0];
        assert(forall|i: int|
            0 <= i < fs.skip(1).len() ==> no_qmark(#[trigger] fs.skip(1)[i].path@)) by {
            assert(forall|i: int|
                0 <= i < fs.skip(1).len() ==> fs.skip(1)[i] == fs[i + 1]);
        }
        match f.op {
            FilterOp::Eq | FilterOp::Neq => {
                lemma_payload_qmarks(fs.skip(1), idx + 1);
                lemma_cq_clause_payload(f.path@, f.op, idx);
                let t = compile_payload_spec(fs.skip(1), idx + 1)->Ok_0;
                lemma_tq_concat(seq![clause_payload_cmp(f.path@, f.op, idx)], t.0);
                assert(seq![clause_payload_cmp(f.path@, f.op, idx)].drop_last() =~= Seq::<
                    Seq<char>,
                >::empty());
            },
            FilterOp::IsNul | FilterOp::NotNul => {
                lemma_payload_qmarks(fs.skip(1), idx);
                lemma_cq_clause_payload(f.path@, f.op, idx);
                let t = compile_payload_spec(fs.skip(1), idx)->Ok_0;
                lemma_tq_concat(seq![clause_payload_null(f.path@, f.op)], t.0);
                assert(seq![clause_payload_null(f.path@, f.op)].drop_last() =~= Seq::<
                    Seq<char>,
                >::empty());
            },
        }
    }
}

/// For every filter with any number of payload predicates and
/// resolved bucket ids, the compiler emits exactly as many `?`
/// placeholders as bound parameters, provided no predicate's path
/// itself carries a `?` character.
pub proof fn lemma_compile_placeholder_count(f: CommonFilter, ids: Seq<i64>)
    requires
        forall|i: int|
            0 <= i < payload_seq(f).len() ==> no_qmark(#[trigger] payload_seq(f)[i].path@),
        compile_spec(f, ids) is Ok,
    ensures
        ({
            let t = compile_spec(f, ids)->Ok_0;
            total_qmarks(t.0) == t.1.len()
        }),
{
    lemma_cq_literals();
    reveal_with_fuel(total_qmarks, 3);
    if ids.len() == 0 {
        assert(seq!["false"@].drop_last() =~= Seq::<Seq<char>>::empty());
    } else {
        let n = ids.len() as int;
        lemma_cq_join(1, n);
        lemma_cq_concat("bucket_id in ("@, join_placeholders(1, n));
        lemma_cq_concat("bucket_id in ("@ + join_placeholders(1, n), ")"@);
        assert(count_qmarks(clause_bucket(n)) == n);
        let c0 = seq![clause_bucket(n)];
        assert(c0.drop_last() =~= Seq::<Seq<char>>::empty());
        assert(total_qmarks(c0) == n);
        let idx1 = n + 1;
        let c1 = if f.ts_start is Some {
            c0.push(clause_ts_start(idx1))
        } else {
            c0
        };
        let idx2 = if f.ts_start is Some {
            idx1 + 1
        } else {
            idx1
        };
        if f.ts_start is Some {
            lemma_cq_placeholder(idx1);
            lemma_cq_concat("timestamp >= "@, placeholder(idx1));
            assert(c1.drop_last() =~= c0);
        }
        let c2 = if f.ts_end is Some {
            c1.push(clause_ts_end(idx2))
        } else {
            c1
        };
        if f.ts_end is Some {
            lemma_cq_placeholder(idx2);
            lemma_cq_concat("timestamp < "@, placeholder(idx2));
            assert(c2.drop_last() =~= c1);
        }
        let idx3 = if f.ts_end is Some {
            idx2 + 1
        } else {
            idx2
        };
        lemma_payload_qmarks(payload_seq(f), idx3);
        let t = compile_payload_spec(payload_seq(f), idx3)->Ok_0;
        lemma_tq_concat(c2, t.0);
    }
}

/// A singleton list for an explicitly selected bucket, where the
/// directory confirms it exists.
pub fn ids_for_explicit(id: i64, exists: bool) -> (r: Result<Vec<i64>, Error>)
    ensures
        exists ==> (r matches Ok(v) && v@ == seq![id]),
        !exists ==> r == Err::<Vec<i64>, Error>(Error::NotFound),
{
    if exists {
        let mut v: Vec<i64> = Vec::new();
        v.push(id);
        proof {
            assert(v@ =~= seq![id]);
        }
        Ok(v)
    } else {
        Err(Error::NotFound)
    }
}

/// How a bucket selector is to be resolved.
#[derive(Clone, Debug)]
pub enum BucketPlan {
    /// Verify this explicit id exists, then use it alone.
    ById(i64),
    /// Ask the directory for all ids of this builtin, optionally
    /// narrowed to one instance reference.
    ByBuiltin(Builtin, Option<String>),
}

/// Classifies a bucket selector; a selector populating neither form
/// is refused.
pub fn bucket_query_plan(key: &BucketKey) -> (r: Result<BucketPlan, Error>)
    ensures
        match key.id {
            Some(id) => (r matches Ok(p) && p matches BucketPlan::ById(i) && i == id),
            None => match key.builtin {
                Some(b) => (r matches Ok(p) && p matches BucketPlan::ByBuiltin(b2, rid) && b2 == b
                    && rid == key.builtin_ref_id),
                None => r == Err::<BucketPlan, Error>(Error::InvalidSelector),
            },
        },
{
    match key.id {
        Some(id) => Ok(BucketPlan::ById(id)),
        None => match &key.builtin {
            Some(b) => Ok(BucketPlan::ByBuiltin(*b, key.builtin_ref_id.clone())),
            None => Err(Error::InvalidSelector),
        },
    }
}

} // verus!

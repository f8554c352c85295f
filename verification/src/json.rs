use vstd::prelude::*;

verus! {

/// A JSON value, decided once at the ingestion boundary.
///
/// The engine only ever needs a scalar's own content: compound values
/// (arrays and objects) pass through it untouched, so they are carried
/// as their serialized text and never interpreted here.
#[derive(Clone, Debug, PartialEq, Eq)]
pub enum JsonScalar {
    Null,
    Bool(bool),
    Int(i64),
    UInt(u64),
    Str(String),
    /// A JSON array, carried as its serialized text.
    Arr(String),
    /// A JSON object, carried as its serialized text.
    Obj(String),
}

impl JsonScalar {
    pub fn is_null(&self) -> (r: bool)
        ensures
            r == (self is Null),
    {
        matches!(self, JsonScalar::Null)
    }

    pub fn is_boolean(&self) -> (r: bool)
        ensures
            r == (self is Bool),
    {
        matches!(self, JsonScalar::Bool(_))
    }

    pub fn is_number(&self) -> (r: bool)
        ensures
            r == (self is Int || self is UInt),
    {
        matches!(self, JsonScalar::Int(_) | JsonScalar::UInt(_))
    }

    pub fn is_string(&self) -> (r: bool)
        ensures
            r == (self is Str),
    {
        matches!(self, JsonScalar::Str(_))
    }

    pub fn is_array(&self) -> (r: bool)
        ensures
            r == (self is Arr),
    {
        matches!(self, JsonScalar::Arr(_))
    }

    pub fn is_object(&self) -> (r: bool)
        ensures
            r == (self is Obj),
    {
        matches!(self, JsonScalar::Obj(_))
    }

    /// The string content of a `Str` value, `None` for every other kind.
    pub fn as_str(&self) -> (r: Option<&String>)
        ensures
            match self {
                JsonScalar::Str(s) => r == Some(s),
                _ => r is None,
            },
    {
        match self {
            JsonScalar::Str(s) => Some(s),
            _ => None,
        }
    }
}

/// A value the record store can bind as a query parameter.
#[derive(Clone, Debug, PartialEq, Eq)]
pub enum SqlValue {
    Null,
    Integer(i64),
    Text(String),
}

/// What `json_val_to_sql_val` returns for each kind of JSON value:
/// null maps to NULL, booleans to 0/1, integer-valued numbers to
/// integers, and everything else to its canonical text form.
pub open spec fn sql_val_spec(j: JsonScalar) -> SqlValue {
    match j {
        JsonScalar::Null => SqlValue::Null,
        JsonScalar::Bool(b) => SqlValue::Integer(if b { 1 } else { 0 }),
        JsonScalar::Int(i) => SqlValue::Integer(i),
        JsonScalar::UInt(u) => SqlValue::Integer(u as i64),
        JsonScalar::Str(s) => SqlValue::Text(s),
        JsonScalar::Arr(s) => SqlValue::Text(s),
        JsonScalar::Obj(s) => SqlValue::Text(s),
    }
}

/// Converts an untyped JSON value into a storage-bindable value.
///
/// This is lossy by design (there is no floating storage type) and
/// deterministic: see `sql_val_spec`.
pub fn json_val_to_sql_val(json: &JsonScalar) -> (r: SqlValue)
    ensures
        r == sql_val_spec(*json),
{
    match json {
        JsonScalar::Null => SqlValue::Null,
        JsonScalar::Bool(b) => SqlValue::Integer(if *b { 1 } else { 0 }),
        JsonScalar::Int(i) => SqlValue::Integer(*i),
        JsonScalar::UInt(u) => SqlValue::Integer(#[verifier::truncate] (*u as i64)),
        JsonScalar::Str(s) => SqlValue::Text(s.clone()),
        JsonScalar::Arr(s) => SqlValue::Text(s.clone()),
        JsonScalar::Obj(s) => SqlValue::Text(s.clone()),
    }
}

} // verus!

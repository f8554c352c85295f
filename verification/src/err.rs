use vstd::prelude::*;

verus! {

/// Every failure the query engine can surface to its caller.
///
/// All of these are recoverable at the report-builder boundary; none is
/// fatal to the process. Variants that carry a `String` keep enough
/// context (a path, or a collaborator's message) to render a message.
#[derive(Clone, Debug, PartialEq, Eq)]
pub enum Error {
    /// A bucket selector populated neither an id nor a builtin type.
    InvalidSelector,
    /// An explicitly-selected bucket id does not exist.
    NotFound,
    /// A payload filter holds a JSON path the path parser rejects.
    InvalidPath(String),
    /// Averaging over a calendar cycle needs both ends of the time range.
    MissingRange,
    /// An indicator request named no target metric.
    MissingMetric,
    /// A group request holds more than one timing key.
    InvalidGroupSpec,
    /// A value could not be parsed as a decimal number.
    InvalidDecimal,
    /// A value of a kind the coercion does not accept (bool, object, ...).
    UnsupportedType,
    /// A value was absent where one was required.
    AbsentValue,
    /// A timestamp (or offset-shifted timestamp) outside the supported calendar.
    InvalidTimestamp,
    /// A UTC offset that does not form a valid fixed timezone offset.
    InvalidOffset,
    /// A requested operation the engine does not implement (weekly cycles).
    NotSupported,
    /// A failure reported by the record store or bucket directory.
    StoreFailure(String),
}

impl Error {
    /// What `message` renders for each kind of failure.
    pub open spec fn message_spec(self) -> Seq<char> {
        match self {
            Error::InvalidSelector => "Invalid bucket key"@,
            Error::NotFound => "Bucket not found"@,
            Error::InvalidPath(p) => "Invalid json path: "@ + p@,
            Error::MissingRange => "Both ends of the time range are required"@,
            Error::MissingMetric => "Metrics is required"@,
            Error::InvalidGroupSpec => "No more than one timing key is allowed"@,
            Error::InvalidDecimal => "Invalid decimal value"@,
            Error::UnsupportedType => "Unsupported value type"@,
            Error::AbsentValue => "Value is null"@,
            Error::InvalidTimestamp => "Invalid timestamp"@,
            Error::InvalidOffset => "Invalid offset value"@,
            Error::NotSupported => "Not supported"@,
            Error::StoreFailure(m) => "Store failure: "@ + m@,
        }
    }

    /// A short, user-facing description of the failure.
    pub fn message(&self) -> (r: String)
        ensures
            r@ == self.message_spec(),
    {
        match self {
            Error::InvalidSelector => String::from_str("Invalid bucket key"),
            Error::NotFound => String::from_str("Bucket not found"),
            Error::InvalidPath(p) => {
                let mut s = String::from_str("Invalid json path: ");
                s.append(p.as_str());
                s
            },
            Error::MissingRange => String::from_str("Both ends of the time range are required"),
            Error::MissingMetric => String::from_str("Metrics is required"),
            Error::InvalidGroupSpec => String::from_str("No more than one timing key is allowed"),
            Error::InvalidDecimal => String::from_str("Invalid decimal value"),
            Error::UnsupportedType => String::from_str("Unsupported value type"),
            Error::AbsentValue => String::from_str("Value is null"),
            Error::InvalidTimestamp => String::from_str("Invalid timestamp"),
            Error::InvalidOffset => String::from_str("Invalid offset value"),
            Error::NotSupported => String::from_str("Not supported"),
            Error::StoreFailure(m) => {
                let mut s = String::from_str("Store failure: ");
                s.append(m.as_str());
                s
            },
        }
    }
}

/// Drops a collaborator error and keeps the caller-facing message,
/// as an `Err` result.
pub fn err<T, E>(error: E, msg: &str) -> (r: Result<T, String>)
    ensures
        r is Err && r->Err_0@ == msg@,
{
    let _ = error;
    Err(String::from_str(msg))
}

/// Drops a collaborator error and keeps the caller-facing message.
pub fn cvt_err<E>(error: E, msg: &str) -> (r: String)
    ensures
        r@ == msg@,
{
    let _ = error;
    String::from_str(msg)
}

/// Keeps the value of a result and turns its error into `None`.
pub fn or_none<T, E>(result: Result<T, E>, msg: &str) -> (r: Option<T>)
    ensures
        match result {
            Ok(v) => r == Some(v),
            Err(_) => r is None,
        },
{
    let _ = msg;
    match result {
        Ok(v) => Some(v),
        Err(_) => None,
    }
}

/// Drops an error entirely, yielding `None`.
pub fn none<T, E>(error: E, msg: &str) -> (r: Option<T>)
    ensures
        r is None,
{
    let _ = error;
    let _ = msg;
    None
}

} // verus!

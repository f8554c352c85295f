use vstd::prelude::*;

verus! {

use crate::dec::{Dec, parse_dec, norm_spec};
use crate::err::Error;
use crate::json::JsonScalar;

/// What coercing a present JSON value to a decimal yields: strings
/// parse as decimals, integer numbers convert exactly, and every
/// other kind is refused.
pub open spec fn json_dec_spec(v: JsonScalar) -> Result<Dec, Error> {
    match v {
        JsonScalar::Str(s) => match parse_dec(s@) {
            Some(d) => Ok(d),
            None => Err(Error::InvalidDecimal),
        },
        JsonScalar::Int(i) => Ok(norm_spec(i as int, 0)),
        JsonScalar::UInt(u) => Ok(norm_spec(u as int, 0)),
        _ => Err(Error::UnsupportedType),
    }
}

/// What coercing an optional metric value yields: an absent value is
/// zero where the caller asks for that default, an error otherwise.
pub open spec fn coerce_spec(v: Option<JsonScalar>, default_zero: bool) -> Result<Dec, Error> {
    match v {
        None => if default_zero {
            Ok(Dec::zero_spec())
        } else {
            Err(Error::AbsentValue)
        },
        Some(x) => json_dec_spec(x),
    }
}

/// Converts one present JSON value into an arbitrary-precision
/// decimal, with no binary floating-point intermediate.
pub fn json_val_to_decimal(json: &JsonScalar) -> (r: Result<Dec, Error>)
    ensures
        r == json_dec_spec(*json),
        r matches Ok(d) ==> d.wf(),
{
    match json {
        JsonScalar::Str(s) => {
            proof {
                crate::dec::lemma_parse_dec_wf(s@);
            }
            Dec::from_str(s.as_str())
        },
        JsonScalar::Int(i) => Ok(Dec::new(*i, 0)),
        JsonScalar::UInt(u) => {
            proof {
                crate::dec::lemma_norm_spec(*u as int, 0);
            }
            Ok(Dec::from_u64(*u))
        },
        JsonScalar::Null => Err(Error::UnsupportedType),
        JsonScalar::Bool(_) => Err(Error::UnsupportedType),
        JsonScalar::Arr(_) => Err(Error::UnsupportedType),
        JsonScalar::Obj(_) => Err(Error::UnsupportedType),
    }
}

/// Converts an optional metric value, defaulting an absent one to
/// zero where asked.
pub fn json_to_decimal(val: Option<&JsonScalar>, default_zero: bool) -> (r: Result<Dec, Error>)
    ensures
        r == coerce_spec(
            match val {
                Some(v) => Some(*v),
                None => None,
            },
            default_zero,
        ),
        r matches Ok(d) ==> d.wf(),
{
    match val {
        Some(v) => json_val_to_decimal(v),
        None => if default_zero {
            Ok(Dec::zero())
        } else {
            Err(Error::AbsentValue)
        },
    }
}

} // verus!

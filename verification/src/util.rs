use vstd::prelude::*;

verus! {

/// Runs the closure on the value an option holds, if any.
pub fn if_present<T, F: FnOnce(T)>(opt: Option<T>, f: F)
    requires
        opt matches Some(v) ==> f.requires((v,)),
    ensures
        opt matches Some(v) ==> f.ensures((v,), ()),
{
    match opt {
        Some(v) => f(v),
        None => (),
    }
}

} // verus!

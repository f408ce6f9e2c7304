//! Handing results back to the host.
use vstd::prelude::*;

verus! {

/// `Box::leak`: the boxed value, now living for the rest of the program.
#[verifier::external_body]
fn leak<T>(b: Box<T>) -> (r: &'static mut T)
    ensures
        *r == *b,
{
    Box::leak(b)
}

/// A value kept alive for the rest of the program, so that the host can read
/// it after the call returns.
pub fn ret<T>(d: T) -> (r: &'static T)
    ensures
        *r == d,
{
    leak(Box::new(d))
}

} // verus!

//! The entropy stub registered with the interpreter's randomness hook: the
//! sandboxed interpreter needs a source of randomness to exist, not to be
//! random.

use vstd::prelude::*;

verus! {

#[verifier::external_type_specification]
#[verifier::external_body]
pub struct ExGetrandomError(getrandom::Error);

/// A no-op entropy source: reports success and leaves the buffer as it is.
pub fn custom_getrandom(buf: &mut [u8]) -> (r: Result<(), getrandom::Error>)
    ensures
        r is Ok,
        final(buf)@ == old(buf)@,
{
    Ok(())
}

} // verus!

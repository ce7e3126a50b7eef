use vstd::prelude::*;
use vstd::string::StringSliceAdditionalSpecFns;

verus! {

/// The 64-bit SeaHash fingerprint of a byte sequence.
pub uninterp spec fn seahash_of(bytes: Seq<u8>) -> u64;

/// Relies on seahash::hash: a stable, portable hash, a function of the
/// bytes alone on every machine.
#[verifier::external_body]
pub fn seahash_bytes(bytes: &[u8]) -> (r: u64)
    ensures
        r == seahash_of(bytes@),
{
    seahash::hash(bytes)
}

/// The SeaHash fingerprint of the UTF-8 bytes of `s`.
pub fn seahash_str(s: &str) -> (r: u64)
    ensures
        r == seahash_of(s.spec_bytes()),
{
    seahash_bytes(s.as_bytes())
}

} // verus!

use vstd::prelude::*;

verus! {

/// Relies on fastrand::usize: a value of the range `lo..hi`, which must not
/// be empty.
#[verifier::external_body]
pub(crate) fn random_usize(lo: usize, hi: usize) -> (r: usize)
    requires
        lo < hi,
    ensures
        lo <= r < hi,
{
    fastrand::usize(lo..hi)
}

/// Relies on fastrand::i64: a value of the range `lo..=hi`, which must not
/// be empty.
#[verifier::external_body]
pub(crate) fn random_i64(lo: i64, hi: i64) -> (r: i64)
    requires
        lo <= hi,
    ensures
        lo <= r <= hi,
{
    fastrand::i64(lo..=hi)
}

} // verus!

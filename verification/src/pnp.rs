//! The camera model handed to the perspective-n-point solver.
use vstd::prelude::*;

verus! {

/// Whether the solver takes a list of `n` distortion coefficients: none,
/// or 4, 5, 8, 12 or 14 of them.
pub open spec fn spec_dist_coeffs_count_valid(n: usize) -> bool {
    n == 0 || n == 4 || n == 5 || n == 8 || n == 12 || n == 14
}

/// Whether the solver takes a list of `n` distortion coefficients.
pub fn dist_coeffs_count_valid(n: usize) -> (r: bool)
    ensures
        r == spec_dist_coeffs_count_valid(n),
{
    match n {
        0 | 4 | 5 | 8 | 12 | 14 => true,
        _ => false,
    }
}

/// Whether the intrinsics are configured: the focal lengths and principal
/// point are all positive (which the caller tells, as `params_positive`)
/// and the distortion coefficients come in a count the solver takes.
pub fn intrinsics_configured(params_positive: bool, dist_coeffs_len: usize) -> (r: bool)
    ensures
        r == (params_positive && spec_dist_coeffs_count_valid(dist_coeffs_len)),
{
    params_positive && dist_coeffs_count_valid(dist_coeffs_len)
}

} // verus!

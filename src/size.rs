//! Validation of transform sizes.
use vstd::prelude::*;

verus! {

/// Why a transform refused its input.
#[derive(Debug, Clone, Copy, PartialEq, Eq, Structural)]
pub enum FftError {
    /// The block size is zero or not a power of two.
    InvalidSize,
    /// The real or imaginary sequence does not hold exactly `n` samples.
    LengthMismatch,
}

/// `n` is a power of two (1, 2, 4, ...).
pub open spec fn is_pow2(n: nat) -> bool
    decreases n,
{
    if n == 1 {
        true
    } else if n < 2 || n % 2 != 0 {
        false
    } else {
        is_pow2(n / 2)
    }
}

/// A power of two above one is even, and its half is a power of two.
pub proof fn lemma_pow2_half(n: nat)
    requires
        is_pow2(n),
        n >= 2,
    ensures
        n % 2 == 0,
        is_pow2(n / 2),
        n == 2 * (n / 2),
{
}

/// The outcome owed for a transform of size `n` on sequences of the given lengths.
pub open spec fn size_check(n: nat, real_len: nat, imag_len: nat) -> Result<(), FftError> {
    if !is_pow2(n) {
        Err(FftError::InvalidSize)
    } else if real_len != n || imag_len != n {
        Err(FftError::LengthMismatch)
    } else {
        Ok(())
    }
}

/// Tells whether `n` is a power of two.
pub fn is_power_of_two(n: usize) -> (r: bool)
    ensures
        r == is_pow2(n as nat),
{
    if n == 0 {
        return false;
    }
    let mut m: usize = n;
    while m % 2 == 0
        invariant
            m >= 1,
            is_pow2(n as nat) == is_pow2(m as nat),
        decreases m,
    {
        m = m / 2;
    }
    m == 1
}

/// Checks a transform request: `InvalidSize` when `n` is zero or not a power
/// of two, else `LengthMismatch` when either sequence does not hold `n` samples.
pub fn check_size(n: usize, real_len: usize, imag_len: usize) -> (r: Result<(), FftError>)
    ensures
        r == size_check(n as nat, real_len as nat, imag_len as nat),
{
    if !is_power_of_two(n) {
        Err(FftError::InvalidSize)
    } else if real_len != n || imag_len != n {
        Err(FftError::LengthMismatch)
    } else {
        Ok(())
    }
}

} // verus!

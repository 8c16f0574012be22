//! Runtime checks on the output of random number generators.
//!
//! The library holds the exact, integer part of two frequency tests from the
//! NIST SP 800-22 battery (Monobit and Block Frequency): the bit sources they
//! read, the counts and sums they build, the sample-size rule, and the
//! NaN-safe decision on a p-value carried as its IEEE-754 binary32 encoding.
pub mod helpers;
pub mod nist;

use vstd::prelude::*;

verus! {

/// Why a test could not produce an acceptable p-value.
#[derive(Clone, Copy, PartialEq, Eq, Structural, Debug)]
pub enum Error {
    /// The random source could not produce output.
    RngFailed,
    /// Too few bits were read; carries how many were read.
    InsufficientSampleSize(usize),
    /// The p-value is below the acceptance threshold, or is NaN; carries its
    /// IEEE-754 binary32 encoding.
    BadPValue(u32),
}

} // verus!

//! The sample abstraction. The engine moves blocks of samples around and,
//! in summing buffers, mixes two samples into one. Everything else about a
//! sample is opaque, so the containers and the executor are generic over
//! this trait. The crate ships an `i64` instance; an embedding application
//! can supply its own sample type (for instance a wrapper around its native
//! sample format) by giving the two operations.

use vstd::prelude::*;

verus! {

/// One audio sample. `spec_silence` and `spec_mix` give the mathematical
/// meaning of the two executable operations; every implementation must
/// return exactly those values, so all buffer contracts below are exact.
pub trait Sample: Sized + Copy {
    /// The meaning of silence (the value `clear` writes).
    spec fn spec_silence() -> Self;

    /// The meaning of mixing two samples (the summing buffer folds with it).
    spec fn spec_mix(self, other: Self) -> Self;

    /// The silent sample.
    fn silence() -> (r: Self)
        ensures
            r == Self::spec_silence(),
    ;

    /// Mix two samples into one.
    fn mix(self, other: Self) -> (r: Self)
        ensures
            r == self.spec_mix(other),
    ;
}

impl Sample for i64 {
    open spec fn spec_silence() -> i64 {
        0
    }

    open spec fn spec_mix(self, other: i64) -> i64 {
        vstd::wrapping::i64_specs::wrapping_add(self, other)
    }

    fn silence() -> (r: i64) {
        0
    }

    fn mix(self, other: i64) -> (r: i64) {
        self.wrapping_add(other)
    }
}

/// A vector of `n` silent samples.
pub fn silence_vec<S: Sample>(n: usize) -> (r: Vec<S>)
    ensures
        r@.len() == n,
        forall|i: int| 0 <= i < n ==> r@[i] == S::spec_silence(),
{
    let mut v: Vec<S> = Vec::new();
    let mut i: usize = 0;
    while i < n
        invariant
            i <= n,
            v@.len() == i,
            forall|j: int| 0 <= j < i ==> v@[j] == S::spec_silence(),
        decreases n - i,
    {
        v.push(S::silence());
        i = i + 1;
    }
    v
}

} // verus!

//! The generation capability shared by every uniform sampler here.

use vstd::prelude::*;

verus! {

/// A stateful source of quasi-random values in the unit interval.
///
/// Each produced value is an exact fraction of naturals, `num / den` with
/// `num < den`; the unsigned conversions scale that fraction by the target
/// type's maximum and take the floor.  Conversion to floating point is a
/// lossy view of the same fraction and is left to unverified callers.
///
/// The whole upcoming stream is pinned by the spec functions `nth_num` and
/// `nth_den`: `nth_num(k) / nth_den(k)` is the value the source will
/// produce `k` steps from now (`k == 0` names the very next value), and
/// every producing call shifts the stream by one.  The stream never
/// terminates on its own: a consumer must impose its own bound.
pub trait Sampler: Sized {
    /// Well-formedness of the generator's state.
    spec fn inv(&self) -> bool;

    /// The next step stays within the generator's machine bounds.
    spec fn can_produce(&self) -> bool;

    /// Numerator of the value produced `k` steps from now.
    spec fn nth_num(&self, k: nat) -> nat;

    /// Denominator of the value produced `k` steps from now.
    spec fn nth_den(&self, k: nat) -> nat;

    /// True when the source can produce at least one more value within
    /// its machine bounds: a conservative runtime guard for callers that
    /// cannot reason about `can_produce` themselves.
    fn ready(&self) -> (r: bool)
        requires
            self.inv(),
        ensures
            r ==> self.can_produce(),
    ;

    /// Produce the next value as the exact fraction `(numerator,
    /// denominator)`.
    fn next_parts(&mut self) -> (r: (u64, u64))
        requires
            old(self).inv(),
            old(self).can_produce(),
        ensures
            final(self).inv(),
            r.0 as nat == old(self).nth_num(0),
            r.1 as nat == old(self).nth_den(0),
            r.0 < r.1,
            forall|k: nat| #![trigger final(self).nth_num(k)]
                final(self).nth_num(k) == old(self).nth_num(k + 1),
            forall|k: nat| #![trigger final(self).nth_den(k)]
                final(self).nth_den(k) == old(self).nth_den(k + 1),
    ;

    /// Produce the next value scaled to the 64-bit unsigned range: the
    /// floor of `value * u64::MAX`.
    fn next_u64(&mut self) -> (r: u64)
        requires
            old(self).inv(),
            old(self).can_produce(),
        ensures
            final(self).inv(),
            r as nat == (old(self).nth_num(0) * (u64::MAX as nat)) / old(self).nth_den(0),
            forall|k: nat| #![trigger final(self).nth_num(k)]
                final(self).nth_num(k) == old(self).nth_num(k + 1),
            forall|k: nat| #![trigger final(self).nth_den(k)]
                final(self).nth_den(k) == old(self).nth_den(k + 1),
    ;

    /// Produce the next value scaled to the 32-bit unsigned range: the
    /// floor of `value * u32::MAX`.
    fn next_u32(&mut self) -> (r: u32)
        requires
            old(self).inv(),
            old(self).can_produce(),
        ensures
            final(self).inv(),
            r as nat == (old(self).nth_num(0) * (u32::MAX as nat)) / old(self).nth_den(0),
            forall|k: nat| #![trigger final(self).nth_num(k)]
                final(self).nth_num(k) == old(self).nth_num(k + 1),
            forall|k: nat| #![trigger final(self).nth_den(k)]
                final(self).nth_den(k) == old(self).nth_den(k + 1),
    ;
}

} // verus!

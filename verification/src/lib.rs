//! Quasi-random (low-discrepancy) sequence generators.
//!
//! The core is an incremental Halton sequence generator: it produces the
//! base-`b` radical-inverse value of successive indices without redoing the
//! whole digit expansion at each step, by keeping the digits of the current
//! index together with a cache of scaled partial remainder sums.  A
//! round-robin interleaver composes several generators into one combined
//! stream.
//!
//! Every produced value is kept as an exact fraction `num / den` where
//! `den` is a power of the base, so each output is pinned to the
//! digit-expansion sum it stands for; conversion to floating point is left
//! to the caller.

pub mod expansion;
pub mod halton;
pub mod interleave;
pub mod sampler;

pub use expansion::hden;
pub use expansion::hnum;
pub use expansion::pow_nat;
pub use halton::Halton;
pub use interleave::Interleave;
pub use sampler::Sampler;

//! The incremental Halton sequence generator.

use vstd::prelude::*;

use crate::expansion::canonical;
use crate::expansion::hden;
use crate::expansion::hnum;
use crate::expansion::lemma_carry_grow;
use crate::expansion::lemma_carry_increment;
use crate::expansion::lemma_expansion_of_counter;
use crate::expansion::lemma_pow_le;
use crate::expansion::lemma_pow_pos;
use crate::expansion::lemma_rev_val_bound;
use crate::expansion::lemma_seq_idx_bound;
use crate::expansion::lemma_seq_idx_lower;
use crate::expansion::lemma_seq_idx_push;
use crate::expansion::pow_nat;
use crate::expansion::rev_val;
use crate::expansion::seq_idx;

verus! {

broadcast use vstd::arithmetic::div_mod::lemma_div_decreases;

/// Incrementally calculated Halton sequence generator.
///
/// The generator keeps the digits of the current index in base `base`,
/// least-significant first, together with a cache of scaled partial
/// remainder sums, so that a step touches only the digits affected by the
/// carry.  The produced value is kept as the exact fraction
/// `state_num / base^(number of digits)`; conversion to floating point is
/// left to unverified callers.
///
/// The base-`b` structure of the sequence is trivial to invert, so the
/// output is not suitable for any cryptographic use; it is meant for
/// sampling applications.  Memory use is inversely related to the base:
/// larger bases need fewer digits for the same index.
#[derive(Debug, Clone)]
pub struct Halton {
    /// Radix of the digit expansion; at least 2.
    base: u32,
    /// Digits of the current index, least-significant first.
    dig: Vec<u32>,
    /// `rem[m]` is the scaled radical inverse of the top `m` digits: the
    /// numerator of their partial sum over `base^m`.
    rem: Vec<u64>,
    /// `pw[m]` caches `base^m`.
    pw: Vec<u64>,
    /// Numerator of the most recently produced value over
    /// `base^(number of digits)`.
    state_num: u64,
}

impl Halton {
    /// The digit string as mathematical naturals.
    pub closed spec fn digs(&self) -> Seq<nat> {
        self.dig@.map_values(|x: u32| x as nat)
    }

    /// The radix.
    pub closed spec fn base_nat(&self) -> nat {
        self.base as nat
    }

    /// The index of the most recently produced value.  At construction it
    /// is the clamped 1-based start index minus one: the value at the start
    /// index is only produced by the first step.
    pub closed spec fn counter(&self) -> nat {
        seq_idx(self.digs(), self.base_nat())
    }

    /// Numerator of the most recently produced value.
    pub closed spec fn cur_num(&self) -> nat {
        self.state_num as nat
    }

    /// Denominator of the produced values at the current index: the base
    /// raised to the number of digits.
    pub closed spec fn cur_den(&self) -> nat {
        pow_nat(self.base_nat(), self.dig@.len())
    }

    /// Internal invariant: the digit string is canonical, the power and
    /// remainder caches match it, and everything fits in a `u64`.
    pub closed spec fn wf(&self) -> bool {
        &&& self.base >= 2
        &&& canonical(self.digs(), self.base_nat())
        &&& self.rem@.len() == self.dig@.len()
        &&& self.pw@.len() == self.dig@.len()
        &&& (forall|m: int|
            0 <= m < self.pw@.len() ==> self.pw@[m] as nat == pow_nat(self.base_nat(), m as nat))
        &&& (forall|m: int|
            0 <= m < self.rem@.len() ==> self.rem@[m] as nat == rev_val(
                self.digs().subrange(self.dig@.len() as int - m, self.dig@.len() as int),
                self.base_nat(),
            ))
        &&& pow_nat(self.base_nat(), self.dig@.len()) <= u64::MAX as nat
        &&& (self.state_num as nat) < pow_nat(self.base_nat(), self.dig@.len())
    }

    /// The next step stays within the machine bound: the denominator after
    /// the step still fits in a `u64`.
    pub open spec fn can_step(&self) -> bool {
        (self.counter() + 1) * self.base_nat() <= u64::MAX as nat
    }

    /// Every value the generator holds lies in the unit interval: the
    /// numerator stays strictly below the denominator, so the produced
    /// fraction is at least 0 and less than 1.
    pub proof fn lemma_state_in_unit_interval(&self)
        requires
            self.wf(),
        ensures
            self.cur_num() < self.cur_den(),
            self.cur_den() >= 2,
    {
        let bn = self.base_nat();
        let len = self.dig@.len();
        lemma_pow_le(bn, 1, len);
        assert(pow_nat(bn, 1) == bn * pow_nat(bn, 0));
        assert(bn * 1 == bn) by (nonlinear_arith) {
        }
    }

    /// Create a generator that starts at index `i` with base `b`.  An index
    /// below 1 is treated as 1 and a base below 2 as 2.  The first produced
    /// value is the Halton value at the starting index; until the first
    /// step the stored value is 0.
    #[verifier::loop_isolation(false)]
    pub fn new(i: u32, b: u32) -> (h: Halton)
        ensures
            h.wf(),
            h.base_nat() == (if b < 2 { 2nat } else { b as nat }),
            h.counter() == (if i < 1 { 0nat } else { (i - 1) as nat }),
            h.cur_num() == 0,
            h.cur_den() == hden(h.counter(), h.base_nat()),
            h.can_step(),
    {
        let b: u32 = if b < 2 { 2 } else { b };
        let n0: u32 = if i < 1 { 0 } else { i - 1 };
        let ghost bn: nat = b as nat;

        // Reserve room for enough digits to reach at least the millionth
        // index in this base without reallocating; a performance hint
        // only, since fewer digits are needed the larger the base is.
        let mut size: usize = 1;
        let mut reach: u64 = b as u64;
        while reach < 1_000_000 && size < 40
            invariant
                reach >= 2,
                size >= 1,
            decreases 40 - size,
        {
            proof {
                assert((reach as int) * (b as int) < 0x10_0000_0000_0000 && (reach as int) * (
                b as int) >= 2 * (reach as int)) by (nonlinear_arith)
                    requires
                        2 <= (reach as int) < 1_000_000,
                        2 <= (b as int) <= u32::MAX as int,
                {
                }
            }
            reach = reach * (b as u64);
            size = size + 1;
        }

        // Decompose the 0-based start index into digits by repeated
        // division, least-significant first.
        let mut dig: Vec<u32> = Vec::with_capacity(size);
        let mut n: u32 = n0;
        proof {
            let ds0 = dig@.map_values(|x: u32| x as nat);
            assert(seq_idx(ds0, bn) == 0);
            assert(pow_nat(bn, 0) * (n as nat) == n as nat) by (nonlinear_arith)
                requires
                    pow_nat(bn, 0) == 1,
            {
            }
        }
        while n >= b
            invariant
                b >= 2,
                bn == b as nat,
                n <= n0,
                forall|j: int| 0 <= j < dig@.len() ==> (dig@[j] as nat) < bn,
                seq_idx(dig@.map_values(|x: u32| x as nat), bn) + pow_nat(bn, dig@.len()) * (
                n as nat) == n0 as nat,
                dig@.len() >= 1 ==> n >= 1,
            decreases n,
        {
            let d: u32 = n % b;
            let q: u32 = n / b;
            proof {
                let ds = dig@.map_values(|x: u32| x as nat);
                let p = pow_nat(bn, dig@.len());
                vstd::arithmetic::div_mod::lemma_fundamental_div_mod(n as int, b as int);
                lemma_seq_idx_push(ds, bn, d as nat);
                assert(dig@.push(d).map_values(|x: u32| x as nat) =~= ds.push(d as nat));
                assert((d as nat) * p + (bn * p) * (q as nat) == p * (n as nat) && q >= 1)
                    by (nonlinear_arith)
                    requires
                        (n as nat) == bn * (q as nat) + (d as nat),
                        (d as nat) < bn,
                        n >= b,
                        bn == b as nat,
                {
                }
            }
            dig.push(d);
            n = q;
        }
        proof {
            let ds = dig@.map_values(|x: u32| x as nat);
            lemma_seq_idx_push(ds, bn, n as nat);
            assert(dig@.push(n).map_values(|x: u32| x as nat) =~= ds.push(n as nat));
            assert((n as nat) * pow_nat(bn, ds.len()) == pow_nat(bn, ds.len()) * (n as nat))
                by (nonlinear_arith)
            {
            }
        }
        dig.push(n);
        let len: usize = dig.len();
        let ghost ds: Seq<nat> = dig@.map_values(|x: u32| x as nat);
        proof {
            assert(canonical(ds, bn));
            assert(seq_idx(ds, bn) == n0 as nat);
            // The whole denominator fits: base^(len-1) <= max(n0, 1) and the
            // base and the start index are 32-bit values.
            lemma_pow_pos(bn, (len - 1) as nat);
            if len >= 2 {
                lemma_seq_idx_lower(ds, bn);
            }
            assert(pow_nat(bn, (len - 1) as nat) <= u32::MAX as nat);
            assert(pow_nat(bn, len as nat) == bn * pow_nat(bn, (len - 1) as nat));
            assert(pow_nat(bn, len as nat) <= u64::MAX as nat) by (nonlinear_arith)
                requires
                    pow_nat(bn, len as nat) == bn * pow_nat(bn, (len - 1) as nat),
                    pow_nat(bn, (len - 1) as nat) <= u32::MAX as nat,
                    bn <= u32::MAX as nat,
            {
            }
        }

        // Cache the powers of the base up to base^(len-1).
        let mut pw: Vec<u64> = Vec::with_capacity(size);
        pw.push(1);
        while pw.len() < len
            invariant
                b >= 2,
                bn == b as nat,
                1 <= pw@.len() <= len,
                pow_nat(bn, len as nat) <= u64::MAX as nat,
                forall|m: int| 0 <= m < pw@.len() ==> pw@[m] as nat == pow_nat(bn, m as nat),
            decreases len - pw.len(),
        {
            let last: u64 = pw[pw.len() - 1];
            proof {
                lemma_pow_le(bn, pw@.len(), len as nat);
                assert(pow_nat(bn, pw@.len()) == bn * pow_nat(bn, (pw@.len() - 1) as nat));
                assert((last as nat) * bn == pow_nat(bn, pw@.len())) by (nonlinear_arith)
                    requires
                        pow_nat(bn, pw@.len()) == bn * pow_nat(bn, (pw@.len() - 1) as nat),
                        last as nat == pow_nat(bn, (pw@.len() - 1) as nat),
                {
                }
            }
            pw.push(last * (b as u64));
        }

        // Seed the remainder cache from the most significant digit down:
        // rem[m] is the scaled partial sum of the top m digits.
        let mut rem: Vec<u64> = Vec::with_capacity(size);
        rem.push(0);
        while rem.len() < len
            invariant
                b >= 2,
                bn == b as nat,
                1 <= rem@.len() <= len,
                len == dig@.len(),
                ds == dig@.map_values(|x: u32| x as nat),
                forall|j: int| 0 <= j < dig@.len() ==> (dig@[j] as nat) < bn,
                pow_nat(bn, len as nat) <= u64::MAX as nat,
                pw@.len() == len,
                forall|m: int| 0 <= m < pw@.len() ==> pw@[m] as nat == pow_nat(bn, m as nat),
                forall|t: int|
                    0 <= t < rem@.len() ==> rem@[t] as nat == rev_val(
                        ds.subrange(len - t, len as int),
                        bn,
                    ) && (rem@[t] as nat) < pow_nat(bn, t as nat),
            decreases len - rem.len(),
        {
            let m: usize = rem.len();
            proof {
                let top = ds.subrange(len - m as int, len as int);
                assert(top.subrange(1, top.len() as int) =~= ds.subrange(
                    len - (m as int - 1),
                    len as int,
                ));
                assert(top[0] == dig@[len - m as int] as nat);
                lemma_pow_le(bn, m as nat, len as nat);
                assert((dig@[len - m as int] as nat) * pow_nat(bn, (m - 1) as nat) + (rem@[m as int
                    - 1] as nat) < pow_nat(bn, m as nat)) by (nonlinear_arith)
                    requires
                        (dig@[len - m as int] as nat) < bn,
                        (rem@[m as int - 1] as nat) < pow_nat(bn, (m - 1) as nat),
                        pow_nat(bn, m as nat) == bn * pow_nat(bn, (m - 1) as nat),
                {
                }
            }
            let v: u64 = (dig[len - m] as u64) * pw[m - 1] + rem[m - 1];
            rem.push(v);
        }

        let h = Halton { base: b, dig, rem, pw, state_num: 0 };
        proof {
            lemma_pow_pos(bn, len as nat);
            lemma_expansion_of_counter(ds, bn);
            // A fresh generator can always take its first step: index and
            // base are 32-bit values, so the product fits a u64.
            assert((h.counter() + 1) * h.base_nat() <= u64::MAX as nat) by (nonlinear_arith)
                requires
                    h.counter() + 1 <= 0x1_0000_0000,
                    h.base_nat() <= 0xffff_ffff,
            {
            }
        }
        h
    }

    /// Step to the next index with the incremental carry update.  If the
    /// least significant digit would overflow, the carry chain resets every
    /// maximal digit, increments the first digit that can take it (growing
    /// the digit string when all overflow), and recomputes only the
    /// remainder slots above the carry; otherwise only the least
    /// significant digit and the produced value change.
    #[verifier::loop_isolation(false)]
    #[verifier::rlimit(80)]
    fn advance(&mut self)
        requires
            old(self).wf(),
            old(self).can_step(),
        ensures
            final(self).wf(),
            final(self).base_nat() == old(self).base_nat(),
            final(self).counter() == old(self).counter() + 1,
            final(self).cur_num() == hnum(final(self).counter(), final(self).base_nat()),
            final(self).cur_den() == hden(final(self).counter(), final(self).base_nat()),
    {
        let ghost bn: nat = old(self).base_nat();
        let ghost d0: Seq<nat> = old(self).digs();
        let b: u32 = self.base;
        if self.dig[0] == b - 1 {
            // Carry scan: reset every maximal digit from the bottom up.
            let mut i: usize = 0;
            while i < self.dig.len() && self.dig[i] == b - 1
                invariant
                    self.base == old(self).base,
                    self.rem == old(self).rem,
                    self.pw == old(self).pw,
                    self.state_num == old(self).state_num,
                    self.dig@.len() == d0.len(),
                    0 <= i <= self.dig@.len(),
                    forall|j: int| 0 <= j < i ==> self.digs()[j] == 0,
                    forall|j: int| 0 <= j < i ==> d0[j] == bn - 1,
                    forall|j: int| i <= j < d0.len() ==> self.digs()[j] == d0[j],
                    bn == b as nat,
                decreases self.dig@.len() - i,
            {
                proof {
                    assert(self.dig@.update(i as int, 0u32).map_values(|x: u32| x as nat)
                        =~= self.digs().update(i as int, 0nat));
                }
                self.dig[i] = 0;
                i = i + 1;
            }
            let ghost dmid: Seq<nat> = self.digs();
            let ghost oldlen: int = d0.len() as int;
            proof {
                assert(i >= 1);
            }
            if i < self.dig.len() {
                // A digit can take the carry: increment it.
                let di: u32 = self.dig[i];
                proof {
                    assert(dmid[i as int] == d0[i as int]);
                    assert((di as nat) < bn);
                    assert(self.dig@.update(i as int, (di + 1) as u32).map_values(
                        |x: u32| x as nat,
                    ) =~= dmid.update(i as int, (di + 1) as nat));
                }
                self.dig[i] = di + 1;
                proof {
                    lemma_carry_increment(d0, self.digs(), bn, i as int);
                    let dn1 = self.digs();
                    assert(dn1[i as int] == di + 1);
                    assert forall|j: int| 0 <= j < dn1.len() implies dn1[j] < bn by {
                        if j < i as int {
                            assert(dn1[j] == 0);
                        } else if j > i as int {
                            assert(dn1[j] == d0[j]);
                        }
                    }
                    assert(dn1[dn1.len() - 1] != 0) by {
                        if (i as int) < dn1.len() - 1 {
                            assert(dn1[dn1.len() - 1] == d0[d0.len() - 1]);
                        }
                    }
                    assert(forall|j: int| 0 <= j < i ==> dn1[j] == 0);
                    assert(canonical(dn1, bn));
                }
            } else {
                // Every digit overflowed: append a new most significant 1,
                // with matching remainder and power slots.
                proof {
                    assert(self.dig@.push(1u32).map_values(|x: u32| x as nat) =~= dmid.push(1nat));
                    lemma_carry_grow(d0, dmid.push(1nat), bn);
                    // The step bound makes the grown denominator fit.
                    assert(pow_nat(bn, (oldlen + 1) as nat) == bn * pow_nat(bn, oldlen as nat));
                    assert((self.pw@[oldlen - 1] as nat) * bn == pow_nat(bn, oldlen as nat)
                        && pow_nat(bn, oldlen as nat) <= u64::MAX as nat && bn * pow_nat(
                        bn,
                        oldlen as nat,
                    ) == pow_nat(bn, oldlen as nat) * bn) by (nonlinear_arith)
                        requires
                            pow_nat(bn, oldlen as nat) == bn * pow_nat(
                                bn,
                                (oldlen - 1) as nat,
                            ),
                            self.pw@[oldlen - 1] as nat == pow_nat(bn, (oldlen - 1) as nat),
                            (seq_idx(d0, bn) + 1) * bn <= u64::MAX as nat,
                            seq_idx(d0, bn) + 1 == pow_nat(bn, oldlen as nat),
                            bn >= 2,
                    {
                    }
                }
                self.dig.push(1);
                self.rem.push(0);
                let pl: u64 = self.pw[self.pw.len() - 1];
                self.pw.push(pl * (b as u64));
                proof {
                    assert(self.digs() =~= dmid.push(1nat));
                    let dn1 = self.digs();
                    assert forall|j: int| 0 <= j < dn1.len() implies dn1[j] < bn by {
                        if j < i as int {
                            assert(dn1[j] == dmid[j]);
                        } else {
                            assert(dn1[j] == 1);
                        }
                    }
                    assert(dn1[dn1.len() - 1] == 1);
                    assert(forall|j: int| 0 <= j < i ==> dn1[j] == 0);
                    assert(canonical(dn1, bn));
                }
            }
            let ghost dn: Seq<nat> = self.digs();
            let len: usize = self.rem.len();
            proof {
                assert(canonical(dn, bn));
                assert(forall|j: int| 0 <= j < i ==> dn[j] == 0);
                // Entries below the carry point still match: they cover
                // digits the carry never touched.
                assert forall|t: int| 0 <= t < len - i implies self.rem@[t] as nat == rev_val(
                    dn.subrange(len - t, len as int),
                    bn,
                ) by {
                    assert(dn.subrange(len - t, len as int) =~= d0.subrange(
                        oldlen - t,
                        oldlen,
                    ));
                }
            }
            // Recompute the remainder slot at the carry point.
            let di: u32 = self.dig[i];
            proof {
                let top = dn.subrange(i as int, len as int);
                assert(top.subrange(1, top.len() as int) =~= dn.subrange(
                    i as int + 1,
                    len as int,
                ));
                lemma_rev_val_bound(dn.subrange(i as int + 1, len as int), bn);
                lemma_pow_le(bn, (len - i) as nat, len as nat);
                assert((di as nat) * pow_nat(bn, (len - i - 1) as nat) + rem_at(
                    self.rem@,
                    len - i - 1,
                ) < pow_nat(bn, (len - i) as nat)) by (nonlinear_arith)
                    requires
                        (di as nat) < bn,
                        rem_at(self.rem@, len - i - 1) < pow_nat(bn, (len - i - 1) as nat),
                        pow_nat(bn, (len - i) as nat) == bn * pow_nat(bn, (len - i - 1) as nat),
                {
                }
            }
            let v: u64 = (di as u64) * self.pw[len - i - 1] + self.rem[len - i - 1];
            self.rem[len - i] = v;
            // Propagate upward: every digit below the carry point is now 0,
            // so each higher slot is a plain copy of the one below it.
            let mut k: usize = len - i;
            while k < len - 1
                invariant
                    self.base == old(self).base,
                    bn == b as nat,
                    b >= 2,
                    dn == self.digs(),
                    i >= 1,
                    len == self.rem@.len(),
                    len == self.dig@.len(),
                    len == self.pw@.len(),
                    i <= len - 1,
                    len - i <= k <= len - 1,
                    self.state_num == old(self).state_num,
                    canonical(dn, bn),
                    pow_nat(bn, len as nat) <= u64::MAX as nat,
                    forall|j: int| 0 <= j < i ==> dn[j] == 0,
                    forall|m: int| 0 <= m < len ==> self.pw@[m] as nat == pow_nat(bn, m as nat),
                    forall|t: int|
                        0 <= t <= k ==> self.rem@[t] as nat == rev_val(
                            dn.subrange(len - t, len as int),
                            bn,
                        ),
                decreases len - k,
            {
                let v2: u64 = self.rem[k];
                proof {
                    let top = dn.subrange(len - (k as int + 1), len as int);
                    assert(top.subrange(1, top.len() as int) =~= dn.subrange(
                        len - k as int,
                        len as int,
                    ));
                    assert(top[0] == 0);
                    assert(top[0] * pow_nat(bn, k as nat) == 0) by (nonlinear_arith)
                        requires
                            top[0] == 0nat,
                    {
                    }
                }
                self.rem[k + 1] = v2;
                k = k + 1;
            }
            self.state_num = self.rem[len - 1];
            proof {
                assert(dn[0] == 0);
                assert(dn.subrange(1, len as int) =~= dn.subrange(len - (len - 1), len as int));
                assert(dn[0] * pow_nat(bn, (len - 1) as nat) == 0) by (nonlinear_arith)
                    requires
                        dn[0] == 0nat,
                {
                }
                assert(self.cur_num() == rev_val(dn, bn));
                lemma_rev_val_bound(dn, bn);
                lemma_expansion_of_counter(dn, bn);
            }
        } else {
            // No carry: only the least significant digit and the produced
            // value change.
            let t0: u32 = self.dig[0];
            proof {
                assert(self.dig@.update(0, (t0 + 1) as u32).map_values(|x: u32| x as nat)
                    =~= d0.update(0, (t0 + 1) as nat));
            }
            self.dig[0] = t0 + 1;
            let len: usize = self.rem.len();
            let ghost dn: Seq<nat> = self.digs();
            proof {
                assert(dn.subrange(1, len as int) =~= d0.subrange(1, len as int));
                assert(canonical(dn, bn));
                assert(seq_idx(dn, bn) == seq_idx(d0, bn) + 1);
                let top = d0.subrange(len - (len - 1), len as int);
                assert(top =~= d0.subrange(1, len as int));
                lemma_rev_val_bound(d0.subrange(1, len as int), bn);
                assert(((t0 + 1) as nat) * pow_nat(bn, (len - 1) as nat) + rem_at(
                    self.rem@,
                    len - 1,
                ) < pow_nat(bn, len as nat)) by (nonlinear_arith)
                    requires
                        ((t0 + 1) as nat) < bn,
                        rem_at(self.rem@, len - 1) < pow_nat(bn, (len - 1) as nat),
                        pow_nat(bn, len as nat) == bn * pow_nat(bn, (len - 1) as nat),
                {
                }
            }
            let v: u64 = ((t0 + 1) as u64) * self.pw[len - 1] + self.rem[len - 1];
            self.state_num = v;
            proof {
                // Untouched remainder slots still match: they never cover
                // the least significant digit.
                assert forall|t: int| 0 <= t < len implies self.rem@[t] as nat == rev_val(
                    dn.subrange(len - t, len as int),
                    bn,
                ) by {
                    assert(dn.subrange(len - t, len as int) =~= d0.subrange(
                        len - t,
                        len as int,
                    ));
                }
                assert(dn.subrange(1, dn.len() as int) =~= d0.subrange(1, len as int));
                assert(self.cur_num() == rev_val(dn, bn));
                lemma_rev_val_bound(dn, bn);
                lemma_expansion_of_counter(dn, bn);
            }
        }
    }

    /// Step the generator `size` times, discarding intermediate values.
    /// Useful when only every so many elements of the sequence are wanted.
    #[verifier::loop_isolation(false)]
    pub fn skip(&mut self, size: usize)
        requires
            old(self).wf(),
            (old(self).counter() + size) * old(self).base_nat() <= u64::MAX as nat,
        ensures
            final(self).wf(),
            final(self).base_nat() == old(self).base_nat(),
            final(self).counter() == old(self).counter() + size,
            size >= 1 ==> final(self).cur_num() == hnum(
                final(self).counter(),
                final(self).base_nat(),
            ) && final(self).cur_den() == hden(final(self).counter(), final(self).base_nat()),
            size == 0 ==> *final(self) == *old(self),
    {
        let mut k: usize = 0;
        while k < size
            invariant
                0 <= k <= size,
                self.wf(),
                self.base_nat() == old(self).base_nat(),
                self.counter() == old(self).counter() + k,
                (old(self).counter() + size) * old(self).base_nat() <= u64::MAX as nat,
                k >= 1 ==> self.cur_num() == hnum(self.counter(), self.base_nat())
                    && self.cur_den() == hden(self.counter(), self.base_nat()),
                k == 0 ==> *self == *old(self),
            decreases size - k,
        {
            proof {
                vstd::arithmetic::mul::lemma_mul_inequality(
                    self.counter() as int + 1,
                    old(self).counter() as int + size as int,
                    self.base_nat() as int,
                );
            }
            self.advance();
            k = k + 1;
        }
    }
}

impl Halton {
    /// The current denominator `base^(number of digits)` as a machine
    /// integer.
    fn den_u64(&self) -> (d: u64)
        requires
            self.wf(),
        ensures
            d as nat == self.cur_den(),
            d >= 2,
    {
        proof {
            let bn = self.base_nat();
            let len = self.dig@.len();
            assert(pow_nat(bn, len) == bn * pow_nat(bn, (len - 1) as nat));
            lemma_pow_le(bn, 1, len);
            assert(pow_nat(bn, 1) == bn * pow_nat(bn, 0));
            assert((self.pw@[len - 1] as nat) * bn == pow_nat(bn, len) && bn * 1 == bn)
                by (nonlinear_arith)
                requires
                    self.pw@[len - 1] as nat == pow_nat(bn, (len - 1) as nat),
                    pow_nat(bn, len) == bn * pow_nat(bn, (len - 1) as nat),
            {
            }
        }
        self.pw[self.pw.len() - 1] * (self.base as u64)
    }

}

impl crate::sampler::Sampler for Halton {
    open spec fn inv(&self) -> bool {
        self.wf()
    }

    open spec fn can_produce(&self) -> bool {
        self.can_step()
    }

    open spec fn nth_num(&self, k: nat) -> nat {
        hnum(self.counter() + 1 + k, self.base_nat())
    }

    open spec fn nth_den(&self, k: nat) -> nat {
        hden(self.counter() + 1 + k, self.base_nat())
    }

    /// One more step keeps every cached quantity within the `u64` range.
    fn ready(&self) -> (r: bool) {
        let den: u64 = self.den_u64();
        let q: u64 = u64::MAX / den;
        let r: bool = (self.base as u64) <= q;
        proof {
            if r {
                let bn = self.base_nat();
                vstd::arithmetic::div_mod::lemma_fundamental_div_mod(u64::MAX as int, den as int);
                lemma_seq_idx_bound(self.digs(), bn);
                assert((self.counter() + 1) * bn <= u64::MAX as nat) by (nonlinear_arith)
                    requires
                        self.counter() + 1 <= den as nat,
                        bn <= q as nat,
                        (den as int) * (q as int) <= u64::MAX as int,
                {
                }
            }
        }
        r
    }

    fn next_parts(&mut self) -> (r: (u64, u64))
        ensures
            final(self).counter() == old(self).counter() + 1,
            final(self).base_nat() == old(self).base_nat(),
    {
        self.advance();
        let den: u64 = self.den_u64();
        (self.state_num, den)
    }

    fn next_u64(&mut self) -> (r: u64)
        ensures
            final(self).counter() == old(self).counter() + 1,
            final(self).base_nat() == old(self).base_nat(),
    {
        self.advance();
        let den: u64 = self.den_u64();
        let num: u64 = self.state_num;
        proof {
            vstd::arithmetic::div_mod::lemma_multiply_divide_lt(
                (num as int) * (u64::MAX as int),
                den as int,
                u64::MAX as int + 1,
            );
            assert((num as int) * (u64::MAX as int) < (den as int) * (u64::MAX as int + 1))
                by (nonlinear_arith)
                requires
                    (num as int) < (den as int),
            {
            }
        }
        let wide: u128 = (num as u128) * (u64::MAX as u128) / (den as u128);
        wide as u64
    }

    fn next_u32(&mut self) -> (r: u32)
        ensures
            final(self).counter() == old(self).counter() + 1,
            final(self).base_nat() == old(self).base_nat(),
    {
        self.advance();
        let den: u64 = self.den_u64();
        let num: u64 = self.state_num;
        proof {
            vstd::arithmetic::div_mod::lemma_multiply_divide_lt(
                (num as int) * (u32::MAX as int),
                den as int,
                u32::MAX as int + 1,
            );
            assert((num as int) * (u32::MAX as int) < (den as int) * (u32::MAX as int + 1))
                by (nonlinear_arith)
                requires
                    (num as int) < (den as int),
            {
            }
        }
        let wide: u128 = (num as u128) * (u32::MAX as u128) / (den as u128);
        wide as u32
    }
}

/// The remainder entry at position `t`, as a natural number.
spec fn rem_at(r: Seq<u64>, t: int) -> nat {
    r[t] as nat
}

} // verus!

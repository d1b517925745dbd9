//! The mathematics of base-`b` digit expansions.
//!
//! A Halton value is the radical inverse of an index: write the index in
//! base `b`, least-significant digit first, and read the digits back as the
//! fractional expansion `sum_j d_j / b^(j+1)`.  This module defines that sum
//! as an exact fraction over the naturals and proves the facts the
//! incremental generator needs: how the value of a digit string changes
//! under a carry, and that a canonical digit string and the direct
//! expansion of the number it stands for agree.

use vstd::prelude::*;

verus! {

broadcast use vstd::arithmetic::div_mod::lemma_div_decreases;

/// `b` raised to `e` over the naturals.
pub open spec fn pow_nat(b: nat, e: nat) -> nat
    decreases e,
{
    if e == 0 {
        1
    } else {
        b * pow_nat(b, (e - 1) as nat)
    }
}

/// The number a digit string stands for, least-significant digit first.
pub open spec fn seq_idx(d: Seq<nat>, b: nat) -> nat
    decreases d.len(),
{
    if d.len() == 0 {
        0
    } else {
        d[0] + b * seq_idx(d.subrange(1, d.len() as int), b)
    }
}

/// Numerator over `b^len` of the radical-inverse sum of a digit string:
/// `sum_j d[j] / b^(j+1)` scaled by `b^len`, which reads the digits back
/// most-significant first.
pub open spec fn rev_val(d: Seq<nat>, b: nat) -> nat
    decreases d.len(),
{
    if d.len() == 0 {
        0
    } else {
        d[0] * pow_nat(b, (d.len() - 1) as nat) + rev_val(d.subrange(1, d.len() as int), b)
    }
}

/// Numerator of the base-`b` Halton value of index `n`: the direct
/// digit-expansion sum is exactly `hnum(n, b) / hden(n, b)`.
pub open spec fn hnum(n: nat, b: nat) -> nat
    decreases n,
{
    if b < 2 || n < b {
        n
    } else {
        (n % b) * hden(n / b, b) + hnum(n / b, b)
    }
}

/// Denominator of the base-`b` Halton value of index `n`: the base raised
/// to the number of base-`b` digits of `n`.
pub open spec fn hden(n: nat, b: nat) -> nat
    decreases n,
{
    if b < 2 || n < b {
        b
    } else {
        b * hden(n / b, b)
    }
}

/// A digit string in base `b` with no spurious leading zero: nonempty,
/// every digit below `b`, and the most significant digit nonzero unless the
/// string is the single digit 0.
pub open spec fn canonical(d: Seq<nat>, b: nat) -> bool {
    &&& d.len() >= 1
    &&& (forall|j: int| 0 <= j < d.len() ==> d[j] < b)
    &&& (d.len() == 1 || d[d.len() - 1] != 0)
}

proof fn lemma_seq_idx_empty(d: Seq<nat>, b: nat)
    requires
        d.len() == 0,
    ensures
        seq_idx(d, b) == 0,
{
}

proof fn lemma_rev_val_empty(d: Seq<nat>, b: nat)
    requires
        d.len() == 0,
    ensures
        rev_val(d, b) == 0,
{
}

pub proof fn lemma_pow_pos(b: nat, e: nat)
    requires
        b >= 1,
    ensures
        pow_nat(b, e) >= 1,
    decreases e,
{
    if e > 0 {
        lemma_pow_pos(b, (e - 1) as nat);
        assert(b * pow_nat(b, (e - 1) as nat) >= 1) by (nonlinear_arith)
            requires
                b >= 1,
                pow_nat(b, (e - 1) as nat) >= 1,
        {
        }
    }
}

pub proof fn lemma_pow_le(b: nat, e1: nat, e2: nat)
    requires
        b >= 1,
        e1 <= e2,
    ensures
        pow_nat(b, e1) <= pow_nat(b, e2),
    decreases e2,
{
    if e1 < e2 {
        lemma_pow_le(b, e1, (e2 - 1) as nat);
        assert(b * pow_nat(b, (e2 - 1) as nat) >= pow_nat(b, (e2 - 1) as nat)) by (nonlinear_arith)
            requires
                b >= 1,
        {
        }
    }
}

/// A digit string with digits below `b` stands for a number below `b^len`.
pub proof fn lemma_seq_idx_bound(d: Seq<nat>, b: nat)
    requires
        b >= 1,
        forall|j: int| 0 <= j < d.len() ==> d[j] < b,
    ensures
        seq_idx(d, b) < pow_nat(b, d.len()),
    decreases d.len(),
{
    if d.len() > 0 {
        let rest = d.subrange(1, d.len() as int);
        lemma_seq_idx_bound(rest, b);
        let p = pow_nat(b, (d.len() - 1) as nat);
        assert(d[0] + b * seq_idx(rest, b) < b * p) by (nonlinear_arith)
            requires
                d[0] < b,
                seq_idx(rest, b) < p,
                b >= 1,
        {
        }
    }
}

/// The scaled radical inverse of a digit string stays below `b^len`: the
/// value itself stays below one.
pub proof fn lemma_rev_val_bound(d: Seq<nat>, b: nat)
    requires
        b >= 1,
        forall|j: int| 0 <= j < d.len() ==> d[j] < b,
    ensures
        rev_val(d, b) < pow_nat(b, d.len()),
    decreases d.len(),
{
    if d.len() > 0 {
        let rest = d.subrange(1, d.len() as int);
        lemma_rev_val_bound(rest, b);
        let p = pow_nat(b, (d.len() - 1) as nat);
        assert(d[0] * p + rev_val(rest, b) < b * p) by (nonlinear_arith)
            requires
                d[0] < b,
                rev_val(rest, b) < p,
                b >= 1,
        {
        }
    }
}

/// A digit string whose most significant digit is nonzero stands for a
/// number of at least `b^(len-1)`.
pub proof fn lemma_seq_idx_lower(d: Seq<nat>, b: nat)
    requires
        b >= 1,
        d.len() >= 1,
        d[d.len() - 1] != 0,
    ensures
        seq_idx(d, b) >= pow_nat(b, (d.len() - 1) as nat),
    decreases d.len(),
{
    let rest = d.subrange(1, d.len() as int);
    if d.len() == 1 {
        assert(rest.len() == 0);
    } else {
        lemma_seq_idx_lower(rest, b);
        let p = pow_nat(b, (d.len() - 2) as nat);
        assert(d[0] + b * seq_idx(rest, b) >= b * p) by (nonlinear_arith)
            requires
                seq_idx(rest, b) >= p,
                b >= 1,
        {
        }
    }
}

/// Appending a most significant digit `x` adds `x * b^len` to the number a
/// digit string stands for.
pub proof fn lemma_seq_idx_push(d: Seq<nat>, b: nat, x: nat)
    ensures
        seq_idx(d.push(x), b) == seq_idx(d, b) + x * pow_nat(b, d.len()),
    decreases d.len(),
{
    if d.len() == 0 {
        assert(d.push(x).subrange(1, d.push(x).len() as int) =~= d);
        lemma_seq_idx_empty(d, b);
        assert(b * seq_idx(d, b) == 0 && x * pow_nat(b, d.len()) == x) by (nonlinear_arith)
            requires
                seq_idx(d, b) == 0,
                pow_nat(b, d.len()) == 1,
        {
        }
    } else {
        let rest = d.subrange(1, d.len() as int);
        assert(d.push(x).subrange(1, d.push(x).len() as int) =~= rest.push(x));
        lemma_seq_idx_push(rest, b, x);
        let p = pow_nat(b, (d.len() - 1) as nat);
        assert(b * (seq_idx(rest, b) + x * p) == b * seq_idx(rest, b) + x * (b * p))
            by (nonlinear_arith)
        {
        }
    }
}

/// Zeroing a prefix of digits that all read `b - 1` and incrementing the
/// next digit adds one to the number the string stands for: one step of the
/// carry chain.
pub proof fn lemma_carry_increment(d_old: Seq<nat>, d_new: Seq<nat>, b: nat, i: int)
    requires
        b >= 2,
        0 <= i < d_old.len(),
        d_new.len() == d_old.len(),
        forall|j: int| 0 <= j < i ==> d_old[j] == b - 1,
        forall|j: int| 0 <= j < i ==> d_new[j] == 0,
        d_new[i] == d_old[i] + 1,
        forall|j: int| i < j < d_old.len() ==> d_new[j] == d_old[j],
    ensures
        seq_idx(d_new, b) == seq_idx(d_old, b) + 1,
    decreases i,
{
    if i == 0 {
        assert(d_old.subrange(1, d_old.len() as int) =~= d_new.subrange(
            1,
            d_new.len() as int,
        ));
    } else {
        let ro = d_old.subrange(1, d_old.len() as int);
        let rn = d_new.subrange(1, d_new.len() as int);
        lemma_carry_increment(ro, rn, b, i - 1);
        assert(b * (seq_idx(ro, b) + 1) == b * seq_idx(ro, b) + b) by (nonlinear_arith) {
        }
    }
}

/// When every digit reads `b - 1`, the carry appends a new most significant
/// digit 1: the value steps from `b^len - 1` to `b^len`.
pub proof fn lemma_carry_grow(d_old: Seq<nat>, d_new: Seq<nat>, b: nat)
    requires
        b >= 2,
        d_new.len() == d_old.len() + 1,
        forall|j: int| 0 <= j < d_old.len() ==> d_old[j] == b - 1,
        forall|j: int| 0 <= j < d_old.len() ==> d_new[j] == 0,
        d_new[d_old.len() as int] == 1,
    ensures
        seq_idx(d_new, b) == seq_idx(d_old, b) + 1,
        seq_idx(d_new, b) == pow_nat(b, d_old.len()),
    decreases d_old.len(),
{
    if d_old.len() == 0 {
        assert(d_new.subrange(1, d_new.len() as int) =~= d_old);
        lemma_seq_idx_empty(d_old, b);
        assert(b * seq_idx(d_old, b) == 0) by (nonlinear_arith)
            requires
                seq_idx(d_old, b) == 0,
        {
        }
    } else {
        let ro = d_old.subrange(1, d_old.len() as int);
        let rn = d_new.subrange(1, d_new.len() as int);
        lemma_carry_grow(ro, rn, b);
        assert(b * (seq_idx(ro, b) + 1) == b * seq_idx(ro, b) + b) by (nonlinear_arith) {
        }
    }
}

/// A canonical digit string and the direct expansion of the number it
/// stands for agree: the incrementally kept numerator and denominator are
/// exactly `hnum` and `hden` of the current index.
pub proof fn lemma_expansion_of_counter(d: Seq<nat>, b: nat)
    requires
        b >= 2,
        canonical(d, b),
    ensures
        hnum(seq_idx(d, b), b) == rev_val(d, b),
        hden(seq_idx(d, b), b) == pow_nat(b, d.len()),
    decreases d.len(),
{
    let n = seq_idx(d, b);
    let rest = d.subrange(1, d.len() as int);
    if d.len() == 1 {
        lemma_seq_idx_empty(rest, b);
        lemma_rev_val_empty(rest, b);
        assert(b * seq_idx(rest, b) == 0 && d[0] * pow_nat(b, 0) == d[0] && b * pow_nat(b, 0)
            == b) by (nonlinear_arith)
            requires
                seq_idx(rest, b) == 0,
                pow_nat(b, 0) == 1,
        {
        }
        assert(n == d[0]);
    } else {
        assert(rest[rest.len() - 1] == d[d.len() - 1]);
        lemma_seq_idx_lower(rest, b);
        lemma_pow_pos(b, (rest.len() - 1) as nat);
        let r = seq_idx(rest, b);
        assert(n == d[0] + b * r);
        assert(n >= b && n as int == (r as int) * (b as int) + (d[0] as int))
            by (nonlinear_arith)
            requires
                r >= 1,
                b >= 2,
                n == d[0] + b * r,
        {
        }
        vstd::arithmetic::div_mod::lemma_fundamental_div_mod_converse_div(
            n as int,
            b as int,
            r as int,
            d[0] as int,
        );
        vstd::arithmetic::div_mod::lemma_fundamental_div_mod_converse_mod(
            n as int,
            b as int,
            r as int,
            d[0] as int,
        );
        lemma_expansion_of_counter(rest, b);
    }
}

/// Every Halton value lies in the unit interval: the numerator stays
/// strictly below the denominator.
pub proof fn lemma_value_below_one(n: nat, b: nat)
    requires
        b >= 2,
    ensures
        hnum(n, b) < hden(n, b),
    decreases n,
{
    if n >= b {
        lemma_value_below_one(n / b, b);
        let q = n / b;
        let m = n % b;
        assert(m * hden(q, b) + hnum(q, b) < b * hden(q, b)) by (nonlinear_arith)
            requires
                m < b,
                hnum(q, b) < hden(q, b),
        {
        }
    }
}

/// At an index that is a power of the base, the value is `1 / b^(k+1)`:
/// the carry chain that grows the digit string lands exactly there.
pub proof fn lemma_power_boundary(b: nat, k: nat)
    requires
        b >= 2,
    ensures
        hnum(pow_nat(b, k), b) == 1,
        hden(pow_nat(b, k), b) == b * pow_nat(b, k),
    decreases k,
{
    if k == 0 {
        assert(pow_nat(b, 0) == 1);
        assert(hnum(1, b) == 1);
        assert(hden(1, b) == b);
        assert(b * pow_nat(b, 0) == b) by (nonlinear_arith)
            requires
                pow_nat(b, 0) == 1,
        {
        }
    } else {
        let m = pow_nat(b, (k - 1) as nat);
        lemma_pow_pos(b, (k - 1) as nat);
        let n = pow_nat(b, k);
        assert(n == b * m);
        assert(n >= b && n as int == (m as int) * (b as int) + 0) by (nonlinear_arith)
            requires
                m >= 1,
                b >= 2,
                n == b * m,
        {
        }
        vstd::arithmetic::div_mod::lemma_fundamental_div_mod_converse_div(
            n as int,
            b as int,
            m as int,
            0,
        );
        vstd::arithmetic::div_mod::lemma_fundamental_div_mod_converse_mod(
            n as int,
            b as int,
            m as int,
            0,
        );
        lemma_power_boundary(b, (k - 1) as nat);
    }
}

} // verus!

//! Round-robin interleaving of generators.

use vstd::prelude::*;

use crate::sampler::Sampler;

verus! {

/// One step of a round-robin cursor over `l` positions, seen through the
/// stream that the rotation produces: after the cursor moves from `c0` on
/// by one, position `k` of the new stream is position `k + 1` of the old
/// one; it lands back on the generator under the old cursor exactly when
/// `k` closes a full cycle, and only then does that generator's own offset
/// grow.
proof fn lemma_cycle_step(l: int, c0: int, k: int)
    requires
        l >= 1,
        0 <= c0 < l,
        k >= 0,
    ensures
        ((c0 + 1) % l + k) % l == (c0 + k + 1) % l,
        (k % l == l - 1) ==> (c0 + k + 1) % l == c0 && (k + 1) / l == k / l + 1,
        (k % l != l - 1) ==> (c0 + k + 1) % l != c0 && (k + 1) / l == k / l,
{
    vstd::arithmetic::div_mod::lemma_fundamental_div_mod(k, l);
    vstd::arithmetic::div_mod::lemma_mod_bound(k, l);
    let q = k / l;
    let r = k % l;
    let c1 = if c0 + 1 < l { c0 + 1 } else { 0 };
    if c0 + 1 < l {
        vstd::arithmetic::div_mod::lemma_fundamental_div_mod_converse_mod(c0 + 1, l, 0, c0 + 1);
        assert(0 * l + (c0 + 1) == c0 + 1) by (nonlinear_arith) {
        }
    } else {
        vstd::arithmetic::div_mod::lemma_fundamental_div_mod_converse_mod(c0 + 1, l, 1, 0);
        assert(1 * l + 0 == l) by (nonlinear_arith) {
        }
    }
    assert((c0 + 1) % l == c1);
    if r == l - 1 {
        // k + 1 closes the cycle.
        assert(k + 1 == (q + 1) * l + 0 && c0 + k + 1 == (q + 1) * l + c0 && c1 + k == (q + if c1
            == 0 {
            0int
        } else {
            1int
        }) * l + (if c1 == 0 {
            r
        } else {
            c0
        })) by (nonlinear_arith)
            requires
                k == l * q + r,
                r == l - 1,
                c1 == (if c0 + 1 < l {
                    c0 + 1
                } else {
                    0int
                }),
                0 <= c0 < l,
        {
        }
        vstd::arithmetic::div_mod::lemma_fundamental_div_mod_converse_div(k + 1, l, q + 1, 0);
        vstd::arithmetic::div_mod::lemma_fundamental_div_mod_converse_mod(c0 + k + 1, l, q + 1, c0);
        if c1 == 0 {
            vstd::arithmetic::div_mod::lemma_fundamental_div_mod_converse_mod(c1 + k, l, q, r);
            assert((c1 + k) % l == r);
            assert(r == c0);
        } else {
            vstd::arithmetic::div_mod::lemma_fundamental_div_mod_converse_mod(c1 + k, l, q + 1, c0);
        }
    } else {
        // k + 1 stays inside the current cycle.
        let j = if c0 + r + 1 < l { c0 + r + 1 } else { c0 + r + 1 - l };
        assert(k + 1 == q * l + (r + 1) && c0 + k + 1 == (q + if c0 + r + 1 < l {
            0int
        } else {
            1int
        }) * l + j && c1 + k == (q + if c1 + r < l {
            0int
        } else {
            1int
        }) * l + (if c1 + r < l {
            c1 + r
        } else {
            c1 + r - l
        })) by (nonlinear_arith)
            requires
                k == l * q + r,
                0 <= r < l - 1,
                j == (if c0 + r + 1 < l {
                    c0 + r + 1
                } else {
                    c0 + r + 1 - l
                }),
                c1 == (if c0 + 1 < l {
                    c0 + 1
                } else {
                    0int
                }),
                0 <= c0 < l,
        {
        }
        vstd::arithmetic::div_mod::lemma_fundamental_div_mod_converse_div(k + 1, l, q, r + 1);
        if c0 + r + 1 < l {
            vstd::arithmetic::div_mod::lemma_fundamental_div_mod_converse_mod(c0 + k + 1, l, q, j);
        } else {
            vstd::arithmetic::div_mod::lemma_fundamental_div_mod_converse_mod(
                c0 + k + 1,
                l,
                q + 1,
                j,
            );
        }
        if c1 + r < l {
            vstd::arithmetic::div_mod::lemma_fundamental_div_mod_converse_mod(c1 + k, l, q, c1 + r);
        } else {
            vstd::arithmetic::div_mod::lemma_fundamental_div_mod_converse_mod(
                c1 + k,
                l,
                q + 1,
                c1 + r - l,
            );
        }
        assert((c1 + k) % l == j);
    }
}

/// Interleave several generators of one kind into a single combined
/// stream.
///
/// Each producing call is served by the generator under the cursor, and
/// the cursor then moves on cyclically, so the combined stream takes one
/// value from each generator in construction order, over and over.  The
/// value `k` steps from now comes from generator `(cursor + k) % len`, at
/// that generator's own offset `k / len`: each generator's own sequence
/// advances once per full cycle.
#[derive(Clone)]
pub struct Interleave<G: Sampler> {
    generators: Vec<G>,
    current: usize,
}

impl<G: Sampler> Interleave<G> {
    /// The generators, in construction order.
    pub closed spec fn gens(&self) -> Seq<G> {
        self.generators@
    }

    /// The index of the generator that serves the next call.
    pub closed spec fn cursor(&self) -> nat {
        self.current as nat
    }

    /// Well-formedness: at least one generator, a valid cursor, and every
    /// generator well-formed.
    pub open spec fn wf(&self) -> bool {
        &&& self.gens().len() >= 1
        &&& self.cursor() < self.gens().len()
        &&& (forall|j: int| 0 <= j < self.gens().len() ==> self.gens()[j].inv())
    }

    /// Create an interleaver over a non-empty collection of generators.
    /// The cursor starts at the first; each generator keeps its own
    /// independent state.
    pub fn new(generators: Vec<G>) -> (s: Interleave<G>)
        requires
            generators@.len() >= 1,
            forall|j: int| 0 <= j < generators@.len() ==> generators@[j].inv(),
        ensures
            s.wf(),
            s.gens() == generators@,
            s.cursor() == 0,
    {
        Interleave { generators, current: 0 }
    }
}

impl<G: Sampler> Sampler for Interleave<G> {
    open spec fn inv(&self) -> bool {
        self.wf()
    }

    open spec fn can_produce(&self) -> bool {
        self.gens()[self.cursor() as int].can_produce()
    }

    open spec fn nth_num(&self, k: nat) -> nat {
        self.gens()[((self.cursor() + k) % self.gens().len()) as int].nth_num(
            k / self.gens().len(),
        )
    }

    open spec fn nth_den(&self, k: nat) -> nat {
        self.gens()[((self.cursor() + k) % self.gens().len()) as int].nth_den(
            k / self.gens().len(),
        )
    }

    /// Whether the generator under the cursor, which serves the next
    /// call, can produce one more value.
    fn ready(&self) -> (r: bool) {
        self.generators[self.current].ready()
    }

    fn next_parts(&mut self) -> (r: (u64, u64))
        ensures
            final(self).gens().len() == old(self).gens().len(),
            final(self).cursor() == (old(self).cursor() + 1) % old(self).gens().len(),
            forall|j: int| #![trigger final(self).gens()[j]]
                0 <= j < old(self).gens().len() && j != old(self).cursor()
                    ==> final(self).gens()[j] == old(self).gens()[j],
    {
        let ghost pre = *self;
        let idx: usize = self.current;
        let mut g: G = self.generators.remove(idx);
        let ghost gpre = g;
        let r: (u64, u64) = g.next_parts();
        self.generators.insert(idx, g);
        let l: usize = self.generators.len();
        proof {
            assert(idx < l);
        }
        self.current = (idx + 1) % l;
        proof {
            lemma_delegation::<G>(pre, *self, gpre, g);
        }
        r
    }

    fn next_u64(&mut self) -> (r: u64)
        ensures
            final(self).gens().len() == old(self).gens().len(),
            final(self).cursor() == (old(self).cursor() + 1) % old(self).gens().len(),
            forall|j: int| #![trigger final(self).gens()[j]]
                0 <= j < old(self).gens().len() && j != old(self).cursor()
                    ==> final(self).gens()[j] == old(self).gens()[j],
    {
        let ghost pre = *self;
        let idx: usize = self.current;
        let mut g: G = self.generators.remove(idx);
        let ghost gpre = g;
        let r: u64 = g.next_u64();
        self.generators.insert(idx, g);
        let l: usize = self.generators.len();
        proof {
            assert(idx < l);
        }
        self.current = (idx + 1) % l;
        proof {
            lemma_delegation::<G>(pre, *self, gpre, g);
        }
        r
    }

    fn next_u32(&mut self) -> (r: u32)
        ensures
            final(self).gens().len() == old(self).gens().len(),
            final(self).cursor() == (old(self).cursor() + 1) % old(self).gens().len(),
            forall|j: int| #![trigger final(self).gens()[j]]
                0 <= j < old(self).gens().len() && j != old(self).cursor()
                    ==> final(self).gens()[j] == old(self).gens()[j],
    {
        let ghost pre = *self;
        let idx: usize = self.current;
        let mut g: G = self.generators.remove(idx);
        let ghost gpre = g;
        let r: u32 = g.next_u32();
        self.generators.insert(idx, g);
        let l: usize = self.generators.len();
        proof {
            assert(idx < l);
        }
        self.current = (idx + 1) % l;
        proof {
            lemma_delegation::<G>(pre, *self, gpre, g);
        }
        r
    }
}

/// After one delegated call, the interleaver's stream is the old stream
/// shifted by one: the cursor moved on cyclically, only the generator it
/// served stepped, and every other generator is untouched.
proof fn lemma_delegation<G: Sampler>(pre: Interleave<G>, post: Interleave<G>, gpre: G, gpost: G)
    requires
        pre.wf(),
        gpre == pre.gens()[pre.cursor() as int],
        gpost.inv(),
        forall|k: nat| #![trigger gpost.nth_num(k)] gpost.nth_num(k) == gpre.nth_num(k + 1),
        forall|k: nat| #![trigger gpost.nth_den(k)] gpost.nth_den(k) == gpre.nth_den(k + 1),
        post.gens() == pre.gens().remove(pre.cursor() as int).insert(pre.cursor() as int, gpost),
        post.cursor() == (pre.cursor() + 1) % pre.gens().len(),
    ensures
        post.wf(),
        pre.nth_num(0) == gpre.nth_num(0),
        pre.nth_den(0) == gpre.nth_den(0),
        forall|k: nat| #![trigger post.nth_num(k)] post.nth_num(k) == pre.nth_num(k + 1),
        forall|k: nat| #![trigger post.nth_den(k)] post.nth_den(k) == pre.nth_den(k + 1),
{
    let l = pre.gens().len() as int;
    let c0 = pre.cursor() as int;
    assert(post.gens() =~= pre.gens().update(c0, gpost));
    vstd::arithmetic::div_mod::lemma_mod_bound(c0 + 1, l);
    vstd::arithmetic::div_mod::lemma_small_mod(pre.cursor(), pre.gens().len());
    vstd::arithmetic::div_mod::lemma_basic_div(0, l);
    assert forall|k: nat| #![trigger post.nth_num(k)] post.nth_num(k) == pre.nth_num(k + 1) by {
        lemma_cycle_step(l, c0, k as int);
    }
    assert forall|k: nat| #![trigger post.nth_den(k)] post.nth_den(k) == pre.nth_den(k + 1) by {
        lemma_cycle_step(l, c0, k as int);
    }
}

} // verus!

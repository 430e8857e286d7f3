//! The compiled protocol description the verifier consumes.

use vstd::prelude::*;
use crate::expression::{degree_of, Expression, Query};
use crate::field::{fmul, fpow, fsub, Scalar, P};
use crate::group::EcPoint;

verus! {

/// The multiplicative subgroup the circuit lives on: its size `n` and its
/// generator `omega` with inverse `omega_inv`.
pub struct Domain {
    pub n: u64,
    pub omega: Scalar,
    pub omega_inv: Scalar,
}

/// `omega^r` for a signed rotation `r`.
pub open spec fn omega_pow(d: Domain, r: int) -> int {
    if r >= 0 {
        fpow(d.omega@, r as nat)
    } else {
        fpow(d.omega_inv@, (-r) as nat)
    }
}

/// `omega^r` is always canonically reduced.
pub proof fn lemma_omega_pow_bound(d: Domain, r: int)
    ensures
        0 <= omega_pow(d, r) < P,
{
    if r >= 0 {
        crate::field::lemma_fpow_bound(d.omega@, r as nat);
    } else {
        crate::field::lemma_fpow_bound(d.omega_inv@, (-r) as nat);
    }
}

impl Domain {
    /// A domain is well formed when it is nonempty, indexable by `i32`, and
    /// `omega_inv` really inverts `omega`.
    pub open spec fn wf(self) -> bool {
        &&& 1 <= self.n <= 0x7fff_ffff
        &&& fmul(self.omega@, self.omega_inv@) == 1
    }

    /// `rotate_scalar(s, r)` is `s * omega^r`.
    pub fn rotate_scalar(&self, s: Scalar, rotation: crate::expression::Rotation) -> (r: Scalar)
        ensures
            r@ == fmul(s@, omega_pow(*self, rotation@)),
    {
        if rotation.value >= 0 {
            s.mul(self.omega.pow(rotation.value as u64))
        } else {
            let e = -(rotation.value as i64);
            s.mul(self.omega_inv.pow(e as u64))
        }
    }
}

/// Sum of a sequence of counts.
pub open spec fn usum(s: Seq<usize>) -> int
    decreases s.len(),
{
    if s.len() == 0 {
        0
    } else {
        usum(s.drop_last()) + s.last()
    }
}

/// The largest relation degree.
pub open spec fn rel_max_degree(s: Seq<Expression>) -> int
    decreases s.len(),
{
    if s.len() == 0 {
        0
    } else if rel_max_degree(s.drop_last()) >= degree_of(s.last()) {
        rel_max_degree(s.drop_last())
    } else {
        degree_of(s.last())
    }
}

/// Counts are never negative.
pub proof fn lemma_usum_nonneg(s: Seq<usize>)
    ensures
        usum(s) >= 0,
    decreases s.len(),
{
    if s.len() > 0 {
        lemma_usum_nonneg(s.drop_last());
    }
}

/// A prefix of counts sums to no more than the whole.
pub proof fn lemma_usum_take_le(s: Seq<usize>, i: int)
    requires
        0 <= i <= s.len(),
    ensures
        usum(s.take(i)) <= usum(s),
        usum(s.take(i)) >= 0,
    decreases s.len() - i,
{
    lemma_usum_nonneg(s.take(i));
    if i < s.len() {
        lemma_usum_take_le(s, i + 1);
        assert(s.take(i + 1).drop_last() =~= s.take(i));
        lemma_usum_nonneg(s.take(i + 1));
    } else {
        assert(s.take(i) =~= s);
    }
}

/// An immutable description of the circuit shape and query plan.
pub struct Protocol {
    pub domain: Domain,
    pub preprocessed: Vec<EcPoint>,
    pub num_statement: usize,
    pub num_auxiliary: Vec<usize>,
    pub num_challenge: Vec<usize>,
    pub relations: Vec<Expression>,
    pub queries: Vec<Query>,
    pub evaluations: Vec<Query>,
    pub transcript_initial_state: Scalar,
}

impl Protocol {
    /// The synthetic poly index of the aggregated quotient commitment,
    /// disjoint from every preprocessed, statement and auxiliary index.
    pub open spec fn vanishing_idx(self) -> int {
        self.preprocessed@.len() + self.num_statement + usum(self.num_auxiliary@)
    }

    /// The offset auxiliary poly indices start at: statements occupy the gap
    /// after the preprocessed polys, uncommitted.
    pub open spec fn aux_offset(self) -> int {
        self.preprocessed@.len() + self.num_statement
    }

    /// Total number of auxiliary commitments over all phases.
    pub open spec fn total_aux(self) -> int {
        usum(self.num_auxiliary@)
    }

    /// What the proof reader alone needs: a sound domain, phases in
    /// lockstep, and relations whose degrees are defined and machine-sized.
    /// The quotient read count `max_degree - 1` is well defined from degree
    /// one up (zero quotient points are read at degree one).
    pub open spec fn read_wf(self) -> bool {
        &&& self.domain.wf()
        &&& self.num_auxiliary@.len() == self.num_challenge@.len()
        &&& self.relations@.len() >= 1
        &&& 1 <= rel_max_degree(self.relations@)
        &&& forall|i: int|
            0 <= i < self.relations@.len() ==> #[trigger] degree_of(self.relations@[i])
                <= u32::MAX
    }

    /// Well-formedness of the compiled description: a sound domain, phases
    /// in lockstep, at least one relation of degree at least two (so the
    /// quotient aggregate is nonempty), indices that fit the machine, and
    /// an evaluation plan whose queries are pairwise distinct and stay
    /// clear of the synthetic statement and quotient entries.
    pub open spec fn wf(self) -> bool {
        &&& self.domain.wf()
        &&& self.num_auxiliary@.len() == self.num_challenge@.len()
        &&& self.relations@.len() >= 1
        &&& 2 <= rel_max_degree(self.relations@)
        &&& forall|i: int|
            0 <= i < self.relations@.len() ==> #[trigger] degree_of(self.relations@[i])
                <= u32::MAX
        &&& self.vanishing_idx() + 1 <= usize::MAX
        &&& crate::expression::qseq_distinct(self.evaluations@)
        &&& forall|j: int|
            0 <= j < self.evaluations@.len() ==> !(self.preprocessed@.len()
                <= (#[trigger] self.evaluations@[j]@).poly < self.aux_offset()
                && self.evaluations@[j]@.rotation == 0) && !(self.evaluations@[j]@.poly
                == self.vanishing_idx() && self.evaluations@[j]@.rotation == 0)
    }

    /// The synthetic quotient poly index.
    pub fn vanishing_poly(&self) -> (r: usize)
        requires
            self.wf(),
        ensures
            r == self.vanishing_idx(),
    {
        let mut total: usize = 0;
        let mut i: usize = 0;
        while i < self.num_auxiliary.len()
            invariant
                i <= self.num_auxiliary@.len(),
                self.wf(),
                total == usum(self.num_auxiliary@.take(i as int)),
                total <= usize::MAX - 1,
            decreases self.num_auxiliary@.len() - i,
        {
            proof {
                assert(self.num_auxiliary@.take(i + 1).drop_last() =~= self.num_auxiliary@.take(
                    i as int,
                ));
                lemma_usum_take_le(self.num_auxiliary@, i + 1);
                lemma_usum_nonneg(self.num_auxiliary@.take(i as int));
                assert(usum(self.num_auxiliary@.take(i + 1)) <= usum(self.num_auxiliary@));
            }
            total = total + self.num_auxiliary[i];
            i = i + 1;
        }
        proof {
            assert(self.num_auxiliary@.take(self.num_auxiliary@.len() as int)
                =~= self.num_auxiliary@);
            lemma_usum_nonneg(self.num_auxiliary@);
        }
        self.preprocessed.len() + self.num_statement + total
    }
}

/// Pointwise difference used by the barycentric weights: `z' - z * omega^r`.
pub open spec fn zp_minus_z_omega(d: Domain, z: int, zp: int, r: int) -> int {
    fsub(zp, fmul(z, omega_pow(d, r)))
}

/// `z^n` for the domain size `n`.
pub open spec fn zn_of(d: Domain, z: int) -> int {
    fpow(z, d.n as nat)
}

/// The denominator of the normalized Lagrange evaluation: `n * (z - omega^i)`.
pub open spec fn lag_denom(d: Domain, z: int, i: int) -> int {
    fmul((d.n % P) as int, fsub(z, omega_pow(d, i)))
}

/// `L_i(z) = omega^i * (z^n - 1) / (n * (z - omega^i))`.
pub open spec fn lag_eval(d: Domain, z: int, i: int) -> int {
    fmul(fmul(omega_pow(d, i), fsub(zn_of(d, z), 1)), crate::field::finv(lag_denom(d, z, i)))
}

} // verus!

//! Scalar field arithmetic.
//!
//! The verifier is parametric in the backend arithmetic only through the
//! loader surface; this build fixes the scalar field to the prime field of
//! order `P`.  A `Scalar` carries an arbitrary machine word and is read
//! modulo `P`; every operation returns a canonically reduced value.

use vstd::prelude::*;
use vstd::arithmetic::div_mod::{
    lemma_mod_add_multiples_vanish, lemma_mul_mod_noop_right, lemma_small_mod,
};
use vstd::arithmetic::mul::{lemma_mul_is_associative, lemma_mul_is_commutative};

verus! {

/// The field order: the largest prime below `2^16`, so products fit in `u64`.
pub const P: u64 = 65521;

pub open spec fn fadd(a: int, b: int) -> int {
    (a + b) % (P as int)
}

pub open spec fn fsub(a: int, b: int) -> int {
    (a - b) % (P as int)
}

pub open spec fn fmul(a: int, b: int) -> int {
    (a * b) % (P as int)
}

pub open spec fn fneg(a: int) -> int {
    (0 - a) % (P as int)
}

/// Whether `a` has a multiplicative inverse modulo `P`.
pub open spec fn has_inv(a: int) -> bool {
    exists|x: int| 0 <= x < P && fmul(x, a) == 1
}

/// The multiplicative inverse of `a` modulo `P` (0 when none exists).
pub open spec fn finv(a: int) -> int {
    if has_inv(a) {
        choose|x: int| 0 <= x < P && fmul(x, a) == 1
    } else {
        0
    }
}

pub open spec fn fpow(a: int, e: nat) -> int
    decreases e,
{
    if e == 0 {
        1
    } else {
        fmul(fpow(a, (e - 1) as nat), a)
    }
}

/// Sum of a sequence of field values.
pub open spec fn fsum(s: Seq<int>) -> int
    decreases s.len(),
{
    if s.len() == 0 {
        0
    } else {
        fadd(fsum(s.drop_last()), s.last())
    }
}

/// `sum_products_with_coeff_and_constant`: `sum of c*a*b over the terms, plus k`.
pub open spec fn fspc(terms: Seq<(int, int, int)>, k: int) -> int
    decreases terms.len(),
{
    if terms.len() == 0 {
        k % (P as int)
    } else {
        fadd(fspc(terms.drop_last(), k), fmul(fmul(terms.last().0, terms.last().1), terms.last().2))
    }
}

/// Powers are always canonically reduced.
pub proof fn lemma_fpow_bound(a: int, e: nat)
    ensures
        0 <= fpow(a, e) < P,
    decreases e,
{
    if e > 0 {
        lemma_fpow_bound(a, (e - 1) as nat);
    }
}

/// Inverses modulo a prime are unique below the modulus.
pub proof fn lemma_inv_unique(a: int, x: int, y: int)
    requires
        0 <= x < P,
        0 <= y < P,
        fmul(x, a) == 1,
        fmul(y, a) == 1,
    ensures
        x == y,
{
    let p = P as int;
    lemma_mul_mod_noop_right(x, y * a, p);
    assert(x * (y * a) == y * (x * a)) by {
        lemma_mul_is_associative(x, y, a);
        lemma_mul_is_commutative(x, y);
        lemma_mul_is_associative(y, x, a);
    }
    lemma_mul_mod_noop_right(y, x * a, p);
    assert((x * ((y * a) % p)) % p == (y * ((x * a) % p)) % p);
    lemma_small_mod(x as nat, P as nat);
    lemma_small_mod(y as nat, P as nat);
}

/// An element of the scalar field, read modulo `P`.
#[derive(Clone, Copy, PartialEq, Eq, Structural, Debug)]
pub struct Scalar {
    pub v: u64,
}

impl View for Scalar {
    type V = int;

    open spec fn view(&self) -> int {
        (self.v % P) as int
    }
}

impl Scalar {
    pub fn new(v: u64) -> (r: Scalar)
        ensures
            r@ == v % P,
            r.v < P,
    {
        Scalar { v: v % P }
    }

    pub fn zero() -> (r: Scalar)
        ensures
            r@ == 0,
    {
        Scalar { v: 0 }
    }

    pub fn one() -> (r: Scalar)
        ensures
            r@ == 1,
    {
        Scalar { v: 1 }
    }

    pub fn add(self, o: Scalar) -> (r: Scalar)
        ensures
            r@ == fadd(self@, o@),
            r.v < P,
    {
        Scalar { v: (self.v % P + o.v % P) % P }
    }

    pub fn sub(self, o: Scalar) -> (r: Scalar)
        ensures
            r@ == fsub(self@, o@),
            r.v < P,
    {
        let r = Scalar { v: (self.v % P + P - o.v % P) % P };
        proof {
            lemma_mod_add_multiples_vanish(self@ - o@, P as int);
        }
        r
    }

    pub fn neg(self) -> (r: Scalar)
        ensures
            r@ == fneg(self@),
            r.v < P,
    {
        let r = Scalar { v: (P - self.v % P) % P };
        proof {
            lemma_mod_add_multiples_vanish(0 - self@, P as int);
        }
        r
    }

    pub fn mul(self, o: Scalar) -> (r: Scalar)
        ensures
            r@ == fmul(self@, o@),
            r.v < P,
    {
        let a = self.v % P;
        let b = o.v % P;
        proof {
            assert(a * b <= 65520 * 65520) by (nonlinear_arith)
                requires
                    a <= 65520,
                    b <= 65520,
            ;
        }
        Scalar { v: (a * b) % P }
    }

    /// Raises `self` to the power `e` by repeated multiplication.
    pub fn pow(self, e: u64) -> (r: Scalar)
        ensures
            r@ == fpow(self@, e as nat),
    {
        let mut acc = Scalar::one();
        let mut i: u64 = 0;
        while i < e
            invariant
                i <= e,
                acc@ == fpow(self@, i as nat),
            decreases e - i,
        {
            acc = acc.mul(self);
            i = i + 1;
        }
        acc
    }

    /// The multiplicative inverse, when one exists.
    ///
    /// Searches the whole field, so the answer is complete in both
    /// directions: `Some` exactly when an inverse exists.
    pub fn invert(self) -> (r: Option<Scalar>)
        ensures
            match r {
                Some(x) => has_inv(self@) && x@ == finv(self@) && x.v < P,
                None => !has_inv(self@),
            },
    {
        let a = self.v % P;
        let mut x: u64 = 0;
        while x < P
            invariant
                x <= P,
                a == self.v % P,
                forall|y: int| 0 <= y < x ==> fmul(y, self@) != 1,
            decreases P - x,
        {
            proof {
                assert(x * a <= 65520 * 65520) by (nonlinear_arith)
                    requires
                        x <= 65520,
                        a <= 65520,
                ;
            }
            if (x * a) % P == 1 {
                proof {
                    assert(fmul(x as int, self@) == 1);
                    let w = choose|w: int| 0 <= w < P && fmul(w, self@) == 1;
                    lemma_inv_unique(self@, x as int, w);
                }
                return Some(Scalar { v: x });
            }
            x = x + 1;
        }
        None
    }

    /// `powers(n)` is `[1, self, self^2, ..., self^(n-1)]`.
    pub fn powers(self, n: usize) -> (r: Vec<Scalar>)
        ensures
            r@.len() == n,
            forall|i: int| 0 <= i < n ==> #[trigger] r@[i]@ == fpow(self@, i as nat),
    {
        let mut r: Vec<Scalar> = Vec::new();
        let mut acc = Scalar::one();
        let mut i: usize = 0;
        while i < n
            invariant
                i <= n,
                r@.len() == i,
                acc@ == fpow(self@, i as nat),
                forall|j: int| 0 <= j < i ==> #[trigger] r@[j]@ == fpow(self@, j as nat),
            decreases n - i,
        {
            r.push(acc);
            acc = acc.mul(self);
            i = i + 1;
        }
        r
    }
}

/// The sequence of views of a sequence of scalars.
pub open spec fn views_of(s: Seq<Scalar>) -> Seq<int> {
    Seq::new(s.len(), |i: int| s[i]@)
}

/// Sum of a slice of scalars, as the loader's `sum` operation.
pub fn scalar_sum(v: &Vec<Scalar>) -> (r: Scalar)
    ensures
        r@ == fsum(views_of(v@)),
{
    let ghost vs = views_of(v@);
    let mut acc = Scalar::zero();
    let mut i: usize = 0;
    while i < v.len()
        invariant
            i <= v@.len(),
            vs == views_of(v@),
            acc@ == fsum(vs.take(i as int)),
        decreases v@.len() - i,
    {
        acc = acc.add(v[i]);
        proof {
            assert(vs.take(i + 1).drop_last() =~= vs.take(i as int));
            assert(vs.take(i + 1).last() == v@[i as int]@);
        }
        i = i + 1;
    }
    proof {
        assert(vs.take(v@.len() as int) =~= vs);
    }
    acc
}

pub proof fn lemma_views_of_push(prev: Seq<Scalar>, s: Scalar)
    ensures
        views_of(prev.push(s)) == views_of(prev).push(s@),
{
    assert(views_of(prev.push(s)) =~= views_of(prev).push(s@));
}

/// The sequence of view triples of a sequence of scalar triples.
pub open spec fn triple_views_of(s: Seq<(Scalar, Scalar, Scalar)>) -> Seq<(int, int, int)> {
    Seq::new(s.len(), |i: int| (s[i].0@, s[i].1@, s[i].2@))
}

/// The loader's fused `sum_products_with_coeff_and_constant` operation:
/// `sum of c*a*b over the terms, plus the constant`.
pub fn sum_products_with_coeff_and_constant(
    terms: &Vec<(Scalar, Scalar, Scalar)>,
    constant: Scalar,
) -> (r: Scalar)
    ensures
        r@ == fspc(triple_views_of(terms@), constant@),
{
    let ghost ts = triple_views_of(terms@);
    let mut acc = Scalar::new(constant.v);
    let mut i: usize = 0;
    proof {
        assert(ts.take(0) =~= Seq::<(int, int, int)>::empty());
    }
    while i < terms.len()
        invariant
            i <= terms@.len(),
            ts == triple_views_of(terms@),
            acc@ == fspc(ts.take(i as int), constant@),
        decreases terms@.len() - i,
    {
        let (c, a, b) = terms[i];
        acc = acc.add(c.mul(a).mul(b));
        proof {
            assert(ts.take(i + 1).drop_last() =~= ts.take(i as int));
            assert(ts.take(i + 1).last() == (terms@[i as int].0@, terms@[i as int].1@,
            terms@[i as int].2@));
        }
        i = i + 1;
    }
    proof {
        assert(ts.take(terms@.len() as int) =~= ts);
    }
    acc
}

} // verus!

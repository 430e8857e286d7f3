//! Group elements and the deferred multi-scalar-multiplication value.
//!
//! The elliptic-curve and pairing primitives are external collaborators of
//! the verifier core; this build models the commitment group as the additive
//! group of the scalar field (a group element carries its discrete
//! logarithm), which is enough to state and check every identity the core is
//! responsible for.  An `Msm` stays symbolic: it is a list of `(coefficient,
//! base)` pairs plus a constant scalar term, collapsed against a generator
//! only by `evaluate`.

use vstd::prelude::*;
use crate::field::{fadd, fmul, fneg, Scalar, P};

verus! {

/// A group element, written additively, read modulo `P`.
#[derive(Clone, Copy, PartialEq, Eq, Structural, Debug)]
pub struct EcPoint {
    pub v: u64,
}

impl View for EcPoint {
    type V = int;

    open spec fn view(&self) -> int {
        (self.v % P) as int
    }
}

impl EcPoint {
    pub fn new(v: u64) -> (r: EcPoint)
        ensures
            r@ == v % P,
    {
        EcPoint { v: v % P }
    }
}

/// The mathematical value of an `Msm`: ordered `(coefficient, base)` pairs
/// and a constant scalar term.
pub ghost struct MsmV {
    pub pairs: Seq<(int, int)>,
    pub constant: int,
}

pub open spec fn mv_base(p: int) -> MsmV {
    MsmV { pairs: seq![(1int, p)], constant: 0 }
}

pub open spec fn mv_scalar(s: int) -> MsmV {
    MsmV { pairs: Seq::empty(), constant: s }
}

pub open spec fn mv_add(a: MsmV, b: MsmV) -> MsmV {
    MsmV { pairs: a.pairs + b.pairs, constant: fadd(a.constant, b.constant) }
}

pub open spec fn mv_neg(a: MsmV) -> MsmV {
    MsmV {
        pairs: Seq::new(a.pairs.len(), |i: int| (fneg(a.pairs[i].0), a.pairs[i].1)),
        constant: fneg(a.constant),
    }
}

pub open spec fn mv_sub(a: MsmV, b: MsmV) -> MsmV {
    mv_add(a, mv_neg(b))
}

pub open spec fn mv_scale(a: MsmV, s: int) -> MsmV {
    MsmV {
        pairs: Seq::new(a.pairs.len(), |i: int| (fmul(a.pairs[i].0, s), a.pairs[i].1)),
        constant: fmul(a.constant, s),
    }
}

/// The collapsed value of the pair list: `sum of coeff_i * base_i`.
pub open spec fn mv_pairs_eval(pairs: Seq<(int, int)>) -> int
    decreases pairs.len(),
{
    if pairs.len() == 0 {
        0
    } else {
        fadd(mv_pairs_eval(pairs.drop_last()), fmul(pairs.last().0, pairs.last().1))
    }
}

/// The collapsed value of an `Msm` against the generator `g`.
pub open spec fn mv_eval(a: MsmV, g: int) -> int {
    fadd(mv_pairs_eval(a.pairs), fmul(a.constant, g))
}

/// A deferred linear combination of group bases with scalar coefficients.
#[derive(PartialEq, Eq, Debug)]
pub struct Msm {
    pub pairs: Vec<(Scalar, EcPoint)>,
    pub constant: Scalar,
}

pub open spec fn pair_views_of(s: Seq<(Scalar, EcPoint)>) -> Seq<(int, int)> {
    Seq::new(s.len(), |i: int| (s[i].0@, s[i].1@))
}

impl View for Msm {
    type V = MsmV;

    open spec fn view(&self) -> MsmV {
        MsmV { pairs: pair_views_of(self.pairs@), constant: self.constant@ }
    }
}

impl Msm {
    /// `1 * g`, no constant term.
    pub fn base(g: EcPoint) -> (r: Msm)
        ensures
            r@ == mv_base(g@),
    {
        let pairs = vec![(Scalar::one(), g)];
        let r = Msm { pairs, constant: Scalar::zero() };
        proof {
            assert(r@.pairs =~= mv_base(g@).pairs);
        }
        r
    }

    /// A bare constant term `s`, no bases.
    pub fn scalar(s: Scalar) -> (r: Msm)
        ensures
            r@ == mv_scalar(s@),
    {
        let r = Msm { pairs: Vec::new(), constant: Scalar::new(s.v) };
        proof {
            assert(r@.pairs =~= mv_scalar(s@).pairs);
        }
        r
    }

    /// A term-for-term copy.
    pub fn duplicate(&self) -> (r: Msm)
        ensures
            r@ == self@,
    {
        let mut pairs: Vec<(Scalar, EcPoint)> = Vec::new();
        let mut i: usize = 0;
        while i < self.pairs.len()
            invariant
                i <= self.pairs@.len(),
                pairs@ == self.pairs@.take(i as int),
            decreases self.pairs@.len() - i,
        {
            pairs.push(self.pairs[i]);
            proof {
                assert(pairs@ =~= self.pairs@.take(i + 1));
            }
            i = i + 1;
        }
        proof {
            assert(self.pairs@.take(self.pairs@.len() as int) =~= self.pairs@);
        }
        Msm { pairs, constant: self.constant }
    }

    /// Merges the terms of two deferred combinations and adds the constants.
    pub fn add(self, o: Msm) -> (r: Msm)
        ensures
            r@ == mv_add(self@, o@),
    {
        let ghost sv = self@;
        let ghost ov = o@;
        let mut pairs = self.pairs;
        let mut i: usize = 0;
        while i < o.pairs.len()
            invariant
                i <= o.pairs@.len(),
                ov == (MsmV { pairs: pair_views_of(o.pairs@), constant: o.constant@ }),
                pair_views_of(pairs@) =~= sv.pairs + pair_views_of(o.pairs@.take(i as int)),
            decreases o.pairs@.len() - i,
        {
            let ghost prev = pairs@;
            let e = o.pairs[i];
            pairs.push(e);
            proof {
                let ghost goal = sv.pairs + pair_views_of(o.pairs@.take(i + 1));
                assert(pair_views_of(prev).len() == prev.len());
                assert(prev.len() == sv.pairs.len() + i);
                assert(pairs@ == prev.push(e));
                assert forall|k: int| 0 <= k < prev.len() + 1 implies #[trigger] pair_views_of(
                    pairs@,
                )[k] == goal[k] by {
                    if k < prev.len() {
                        assert(pair_views_of(prev)[k] == (sv.pairs + pair_views_of(
                            o.pairs@.take(i as int),
                        ))[k]);
                        if k >= sv.pairs.len() {
                            assert(pair_views_of(o.pairs@.take(i as int))[k - sv.pairs.len()]
                                == pair_views_of(o.pairs@.take(i + 1))[k - sv.pairs.len()]);
                        }
                    } else {
                        assert(pairs@[k] == e);
                        assert(goal[k] == pair_views_of(o.pairs@.take(i + 1))[i as int]);
                    }
                }
                assert(pair_views_of(pairs@) =~= goal);
            }
            i = i + 1;
        }
        let r = Msm { pairs, constant: self.constant.add(o.constant) };
        proof {
            assert(o.pairs@.take(o.pairs@.len() as int) =~= o.pairs@);
            assert(r@.pairs =~= mv_add(sv, ov).pairs);
        }
        r
    }

    /// Negates every coefficient and the constant term.
    pub fn neg(self) -> (r: Msm)
        ensures
            r@ == mv_neg(self@),
    {
        let ghost sv = self@;
        let mut pairs: Vec<(Scalar, EcPoint)> = Vec::new();
        let mut i: usize = 0;
        while i < self.pairs.len()
            invariant
                i <= self.pairs@.len(),
                sv == (MsmV { pairs: pair_views_of(self.pairs@), constant: self.constant@ }),
                pair_views_of(pairs@) =~= mv_neg(sv).pairs.take(i as int),
            decreases self.pairs@.len() - i,
        {
            let ghost prev = pairs@;
            let (c, g) = self.pairs[i];
            let cn = c.neg();
            pairs.push((cn, g));
            proof {
                assert(pair_views_of(prev).len() == prev.len());
                assert(mv_neg(sv).pairs.take(i as int).len() == i);
                assert(prev.len() == i);
                assert(pairs@ == prev.push((cn, g)));
                assert forall|k: int| 0 <= k < i + 1 implies #[trigger] pair_views_of(pairs@)[k]
                    == mv_neg(sv).pairs.take(i + 1)[k] by {
                    if k < i {
                        assert(pair_views_of(prev)[k] == mv_neg(sv).pairs.take(i as int)[k]);
                    } else {
                        assert(pairs@[k] == (cn, g));
                    }
                }
                assert(pair_views_of(pairs@) =~= mv_neg(sv).pairs.take(i + 1));
            }
            i = i + 1;
        }
        let r = Msm { pairs, constant: self.constant.neg() };
        proof {
            assert(r@.pairs =~= mv_neg(sv).pairs);
        }
        r
    }

    /// `self - o`, as `self + (-o)`.
    pub fn sub(self, o: Msm) -> (r: Msm)
        ensures
            r@ == mv_sub(self@, o@),
    {
        self.add(o.neg())
    }

    /// Scales every coefficient and the constant term by `s`.
    pub fn scale(self, s: Scalar) -> (r: Msm)
        ensures
            r@ == mv_scale(self@, s@),
    {
        let ghost sv = self@;
        let mut pairs: Vec<(Scalar, EcPoint)> = Vec::new();
        let mut i: usize = 0;
        while i < self.pairs.len()
            invariant
                i <= self.pairs@.len(),
                sv == (MsmV { pairs: pair_views_of(self.pairs@), constant: self.constant@ }),
                pair_views_of(pairs@) =~= mv_scale(sv, s@).pairs.take(i as int),
            decreases self.pairs@.len() - i,
        {
            let ghost prev = pairs@;
            let (c, g) = self.pairs[i];
            let cs = c.mul(s);
            pairs.push((cs, g));
            proof {
                assert(pair_views_of(prev).len() == prev.len());
                assert(mv_scale(sv, s@).pairs.take(i as int).len() == i);
                assert(prev.len() == i);
                assert(pairs@ == prev.push((cs, g)));
                assert forall|k: int| 0 <= k < i + 1 implies #[trigger] pair_views_of(pairs@)[k]
                    == mv_scale(sv, s@).pairs.take(i + 1)[k] by {
                    if k < i {
                        assert(pair_views_of(prev)[k] == mv_scale(sv, s@).pairs.take(i as int)[k]);
                    } else {
                        assert(pairs@[k] == (cs, g));
                    }
                }
                assert(pair_views_of(pairs@) =~= mv_scale(sv, s@).pairs.take(i + 1));
            }
            i = i + 1;
        }
        let r = Msm { pairs, constant: self.constant.mul(s) };
        proof {
            assert(r@.pairs =~= mv_scale(sv, s@).pairs);
        }
        r
    }

    /// Collapses the combination against the generator `g`:
    /// `sum of coeff_i * base_i + constant * g`.
    pub fn evaluate(&self, g: EcPoint) -> (r: EcPoint)
        ensures
            r@ == mv_eval(self@, g@),
    {
        let ghost pv = pair_views_of(self.pairs@);
        let mut acc = Scalar::zero();
        let mut i: usize = 0;
        while i < self.pairs.len()
            invariant
                i <= self.pairs@.len(),
                pv == pair_views_of(self.pairs@),
                acc@ == mv_pairs_eval(pv.take(i as int)),
            decreases self.pairs@.len() - i,
        {
            let (c, b) = self.pairs[i];
            acc = acc.add(c.mul(Scalar::new(b.v)));
            proof {
                assert(pv.take(i + 1).drop_last() =~= pv.take(i as int));
            }
            i = i + 1;
        }
        proof {
            assert(pv.take(self.pairs@.len() as int) =~= pv);
        }
        let out = acc.add(self.constant.mul(Scalar::new(g.v)));
        EcPoint { v: out.v }
    }
}

} // verus!

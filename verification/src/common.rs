//! Evaluations of the common polynomials at the opening challenge.

use vstd::prelude::*;
use crate::field::{fsub, finv, has_inv, Scalar, P};
use crate::protocol::{lag_denom, lag_eval, zn_of, Domain};
use crate::expression::{lag_distinct, lag_keys, lag_map};
use crate::Error;

verus! {

/// `z^n`, `(z^n - 1)`, its inverse, and the Lagrange evaluations the
/// protocol needs, all at the opening challenge `z`.
pub struct CommonPolynomialEvaluation {
    pub z: Scalar,
    pub zn: Scalar,
    pub zn_minus_one: Scalar,
    pub zn_minus_one_inv: Scalar,
    pub lagranges: Vec<(i32, Scalar)>,
}

impl CommonPolynomialEvaluation {
    /// Whether every inversion this table needs exists.
    pub open spec fn ok(d: Domain, z: int, idxs: Seq<i32>) -> bool {
        &&& has_inv(fsub(zn_of(d, z), 1))
        &&& forall|j: int|
            0 <= j < idxs.len() ==> has_inv(lag_denom(d, z, (#[trigger] idxs[j]) as int))
    }

    /// Whether a built table is faithful to the domain at `z` over exactly
    /// the indices `idxs`.
    pub open spec fn wf(self, d: Domain, idxs: Seq<i32>) -> bool {
        &&& self.zn@ == zn_of(d, self.z@)
        &&& self.zn_minus_one@ == fsub(zn_of(d, self.z@), 1)
        &&& self.zn_minus_one_inv@ == finv(fsub(zn_of(d, self.z@), 1))
        &&& lag_distinct(self.lagranges@)
        &&& forall|k: int| lag_keys(self.lagranges@).contains(k) <==> exists|j: int|
            0 <= j < idxs.len() && (#[trigger] idxs[j]) as int == k
        &&& forall|k: int|
            lag_keys(self.lagranges@).contains(k) ==> #[trigger] lag_map(self.lagranges@)[k]
                == lag_eval(d, self.z@, k)
    }

    /// Computes the table, failing with `NonInvertible` exactly when one of
    /// the required inverses does not exist.
    pub fn new(domain: &Domain, langranges: &Vec<i32>, z: Scalar) -> (r: Result<
        CommonPolynomialEvaluation,
        Error,
    >)
        ensures
            r is Ok <==> Self::ok(*domain, z@, langranges@),
            r matches Ok(c) ==> c.wf(*domain, langranges@) && c.z@ == z@,
            r is Err ==> r == Result::<CommonPolynomialEvaluation, Error>::Err(
                Error::NonInvertible,
            ),
    {
        let zn = z.pow(domain.n);
        let one = Scalar::one();
        let zn_minus_one = zn.sub(one);
        let zn_minus_one_inv = match zn_minus_one.invert() {
            Some(s) => s,
            None => {
                return Err(Error::NonInvertible);
            },
        };
        let n_scalar = Scalar::new(domain.n % P);
        let mut lagranges: Vec<(i32, Scalar)> = Vec::new();
        let mut j: usize = 0;
        while j < langranges.len()
            invariant
                j <= langranges@.len(),
                zn@ == zn_of(*domain, z@),
                zn_minus_one@ == fsub(zn_of(*domain, z@), 1),
                n_scalar@ == (domain.n % P) as int,
                one@ == 1,
                lag_distinct(lagranges@),
                forall|k: int| lag_keys(lagranges@).contains(k) <==> exists|j2: int|
                    0 <= j2 < j && (#[trigger] langranges@[j2]) as int == k,
                forall|k: int|
                    lag_keys(lagranges@).contains(k) ==> #[trigger] lag_map(lagranges@)[k]
                        == lag_eval(*domain, z@, k),
                forall|j2: int|
                    0 <= j2 < j ==> has_inv(lag_denom(*domain, z@, (#[trigger] langranges@[j2]) as int)),
            decreases langranges@.len() - j,
        {
            let i = langranges[j];
            if crate::expression::lag_get(&lagranges, i).is_none() {
                let rot = crate::expression::Rotation::new(i);
                let omega_i = domain.rotate_scalar(one, rot);
                proof {
                    crate::protocol::lemma_omega_pow_bound(*domain, i as int);
                    assert(omega_i@ == crate::protocol::omega_pow(*domain, i as int));
                }
                let denom = n_scalar.mul(z.sub(omega_i));
                proof {
                    assert(denom@ == lag_denom(*domain, z@, i as int));
                }
                let denom_inv = match denom.invert() {
                    Some(s) => s,
                    None => {
                        proof {
                            assert(langranges@[j as int] == i);
                            assert(!Self::ok(*domain, z@, langranges@));
                        }
                        return Err(Error::NonInvertible);
                    },
                };
                let value = omega_i.mul(zn_minus_one).mul(denom_inv);
                proof {
                    assert(value@ == lag_eval(*domain, z@, i as int));
                }
                let ghost prev = lagranges@;
                lagranges.push((i, value));
                proof {
                    lemma_lag_push(prev, i, value);
                }
            } else {
                proof {
                    assert(lag_keys(lagranges@).contains(i as int));
                }
            }
            proof {
                assert forall|k: int| lag_keys(lagranges@).contains(k) implies exists|j2: int|
                    0 <= j2 < j + 1 && (#[trigger] langranges@[j2]) as int == k by {}
                assert forall|k: int|
                    (exists|j2: int| 0 <= j2 < j + 1 && (#[trigger] langranges@[j2]) as int == k)
                    implies lag_keys(lagranges@).contains(k) by {
                    let j2 = choose|j2: int|
                        0 <= j2 < j + 1 && (#[trigger] langranges@[j2]) as int == k;
                    if j2 == j {
                        assert(lag_keys(lagranges@).contains(langranges@[j as int] as int));
                    }
                }
            }
            j = j + 1;
        }
        let r = CommonPolynomialEvaluation { z, zn, zn_minus_one, zn_minus_one_inv, lagranges };
        proof {
            assert forall|j2: int|
                0 <= j2 < langranges@.len() implies has_inv(
                lag_denom(*domain, z@, (#[trigger] langranges@[j2]) as int),
            ) by {}
        }
        Ok(r)
    }
}

/// Pushing a fresh key extends the table map pointwise.
proof fn lemma_lag_push(prev: Seq<(i32, Scalar)>, i: i32, value: Scalar)
    requires
        lag_distinct(prev),
        !lag_keys(prev).contains(i as int),
    ensures
        lag_distinct(prev.push((i, value))),
        lag_keys(prev.push((i, value))) == lag_keys(prev).insert(i as int),
        forall|k: int|
            lag_keys(prev.push((i, value))).contains(k) ==> #[trigger] lag_map(
                prev.push((i, value)),
            )[k] == (if k == i as int {
                value@
            } else {
                lag_map(prev)[k]
            }),
{
    let t = prev.push((i, value));
    assert forall|j1: int, j2: int| 0 <= j1 < j2 < t.len() implies (#[trigger] t[j1]).0 != (
    #[trigger] t[j2]).0 by {
        if j2 == prev.len() {
            if t[j1].0 == i {
                assert(lag_keys(prev).contains(prev[j1].0 as int));
            }
        }
    }
    assert(lag_keys(t) =~= lag_keys(prev).insert(i as int)) by {
        assert forall|k: int| lag_keys(t).contains(k) implies lag_keys(prev).insert(
            i as int,
        ).contains(k) by {
            let j = choose|j: int| 0 <= j < t.len() && (#[trigger] t[j]).0 == k;
            if j < prev.len() {
                assert(lag_keys(prev).contains(prev[j].0 as int));
            }
        }
        assert forall|k: int| lag_keys(prev).insert(i as int).contains(k) implies lag_keys(
            t,
        ).contains(k) by {
            if k == i as int {
                assert(t[prev.len() as int].0 == i);
            } else {
                let j = choose|j: int| 0 <= j < prev.len() && (#[trigger] prev[j]).0 == k;
                assert(t[j].0 == k);
            }
        }
    }
    assert forall|k: int| lag_keys(t).contains(k) implies #[trigger] lag_map(t)[k] == (if k
        == i as int {
        value@
    } else {
        lag_map(prev)[k]
    }) by {
        let j = choose|j: int| 0 <= j < t.len() && (#[trigger] t[j]).0 == k;
        if k == i as int {
            if j < prev.len() {
                assert(lag_keys(prev).contains(prev[j].0 as int));
                assert(false);
            }
            assert(lag_map(t)[k] == t[j].1@);
        } else {
            assert(j < prev.len());
            assert(lag_keys(prev).contains(prev[j].0 as int));
            let j0 = choose|j0: int| 0 <= j0 < prev.len() && (#[trigger] prev[j0]).0 == k;
            assert(j0 == j);
            assert(lag_map(prev)[k] == prev[j].1@);
            assert(lag_map(t)[k] == t[j].1@);
        }
    }
}

} // verus!

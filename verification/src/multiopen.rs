//! The multi-open reduction: grouping queries into intermediate sets and
//! deriving their barycentric and vanishing coefficients.

use vstd::prelude::*;
use crate::expression::{Query, QueryV, Rotation};
use crate::field::{
    fadd, fmul, fneg, fpow, fsub, finv, fspc, fsum, has_inv, Scalar,
};
use crate::loader::NativeLoader;
use crate::protocol::{omega_pow, zp_minus_z_omega, Domain, Protocol};
use crate::Error;

verus! {

pub open spec fn q_views(s: Seq<Query>) -> Seq<QueryV> {
    Seq::new(s.len(), |i: int| s[i]@)
}

pub open spec fn rot_views(s: Seq<Rotation>) -> Seq<int> {
    Seq::new(s.len(), |i: int| s[i]@)
}

pub open spec fn poly_views(s: Seq<usize>) -> Seq<int> {
    Seq::new(s.len(), |i: int| s[i] as int)
}

// ---- Grouping queries by poly, in first-seen order ----

/// Whether some group already carries `poly`.
pub open spec fn has_poly(groups: Seq<(int, Seq<int>)>, poly: int) -> bool {
    exists|j: int| 0 <= j < groups.len() && (#[trigger] groups[j]).0 == poly
}

/// The index of the group carrying `poly` (unique when polys are distinct).
pub open spec fn idx_of_poly(groups: Seq<(int, Seq<int>)>, poly: int) -> int {
    choose|j: int| 0 <= j < groups.len() && (#[trigger] groups[j]).0 == poly
}

/// Folds one query into the per-poly rotation groups.
pub open spec fn add_query(groups: Seq<(int, Seq<int>)>, q: QueryV) -> Seq<(int, Seq<int>)> {
    if !has_poly(groups, q.poly) {
        groups.push((q.poly, seq![q.rotation]))
    } else {
        let j = idx_of_poly(groups, q.poly);
        if groups[j].1.contains(q.rotation) {
            groups
        } else {
            groups.update(j, (groups[j].0, groups[j].1.push(q.rotation)))
        }
    }
}

/// The per-poly rotation groups the query plan induces, polys in first-seen
/// order, rotations in first-seen order within each poly.
pub open spec fn groups_of(queries: Seq<QueryV>) -> Seq<(int, Seq<int>)>
    decreases queries.len(),
{
    if queries.len() == 0 {
        Seq::empty()
    } else {
        add_query(groups_of(queries.drop_last()), queries.last())
    }
}

/// Grouping keeps polys distinct and rotation lists nonempty and distinct.
pub proof fn lemma_groups_wf(queries: Seq<QueryV>)
    ensures
        forall|j1: int, j2: int|
            0 <= j1 < j2 < groups_of(queries).len() ==> (#[trigger] groups_of(queries)[j1]).0 != (
            #[trigger] groups_of(queries)[j2]).0,
        forall|j: int|
            0 <= j < groups_of(queries).len() ==> 1 <= (#[trigger] groups_of(queries)[j]).1.len(),
    decreases queries.len(),
{
    if queries.len() > 0 {
        lemma_groups_wf(queries.drop_last());
        let g = groups_of(queries.drop_last());
        let q = queries.last();
        if has_poly(g, q.poly) {
            let j = idx_of_poly(g, q.poly);
            assert(0 <= j < g.len() && g[j].0 == q.poly);
        }
    }
}

// ---- Merging groups with equal rotation sets into intermediate sets ----

/// Whether some set already carries the rotation set `rs`.
pub open spec fn has_rotset(sets: Seq<(Seq<int>, Seq<int>)>, rs: Set<int>) -> bool {
    exists|j: int| 0 <= j < sets.len() && (#[trigger] sets[j]).1.to_set() == rs
}

/// The index of the set carrying `rs` (unique when rotation sets are
/// distinct).
pub open spec fn idx_of_rotset(sets: Seq<(Seq<int>, Seq<int>)>, rs: Set<int>) -> int {
    choose|j: int| 0 <= j < sets.len() && (#[trigger] sets[j]).1.to_set() == rs
}

/// Folds one group into the intermediate sets.
pub open spec fn add_group(sets: Seq<(Seq<int>, Seq<int>)>, g: (int, Seq<int>)) -> Seq<
    (Seq<int>, Seq<int>),
> {
    if !has_rotset(sets, g.1.to_set()) {
        sets.push((seq![g.0], g.1))
    } else {
        let j = idx_of_rotset(sets, g.1.to_set());
        if sets[j].0.contains(g.0) {
            sets
        } else {
            sets.update(j, (sets[j].0.push(g.0), sets[j].1))
        }
    }
}

/// The intermediate sets a group list induces, in first-encounter order.
pub open spec fn sets_from(groups: Seq<(int, Seq<int>)>) -> Seq<(Seq<int>, Seq<int>)>
    decreases groups.len(),
{
    if groups.len() == 0 {
        Seq::empty()
    } else {
        add_group(sets_from(groups.drop_last()), groups.last())
    }
}

/// The intermediate sets of a query plan.
pub open spec fn sets_of(queries: Seq<QueryV>) -> Seq<(Seq<int>, Seq<int>)> {
    sets_from(groups_of(queries))
}

/// Set building keeps rotation sets distinct, and polys and rotations
/// nonempty.
pub proof fn lemma_sets_wf(groups: Seq<(int, Seq<int>)>)
    requires
        forall|j: int| 0 <= j < groups.len() ==> 1 <= (#[trigger] groups[j]).1.len(),
    ensures
        forall|j1: int, j2: int|
            0 <= j1 < j2 < sets_from(groups).len() ==> (#[trigger] sets_from(groups)[j1]).1.to_set()
                != (#[trigger] sets_from(groups)[j2]).1.to_set(),
        forall|j: int|
            0 <= j < sets_from(groups).len() ==> 1 <= (#[trigger] sets_from(groups)[j]).0.len()
                && 1 <= sets_from(groups)[j].1.len(),
    decreases groups.len(),
{
    if groups.len() > 0 {
        assert(forall|j: int|
            0 <= j < groups.drop_last().len() ==> 1 <= (#[trigger] groups.drop_last()[j]).1.len());
        lemma_sets_wf(groups.drop_last());
        let s = sets_from(groups.drop_last());
        let g = groups.last();
        if has_rotset(s, g.1.to_set()) {
            let j = idx_of_rotset(s, g.1.to_set());
            assert(0 <= j < s.len() && s[j].1.to_set() == g.1.to_set());
        }
    }
}

// ---- The scalar layer of one intermediate set ----

/// The mathematical value of an intermediate set.
pub ghost struct SetV {
    pub polys: Seq<int>,
    pub rotations: Seq<int>,
    pub z_s: int,
    pub commitment_coeff: Option<int>,
    pub evaluation_coeffs: Seq<int>,
    pub remainder_coeff: int,
}

/// `prod over i < k, i != j, of (omega_j - omega_i)` over the listed
/// rotations.
pub open spec fn prod_skip(om: Seq<int>, j: int, k: nat) -> int
    decreases k,
{
    if k == 0 {
        1
    } else if k - 1 == j {
        prod_skip(om, j, (k - 1) as nat)
    } else {
        fmul(prod_skip(om, j, (k - 1) as nat), fsub(om[j], om[k - 1]))
    }
}

/// The omegas of a rotation list.
pub open spec fn omegas_of(d: Domain, rots: Seq<int>) -> Seq<int> {
    Seq::new(rots.len(), |j: int| omega_pow(d, rots[j]))
}

/// The fused value the barycentric weight inverts:
/// `ell'_j * z^(k-1) * z' - ell'_j * omega_j * z^(k-1) * z`.
pub open spec fn weight_pre(d: Domain, z: int, zp: int, rots: Seq<int>, j: int) -> int {
    let om = omegas_of(d, rots);
    let ell = prod_skip(om, j, rots.len() as nat);
    let zk = fpow(z, (rots.len() - 1) as nat);
    fspc(seq![(ell, zk, zp), (fneg(fmul(ell, om[j])), zk, z)], 0)
}

/// The vanishing product of the first `k` rotations:
/// `prod of (z' - z * omega^r)`.
pub open spec fn zs_prod(d: Domain, z: int, zp: int, rots: Seq<int>, k: nat) -> int
    decreases k,
{
    if k == 0 {
        1
    } else {
        fmul(zs_prod(d, z, zp, rots, (k - 1) as nat), zp_minus_z_omega(d, z, zp, rots[k - 1]))
    }
}

/// The barycentric weights of a rotation list.
pub open spec fn weights_of(d: Domain, z: int, zp: int, rots: Seq<int>) -> Seq<int> {
    Seq::new(rots.len(), |j: int| finv(weight_pre(d, z, zp, rots, j)))
}

/// Whether every inversion this set needs exists.  The first set never
/// divides by its own vanishing product.
pub open spec fn set_ok(d: Domain, z: int, zp: int, rots: Seq<int>, first: bool) -> bool {
    &&& forall|j: int| 0 <= j < rots.len() ==> has_inv(#[trigger] weight_pre(d, z, zp, rots, j))
    &&& has_inv(fsum(weights_of(d, z, zp, rots)))
    &&& (!first ==> has_inv(zs_prod(d, z, zp, rots, rots.len() as nat)))
}

/// The scalar content of one intermediate set, meaningful under `set_ok`.
pub open spec fn set_model(
    d: Domain,
    z: int,
    zp: int,
    polys: Seq<int>,
    rots: Seq<int>,
    zs1: Option<int>,
) -> SetV {
    let z_s = zs_prod(d, z, zp, rots, rots.len() as nat);
    let coeffs = weights_of(d, z, zp, rots);
    let cc = match zs1 {
        Some(v) => Some(fmul(v, finv(z_s))),
        None => None,
    };
    let rc = match cc {
        Some(c) => fmul(c, finv(fsum(coeffs))),
        None => finv(fsum(coeffs)),
    };
    SetV {
        polys,
        rotations: rots,
        z_s,
        commitment_coeff: cc,
        evaluation_coeffs: coeffs,
        remainder_coeff: rc,
    }
}

/// The models of all intermediate sets of a plan, the first one supplying
/// the reference vanishing product.
pub open spec fn sets_models(d: Domain, z: int, zp: int, structs: Seq<(Seq<int>, Seq<int>)>) -> Seq<
    SetV,
> {
    Seq::new(
        structs.len(),
        |s: int|
            set_model(
                d,
                z,
                zp,
                structs[s].0,
                structs[s].1,
                if s == 0 {
                    None
                } else {
                    Some(zs_prod(d, z, zp, structs[0].1, structs[0].1.len() as nat))
                },
            ),
    )
}

/// Whether every set of the plan can be built.
pub open spec fn sets_ok(d: Domain, z: int, zp: int, structs: Seq<(Seq<int>, Seq<int>)>) -> bool {
    forall|s: int|
        0 <= s < structs.len() ==> set_ok(d, z, zp, (#[trigger] structs[s]).1, s == 0)
}

/// One intermediate set: the polys sharing a rotation set, and the scalars
/// of the multi-open reduction over that set.
pub struct IntermediateSet {
    pub polys: Vec<usize>,
    pub rotations: Vec<Rotation>,
    pub z_s: Scalar,
    pub commitment_coeff: Option<Scalar>,
    pub evaluation_coeffs: Vec<Scalar>,
    pub remainder_coeff: Scalar,
}

impl View for IntermediateSet {
    type V = SetV;

    open spec fn view(&self) -> SetV {
        SetV {
            polys: poly_views(self.polys@),
            rotations: rot_views(self.rotations@),
            z_s: self.z_s@,
            commitment_coeff: match self.commitment_coeff {
                Some(c) => Some(c@),
                None => None,
            },
            evaluation_coeffs: crate::field::views_of(self.evaluation_coeffs@),
            remainder_coeff: self.remainder_coeff@,
        }
    }
}

impl IntermediateSet {
    /// Builds the scalar content for one rotation list; the caller fills
    /// `polys` in.  Fails with `NonInvertible` exactly when one of the
    /// required inverses does not exist.
    pub fn new(
        domain: &Domain,
        loader: &NativeLoader,
        rotations: Vec<Rotation>,
        z: &Scalar,
        z_prime: &Scalar,
        z_s_1: &Option<Scalar>,
    ) -> (r: Result<IntermediateSet, Error>)
        requires
            rotations@.len() >= 1,
        ensures
            r is Ok <==> set_ok(*domain, z@, z_prime@, rot_views(rotations@), z_s_1 is None),
            r matches Ok(s) ==> s@ == set_model(
                *domain,
                z@,
                z_prime@,
                Seq::empty(),
                rot_views(rotations@),
                match z_s_1 {
                    Some(v) => Some(v@),
                    None => None,
                },
            ),
            r is Err ==> r == Result::<IntermediateSet, Error>::Err(Error::NonInvertible),
    {
        let ghost d = *domain;
        let ghost rv = rot_views(rotations@);
        let k = rotations.len();
        let one = loader.load_one();

        // omega^r for each listed rotation.
        let mut omegas: Vec<Scalar> = Vec::new();
        let mut j: usize = 0;
        while j < k
            invariant
                j <= k,
                k == rotations@.len(),
                rv == rot_views(rotations@),
                one@ == 1,
                omegas@.len() == j,
                forall|i: int|
                    0 <= i < j ==> (#[trigger] omegas@[i])@ == omega_pow(d, rv[i]),
                d == *domain,
            decreases k - j,
        {
            let om = domain.rotate_scalar(one, rotations[j]);
            proof {
                crate::protocol::lemma_omega_pow_bound(d, rv[j as int]);
            }
            omegas.push(om);
            j = j + 1;
        }
        let ghost omv = omegas_of(d, rv);
        proof {
            assert(crate::field::views_of(omegas@) =~= omv);
        }

        // Normalized ell-prime values.
        let mut ells: Vec<Scalar> = Vec::new();
        let mut j: usize = 0;
        while j < k
            invariant
                j <= k,
                k == rotations@.len(),
                omegas@.len() == k,
                forall|i: int| 0 <= i < k ==> (#[trigger] omegas@[i])@ == omv[i],
                omv == omegas_of(d, rv),
                rv == rot_views(rotations@),
                ells@.len() == j,
                forall|i: int|
                    0 <= i < j ==> (#[trigger] ells@[i])@ == prod_skip(omv, i, k as nat),
            decreases k - j,
        {
            let mut acc = Scalar::one();
            let mut i: usize = 0;
            while i < k
                invariant
                    i <= k,
                    j < k,
                    k == rotations@.len(),
                    omegas@.len() == k,
                    forall|i2: int| 0 <= i2 < k ==> (#[trigger] omegas@[i2])@ == omv[i2],
                    acc@ == prod_skip(omv, j as int, i as nat),
                decreases k - i,
            {
                if i != j {
                    acc = acc.mul(omegas[j].sub(omegas[i]));
                }
                i = i + 1;
            }
            ells.push(acc);
            j = j + 1;
        }

        // z^(k-1) by plain exponentiation.
        let z_pow_k_minus_one = z.pow((k - 1) as u64);

        // Barycentric weights.
        let mut weights: Vec<Scalar> = Vec::new();
        let mut j: usize = 0;
        while j < k
            invariant
                j <= k,
                k == rotations@.len(),
                k >= 1,
                omegas@.len() == k,
                ells@.len() == k,
                forall|i: int| 0 <= i < k ==> (#[trigger] omegas@[i])@ == omv[i],
                forall|i: int| 0 <= i < k ==> (#[trigger] ells@[i])@ == prod_skip(omv, i, k as nat),
                omv == omegas_of(d, rv),
                rv == rot_views(rotations@),
                d == *domain,
                z_pow_k_minus_one@ == fpow(z@, (k - 1) as nat),
                weights@.len() == j,
                forall|i: int|
                    0 <= i < j ==> (#[trigger] weights@[i])@ == finv(weight_pre(d, z@, z_prime@, rv, i)),
                forall|i: int| 0 <= i < j ==> has_inv(#[trigger] weight_pre(d, z@, z_prime@, rv, i)),
            decreases k - j,
        {
            let ell = ells[j];
            let om = omegas[j];
            let mut terms: Vec<(Scalar, Scalar, Scalar)> = Vec::new();
            terms.push((ell, z_pow_k_minus_one, *z_prime));
            terms.push((ell.mul(om).neg(), z_pow_k_minus_one, *z));
            let pre = crate::field::sum_products_with_coeff_and_constant(&terms, Scalar::zero());
            proof {
                let tv = crate::field::triple_views_of(terms@);
                let sv = seq![
                    (ell@, z_pow_k_minus_one@, z_prime@),
                    (fneg(fmul(ell@, om@)), z_pow_k_minus_one@, z@),
                ];
                assert(tv =~= sv);
                assert(pre@ == weight_pre(d, z@, z_prime@, rv, j as int));
            }
            let wj = match pre.invert() {
                Some(s) => s,
                None => {
                    proof {
                        assert(!set_ok(d, z@, z_prime@, rv, z_s_1 is None));
                    }
                    return Err(Error::NonInvertible);
                },
            };
            weights.push(wj);
            j = j + 1;
        }

        // The vanishing product of the set.
        let mut z_s = Scalar::one();
        let mut j: usize = 0;
        while j < k
            invariant
                j <= k,
                k == rotations@.len(),
                rv == rot_views(rotations@),
                d == *domain,
                z_s@ == zs_prod(d, z@, z_prime@, rv, j as nat),
            decreases k - j,
        {
            proof {
                crate::protocol::lemma_omega_pow_bound(d, rv[j as int]);
            }
            let om = domain.rotate_scalar(Scalar::one(), rotations[j]);
            z_s = z_s.mul(z_prime.sub(z.mul(om)));
            j = j + 1;
        }

        // The commitment coefficient, for every set but the first.
        let commitment_coeff = match z_s_1 {
            Some(zs1) => {
                let inv = match z_s.invert() {
                    Some(s) => s,
                    None => {
                        proof {
                            assert(!set_ok(d, z@, z_prime@, rv, z_s_1 is None));
                        }
                        return Err(Error::NonInvertible);
                    },
                };
                Some(zs1.mul(inv))
            },
            None => None,
        };

        // The remainder coefficient.
        let wsum = crate::field::scalar_sum(&weights);
        proof {
            assert(crate::field::views_of(weights@) =~= weights_of(d, z@, z_prime@, rv));
        }
        let wsum_inv = match wsum.invert() {
            Some(s) => s,
            None => {
                proof {
                    assert(!set_ok(d, z@, z_prime@, rv, z_s_1 is None));
                }
                return Err(Error::NonInvertible);
            },
        };
        let remainder_coeff = match &commitment_coeff {
            Some(c) => c.mul(wsum_inv),
            None => wsum_inv,
        };

        let r = IntermediateSet {
            polys: Vec::new(),
            rotations,
            z_s,
            commitment_coeff,
            evaluation_coeffs: weights,
            remainder_coeff,
        };
        proof {
            assert(poly_views(r.polys@) =~= Seq::<int>::empty());
            assert(rot_views(r.rotations@) == rv);
            assert(crate::field::views_of(r.evaluation_coeffs@) =~= weights_of(
                d,
                z@,
                z_prime@,
                rv,
            ));
            assert(r@ == set_model(
                d,
                z@,
                z_prime@,
                Seq::empty(),
                rv,
                match z_s_1 {
                    Some(v) => Some(v@),
                    None => None,
                },
            ));
        }
        Ok(r)
    }
}

/// The views of an exec group list.
pub open spec fn group_views(g: Seq<(usize, Vec<Rotation>)>) -> Seq<(int, Seq<int>)> {
    Seq::new(g.len(), |i: int| ((g[i].0 as int, rot_views(g[i].1@))))
}

/// The combinatorial shape of a list of intermediate sets.
pub open spec fn set_struct_views(s: Seq<IntermediateSet>) -> Seq<(Seq<int>, Seq<int>)> {
    Seq::new(s.len(), |i: int| ((s[i]@.polys, s[i]@.rotations)))
}

/// The full views of a list of intermediate sets.
pub open spec fn set_views(s: Seq<IntermediateSet>) -> Seq<SetV> {
    Seq::new(s.len(), |i: int| s[i]@)
}

fn rot_contains(v: &Vec<Rotation>, r: Rotation) -> (b: bool)
    ensures
        b <==> rot_views(v@).contains(r@),
{
    let mut i: usize = 0;
    while i < v.len()
        invariant
            i <= v@.len(),
            forall|j: int| 0 <= j < i ==> rot_views(v@)[j] != r@,
        decreases v@.len() - i,
    {
        if v[i].value == r.value {
            proof {
                assert(rot_views(v@)[i as int] == r@);
            }
            return true;
        }
        i = i + 1;
    }
    proof {
        assert forall|j: int| 0 <= j < rot_views(v@).len() implies rot_views(v@)[j] != r@ by {}
    }
    false
}

fn poly_contains(v: &Vec<usize>, x: usize) -> (b: bool)
    ensures
        b <==> poly_views(v@).contains(x as int),
{
    let mut i: usize = 0;
    while i < v.len()
        invariant
            i <= v@.len(),
            forall|j: int| 0 <= j < i ==> poly_views(v@)[j] != x,
        decreases v@.len() - i,
    {
        if v[i] == x {
            proof {
                assert(poly_views(v@)[i as int] == x as int);
            }
            return true;
        }
        i = i + 1;
    }
    false
}

/// Whether two rotation lists carry the same set of rotations.
fn same_rot_set(a: &Vec<Rotation>, b: &Vec<Rotation>) -> (r: bool)
    ensures
        r <==> rot_views(a@).to_set() == rot_views(b@).to_set(),
{
    let mut i: usize = 0;
    while i < a.len()
        invariant
            i <= a@.len(),
            forall|j: int|
                0 <= j < i ==> rot_views(b@).to_set().contains(#[trigger] rot_views(a@)[j]),
        decreases a@.len() - i,
    {
        if !rot_contains(b, a[i]) {
            proof {
                assert(rot_views(a@).to_set().contains(rot_views(a@)[i as int]));
            }
            return false;
        }
        i = i + 1;
    }
    let mut i: usize = 0;
    while i < b.len()
        invariant
            i <= b@.len(),
            forall|j: int|
                0 <= j < a@.len() ==> rot_views(b@).to_set().contains(#[trigger] rot_views(a@)[j]),
            forall|j: int|
                0 <= j < i ==> rot_views(a@).to_set().contains(#[trigger] rot_views(b@)[j]),
        decreases b@.len() - i,
    {
        if !rot_contains(a, b[i]) {
            proof {
                assert(rot_views(b@).to_set().contains(rot_views(b@)[i as int]));
            }
            return false;
        }
        i = i + 1;
    }
    proof {
        assert(rot_views(a@).to_set() =~= rot_views(b@).to_set()) by {
            assert forall|x: int| rot_views(a@).to_set().contains(x) implies rot_views(
                b@,
            ).to_set().contains(x) by {
                let j = choose|j: int| 0 <= j < rot_views(a@).len() && rot_views(a@)[j] == x;
                assert(rot_views(b@).to_set().contains(rot_views(a@)[j]));
            }
            assert forall|x: int| rot_views(b@).to_set().contains(x) implies rot_views(
                a@,
            ).to_set().contains(x) by {
                let j = choose|j: int| 0 <= j < rot_views(b@).len() && rot_views(b@)[j] == x;
                assert(rot_views(a@).to_set().contains(rot_views(b@)[j]));
            }
        }
    }
    true
}

fn copy_rotations(v: &Vec<Rotation>) -> (r: Vec<Rotation>)
    ensures
        r@ == v@,
{
    let mut r: Vec<Rotation> = Vec::new();
    let mut i: usize = 0;
    while i < v.len()
        invariant
            i <= v@.len(),
            r@ == v@.take(i as int),
        decreases v@.len() - i,
    {
        r.push(v[i]);
        proof {
            assert(r@ =~= v@.take(i + 1));
        }
        i = i + 1;
    }
    proof {
        assert(v@.take(v@.len() as int) =~= v@);
    }
    r
}

/// Later groups never disturb the shape of the sets already built: lengths
/// grow, rotations at a fixed index stay, and existing first polys stay.
pub proof fn lemma_sets_stable(groups: Seq<(int, Seq<int>)>, i: int)
    requires
        0 <= i <= groups.len(),
    ensures
        sets_from(groups.take(i)).len() <= sets_from(groups).len(),
        forall|s: int|
            0 <= s < sets_from(groups.take(i)).len() ==> (#[trigger] sets_from(groups)[s]).1
                == sets_from(groups.take(i))[s].1,
    decreases groups.len() - i,
{
    if i == groups.len() {
        assert(groups.take(i) =~= groups);
    } else {
        assert(groups.take(i + 1).drop_last() =~= groups.take(i));
        lemma_sets_stable(groups, i + 1);
        let prev = sets_from(groups.take(i));
        let g = groups.take(i + 1).last();
        if has_rotset(prev, g.1.to_set()) {
            let j = idx_of_rotset(prev, g.1.to_set());
            assert(0 <= j < prev.len() && prev[j].1.to_set() == g.1.to_set());
        }
    }
}


/// Pushing a freshly built set extends both the shapes and the models.
#[verifier::rlimit(60)]
pub proof fn lemma_sets_push_model(
    d: Domain,
    z: int,
    zp: int,
    structs: Seq<(Seq<int>, Seq<int>)>,
    g: (int, Seq<int>),
    before: Seq<IntermediateSet>,
    s: IntermediateSet,
    after: Seq<IntermediateSet>,
)
    requires
        set_struct_views(before) == structs,
        set_views(before) == sets_models(d, z, zp, structs),
        !has_rotset(structs, g.1.to_set()),
        after == before.push(s),
        s@ == set_model(
            d,
            z,
            zp,
            seq![g.0],
            g.1,
            if structs.len() == 0 {
                None
            } else {
                Some(zs_prod(d, z, zp, structs[0].1, structs[0].1.len() as nat))
            },
        ),
    ensures
        set_struct_views(after) == add_group(structs, g),
        set_views(after) == sets_models(d, z, zp, add_group(structs, g)),
{
    let goal_s = add_group(structs, g);
    let goal_m = sets_models(d, z, zp, goal_s);
    assert(goal_s == structs.push((seq![g.0], g.1)));
    assert forall|k: int| 0 <= k < after.len() implies #[trigger] set_struct_views(after)[k]
        == goal_s[k] by {
        if k < before.len() {
            assert(after[k] == before[k]);
            assert(set_struct_views(before)[k] == structs[k]);
        } else {
            assert(after[k] == s);
        }
    }
    assert(set_struct_views(after) =~~= goal_s);
    assert forall|k: int| 0 <= k < after.len() implies #[trigger] set_views(after)[k] == goal_m[k]
        by {
        assert(goal_m[k] == sets_models(d, z, zp, goal_s)[k]);
        assert(set_views(after)[k] == after[k]@);
        assert(sets_models(d, z, zp, goal_s)[k] == set_model(
            d,
            z,
            zp,
            goal_s[k].0,
            goal_s[k].1,
            if k == 0 {
                None
            } else {
                Some(zs_prod(d, z, zp, goal_s[0].1, goal_s[0].1.len() as nat))
            },
        ));
        if 0 <= k < structs.len() {
            assert(sets_models(d, z, zp, structs)[k] == set_model(
                d,
                z,
                zp,
                structs[k].0,
                structs[k].1,
                if k == 0 {
                    None
                } else {
                    Some(zs_prod(d, z, zp, structs[0].1, structs[0].1.len() as nat))
                },
            ));
        }
        if structs.len() > 0 {
            assert(goal_s[0] == structs[0]);
        }
        if k < before.len() {
            assert(after[k] == before[k]);
            assert(set_views(before)[k] == sets_models(d, z, zp, structs)[k]);
            assert(goal_s[k] == structs[k]);
        } else {
            assert(after[k] == s);
            assert(goal_s[k] == (seq![g.0], g.1));
        }
    }
    assert(set_views(after) =~~= goal_m);
}

/// Merging a poly into an existing set updates both the shapes and the
/// models pointwise.
#[verifier::rlimit(60)]
pub proof fn lemma_sets_update_model(
    d: Domain,
    z: int,
    zp: int,
    structs: Seq<(Seq<int>, Seq<int>)>,
    g: (int, Seq<int>),
    j: int,
    before: Seq<IntermediateSet>,
    e: IntermediateSet,
    after: Seq<IntermediateSet>,
)
    requires
        set_struct_views(before) == structs,
        set_views(before) == sets_models(d, z, zp, structs),
        forall|j1: int, j2: int|
            0 <= j1 < j2 < structs.len() ==> (#[trigger] structs[j1]).1.to_set() != (
            #[trigger] structs[j2]).1.to_set(),
        0 <= j < structs.len(),
        structs[j].1.to_set() == g.1.to_set(),
        !structs[j].0.contains(g.0),
        after == before.update(j, e),
        e@.polys == structs[j].0.push(g.0),
        e@.rotations == before[j]@.rotations,
        e@.z_s == before[j]@.z_s,
        e@.commitment_coeff == before[j]@.commitment_coeff,
        e@.evaluation_coeffs == before[j]@.evaluation_coeffs,
        e@.remainder_coeff == before[j]@.remainder_coeff,
    ensures
        set_struct_views(after) == add_group(structs, g),
        set_views(after) == sets_models(d, z, zp, add_group(structs, g)),
{
    let goal_s = add_group(structs, g);
    let goal_m = sets_models(d, z, zp, goal_s);
    assert(has_rotset(structs, g.1.to_set()));
    let j2 = idx_of_rotset(structs, g.1.to_set());
    assert(0 <= j2 < structs.len() && structs[j2].1.to_set() == g.1.to_set());
    assert(j2 == j);
    assert(goal_s == structs.update(j, (structs[j].0.push(g.0), structs[j].1)));
    assert(sets_models(d, z, zp, structs)[j] == set_model(
        d,
        z,
        zp,
        structs[j].0,
        structs[j].1,
        if j == 0 {
            None
        } else {
            Some(zs_prod(d, z, zp, structs[0].1, structs[0].1.len() as nat))
        },
    ));
    assert forall|k: int| 0 <= k < after.len() implies #[trigger] set_struct_views(after)[k]
        == goal_s[k] by {
        if k != j {
            assert(after[k] == before[k]);
            assert(set_struct_views(before)[k] == structs[k]);
        } else {
            assert(after[k] == e);
            assert(set_struct_views(before)[j] == structs[j]);
        }
    }
    assert(set_struct_views(after) =~~= goal_s);
    assert(goal_s.len() == structs.len());
    assert forall|k: int| 0 <= k < after.len() implies #[trigger] set_views(after)[k] == goal_m[k]
        by {
        assert(goal_m[k] == sets_models(d, z, zp, goal_s)[k]);
        assert(set_views(after)[k] == after[k]@);
        assert(sets_models(d, z, zp, goal_s)[k] == set_model(
            d,
            z,
            zp,
            goal_s[k].0,
            goal_s[k].1,
            if k == 0 {
                None
            } else {
                Some(zs_prod(d, z, zp, goal_s[0].1, goal_s[0].1.len() as nat))
            },
        ));
        if 0 <= k < structs.len() {
            assert(sets_models(d, z, zp, structs)[k] == set_model(
                d,
                z,
                zp,
                structs[k].0,
                structs[k].1,
                if k == 0 {
                    None
                } else {
                    Some(zs_prod(d, z, zp, structs[0].1, structs[0].1.len() as nat))
                },
            ));
        }
        assert(goal_s[0].1 == structs[0].1);
        if k != j {
            assert(after[k] == before[k]);
            assert(set_views(before)[k] == sets_models(d, z, zp, structs)[k]);
            assert(goal_s[k] == structs[k]);
        } else {
            assert(after[k] == e);
            assert(set_views(before)[j] == sets_models(d, z, zp, structs)[j]);
            assert(goal_s[j] == (structs[j].0.push(g.0), structs[j].1));
            assert(before[j]@ == set_model(
                d,
                z,
                zp,
                structs[j].0,
                structs[j].1,
                if j == 0 {
                    None
                } else {
                    Some(zs_prod(d, z, zp, structs[0].1, structs[0].1.len() as nat))
                },
            ));
        }
    }
    assert(set_views(after) =~~= goal_m);
}

/// Groups the protocol's queries and builds one intermediate set per
/// distinct rotation set, in first-encounter order.  Fails with
/// `NonInvertible` exactly when some set's construction would divide by
/// zero.
#[verifier::rlimit(100)]
pub fn intermediate_sets(
    protocol: &Protocol,
    loader: &NativeLoader,
    z: &Scalar,
    z_prime: &Scalar,
) -> (r: Result<Vec<IntermediateSet>, Error>)
    ensures
        r is Ok <==> sets_ok(
            protocol.domain,
            z@,
            z_prime@,
            sets_of(q_views(protocol.queries@)),
        ),
        r matches Ok(v) ==> set_views(v@) == sets_models(
            protocol.domain,
            z@,
            z_prime@,
            sets_of(q_views(protocol.queries@)),
        ) && set_struct_views(v@) == sets_of(q_views(protocol.queries@)),
        r is Err ==> r == Result::<Vec<IntermediateSet>, Error>::Err(Error::NonInvertible),
{
    let ghost d = protocol.domain;
    let ghost qv = q_views(protocol.queries@);

    // Group queries by poly, first-seen order both ways.
    let mut groups: Vec<(usize, Vec<Rotation>)> = Vec::new();
    let mut qi: usize = 0;
    while qi < protocol.queries.len()
        invariant
            qi <= protocol.queries@.len(),
            qv == q_views(protocol.queries@),
            group_views(groups@) == groups_of(qv.take(qi as int)),
        decreases protocol.queries@.len() - qi,
    {
        proof {
            lemma_groups_wf(qv.take(qi as int));
            assert(qv.take(qi + 1).drop_last() =~= qv.take(qi as int));
            assert(qv.take(qi + 1).last() == qv[qi as int]);
        }
        let q = protocol.queries[qi];
        let ghost gv = group_views(groups@);
        // Scan for the group of this poly.
        let mut j: usize = 0;
        let mut found: bool = false;
        while j < groups.len() && !found
            invariant
                j <= groups@.len(),
                gv == group_views(groups@),
                !found ==> forall|j2: int| 0 <= j2 < j ==> (#[trigger] gv[j2]).0 != q.poly as int,
                found ==> j < groups@.len() && gv[j as int].0 == q.poly as int,
            decreases groups@.len() - j + (if found {
                0int
            } else {
                1int
            }),
        {
            if groups[j].0 == q.poly {
                found = true;
                proof {
                    assert(gv[j as int].0 == q.poly as int);
                }
            } else {
                j = j + 1;
            }
        }
        if found {
            proof {
                assert(has_poly(gv, q@.poly));
                let j2 = idx_of_poly(gv, q@.poly);
                assert(0 <= j2 < gv.len() && gv[j2].0 == q@.poly);
                assert(j2 == j as int);
            }
            let ghost g0 = groups@;
            let mut e = groups.remove(j);
            let ghost e0 = e;
            let had = rot_contains(&e.1, q.rotation);
            if !had {
                e.1.push(q.rotation);
                proof {
                    assert(rot_views(e.1@) =~= rot_views(e0.1@).push(q@.rotation));
                }
            }
            groups.insert(j, e);
            proof {
                assert(groups@ =~= g0.update(j as int, e));
                let goal = add_query(gv, qv[qi as int]);
                assert(goal.len() == gv.len());
                assert forall|k: int| 0 <= k < groups@.len() implies #[trigger] group_views(
                    groups@,
                )[k] == goal[k] by {
                    if k != j as int {
                        assert(groups@[k] == g0[k]);
                    } else {
                        assert(groups@[k] == e);
                    }
                }
                assert(group_views(groups@) =~~= goal);
            }
        } else {
            proof {
                assert(!has_poly(gv, q@.poly)) by {
                    if has_poly(gv, q@.poly) {
                        let j2 = idx_of_poly(gv, q@.poly);
                        assert(0 <= j2 < gv.len() && gv[j2].0 == q@.poly);
                    }
                }
            }
            let mut rots: Vec<Rotation> = Vec::new();
            rots.push(q.rotation);
            let ghost rv0 = rot_views(rots@);
            let ghost g0 = groups@;
            groups.push((q.poly, rots));
            proof {
                assert(rv0 =~= seq![q@.rotation]);
                let goal = add_query(gv, qv[qi as int]);
                assert forall|k: int| 0 <= k < groups@.len() implies #[trigger] group_views(
                    groups@,
                )[k] == goal[k] by {
                    if k < g0.len() {
                        assert(groups@[k] == g0[k]);
                    }
                }
                assert(group_views(groups@) =~~= goal);
            }
        }
        qi = qi + 1;
    }
    proof {
        assert(qv.take(qv.len() as int) =~= qv);
    }
    let ghost gvs = group_views(groups@);

    // Merge groups into intermediate sets.
    let mut sets: Vec<IntermediateSet> = Vec::new();
    let mut z_s_1: Option<Scalar> = None;
    let mut gi: usize = 0;
    while gi < groups.len()
        invariant
            gi <= groups@.len(),
            gvs == group_views(groups@),
            gvs == groups_of(qv),
            qv == q_views(protocol.queries@),
            d == protocol.domain,
            set_struct_views(sets@) == sets_from(gvs.take(gi as int)),
            set_views(sets@) == sets_models(d, z@, z_prime@, sets_from(gvs.take(gi as int))),
            forall|s: int|
                0 <= s < sets@.len() ==> set_ok(
                    d,
                    z@,
                    z_prime@,
                    (#[trigger] sets@[s])@.rotations,
                    s == 0,
                ),
            sets@.len() == 0 <==> z_s_1 is None,
            sets@.len() > 0 ==> (z_s_1 matches Some(v) && v@ == sets@[0]@.z_s),
        decreases groups@.len() - gi,
    {
        proof {
            lemma_groups_wf(qv);
            lemma_sets_wf(gvs);
            lemma_sets_wf(gvs.take(gi as int));
            assert(gvs.take(gi + 1).drop_last() =~= gvs.take(gi as int));
            assert(gvs.take(gi + 1).last() == gvs[gi as int]);
        }
        let ghost sv = set_struct_views(sets@);
        let ghost g = gvs[gi as int];
        let poly = groups[gi].0;
        // Scan for a set with this rotation set.
        let mut j: usize = 0;
        let mut found: bool = false;
        while j < sets.len() && !found
            invariant
                j <= sets@.len(),
                sv == set_struct_views(sets@),
                gi < groups@.len(),
                g == gvs[gi as int],
                gvs == group_views(groups@),
                !found ==> forall|j2: int|
                    0 <= j2 < j ==> (#[trigger] sv[j2]).1.to_set() != g.1.to_set(),
                found ==> j < sets@.len() && sv[j as int].1.to_set() == g.1.to_set(),
            decreases sets@.len() - j + (if found {
                0int
            } else {
                1int
            }),
        {
            if same_rot_set(&sets[j].rotations, &groups[gi].1) {
                found = true;
                proof {
                    assert(sv[j as int].1 == rot_views(sets@[j as int].rotations@));
                    assert(g.1 == rot_views(groups@[gi as int].1@));
                }
            } else {
                j = j + 1;
            }
        }
        if found {
            proof {
                assert(has_rotset(sv, g.1.to_set()));
                let j2 = idx_of_rotset(sv, g.1.to_set());
                assert(0 <= j2 < sv.len() && sv[j2].1.to_set() == g.1.to_set());
                assert(j2 == j as int);
            }
            let already = poly_contains(&sets[j].polys, poly);
            proof {
                assert(poly_views(sets@[j as int].polys@) == sv[j as int].0);
                assert(already <==> sv[j as int].0.contains(g.0));
            }
            if !already {
                let ghost s0 = sets@;
                let mut e = sets.remove(j);
                let ghost e0 = e;
                e.polys.push(poly);
                proof {
                    assert(poly_views(e.polys@) =~= poly_views(e0.polys@).push(g.0));
                    assert(rot_views(e.rotations@) == rot_views(e0.rotations@));
                }
                sets.insert(j, e);
                proof {
                    assert(sets@ =~= s0.update(j as int, e));
                    lemma_sets_update_model(
                        d,
                        z@,
                        z_prime@,
                        sets_from(gvs.take(gi as int)),
                        g,
                        j as int,
                        s0,
                        e,
                        sets@,
                    );
                    assert(sets_from(gvs.take(gi + 1)) == add_group(
                        sets_from(gvs.take(gi as int)),
                        g,
                    ));
                }
            } else {
                proof {
                    assert(sets_from(gvs.take(gi + 1)) == sets_from(gvs.take(gi as int)));
                }
            }
        } else {
            proof {
                assert(!has_rotset(sv, g.1.to_set())) by {
                    if has_rotset(sv, g.1.to_set()) {
                        let j2 = idx_of_rotset(sv, g.1.to_set());
                        assert(0 <= j2 < sv.len() && sv[j2].1.to_set() == g.1.to_set());
                    }
                }
            }
            let rots = copy_rotations(&groups[gi].1);
            proof {
                assert(rot_views(rots@) == g.1);
                assert(g.1.len() >= 1);
            }
            let built = match IntermediateSet::new(
                &protocol.domain,
                loader,
                rots,
                z,
                z_prime,
                &z_s_1,
            ) {
                Ok(s) => s,
                Err(e) => {
                    proof {
                        lemma_sets_stable(gvs, gi + 1);
                        let sidx = sv.len() as int;
                        assert(sets_from(gvs.take(gi + 1))[sidx].1 == g.1);
                        assert(sets_of(qv)[sidx].1 == g.1);
                        assert(!set_ok(d, z@, z_prime@, g.1, sidx == 0));
                        assert(!sets_ok(d, z@, z_prime@, sets_of(qv)));
                    }
                    return Err(e);
                },
            };
            let mut s = built;
            s.polys.push(poly);
            if z_s_1.is_none() {
                z_s_1 = Some(s.z_s);
            }
            let ghost before = sets@;
            sets.push(s);
            proof {
                assert(poly_views(s.polys@) =~= seq![g.0]);
                let structs0 = sets_from(gvs.take(gi as int));
                if structs0.len() > 0 {
                    assert(set_views(before)[0] == sets_models(d, z@, z_prime@, structs0)[0]);
                }
                assert(s@ == set_model(
                    d,
                    z@,
                    z_prime@,
                    seq![g.0],
                    g.1,
                    if structs0.len() == 0 {
                        None
                    } else {
                        Some(zs_prod(d, z@, z_prime@, structs0[0].1, structs0[0].1.len() as nat))
                    },
                ));
                lemma_sets_push_model(d, z@, z_prime@, structs0, g, before, s, sets@);
                assert(sets_from(gvs.take(gi + 1)) == add_group(structs0, g));
            }
        }
        gi = gi + 1;
    }
    proof {
        assert(gvs.take(gvs.len() as int) =~= gvs);
    }
    Ok(sets)
}

} // verus!

//! Library-level laws: properties of the verifier stated and proved once,
//! over the same models its contracts use.

use vstd::prelude::*;
use crate::expression::{eval_expr, qv_keys, used_queries, EvalEnv, Expression, QueryV};
use crate::field::{fadd, fmul, P};
use crate::group::{mv_add, mv_base, mv_eval, mv_pairs_eval, mv_scalar, mv_scale, MsmV};
use crate::multiopen::{
    add_group, add_query, groups_of, has_poly, has_rotset, idx_of_poly, idx_of_rotset, sets_from,
    sets_of,
};
use crate::protocol::Protocol;
use crate::shplonk::{
    after_init, env_model, evaluations_model, pipeline_lhs, pipeline_ok, pipeline_rhs,
    read_model, rel_vals, table0_model, ProofV,
};
use crate::transcript::TranscriptV;
use crate::Error;
use vstd::arithmetic::div_mod::{
    lemma_add_mod_noop, lemma_add_mod_noop_right, lemma_mul_mod_noop_left,
};
use vstd::arithmetic::mul::lemma_mul_is_distributive_add_other_way;

verus! {

/// Determinism: everything the verifier produces is a function of the
/// protocol, the statements and the proof stream alone, so two runs over
/// equal inputs agree on success, on the reconstructed proof and on both
/// pairing inputs.
pub proof fn lemma_deterministic(
    p: Protocol,
    stv1: Seq<Seq<u64>>,
    t1: TranscriptV,
    stv2: Seq<Seq<u64>>,
    t2: TranscriptV,
)
    requires
        stv1 == stv2,
        t1 == t2,
    ensures
        pipeline_ok(p, stv1, t1) == pipeline_ok(p, stv2, t2),
        read_model(p, stv1, after_init(p, t1)) == read_model(p, stv2, after_init(p, t2)),
        pipeline_lhs(p, read_model(p, stv1, after_init(p, t1))) == pipeline_lhs(
            p,
            read_model(p, stv2, after_init(p, t2)),
        ),
        pipeline_rhs(read_model(p, stv1, after_init(p, t1))) == pipeline_rhs(
            read_model(p, stv2, after_init(p, t2)),
        ),
{
}

/// Query coverage, error direction: when evaluating the relations stops
/// with `MissingQuery`, the named query really is absent from the
/// evaluation table.
pub proof fn lemma_missing_query_is_absent(e: Expression, env: EvalEnv)
    ensures
        eval_expr(e, env) matches Err(Error::MissingQuery(q)) ==> !env.eval_keys.contains(q@),
    decreases e,
{
    match e {
        Expression::Negated(inner) => lemma_missing_query_is_absent(*inner, env),
        Expression::Sum(a, b) => {
            lemma_missing_query_is_absent(*a, env);
            lemma_missing_query_is_absent(*b, env);
        },
        Expression::Product(a, b) => {
            lemma_missing_query_is_absent(*a, env);
            lemma_missing_query_is_absent(*b, env);
        },
        Expression::Scaled(inner, _) => lemma_missing_query_is_absent(*inner, env),
        _ => {},
    }
}

proof fn lemma_rel_vals_missing(rels: Seq<Expression>, env: EvalEnv)
    ensures
        rel_vals(rels, env) matches Err(Error::MissingQuery(q)) ==> !env.eval_keys.contains(q@),
    decreases rels.len(),
{
    if rels.len() > 0 {
        lemma_rel_vals_missing(rels.drop_last(), env);
        lemma_missing_query_is_absent(rels.last(), env);
    }
}

/// Query coverage, at the driver: a `MissingQuery` error from building the
/// evaluation table names a query that the table really does not hold.
pub proof fn lemma_query_coverage(p: Protocol, pf: ProofV)
    ensures
        evaluations_model(p, pf) matches Err(Error::MissingQuery(q)) ==> !qv_keys(
            table0_model(p, pf),
        ).contains(q@),
{
    lemma_rel_vals_missing(p.relations@, env_model(p, pf));
}

/// Whether some group carries this poly together with this rotation.
pub open spec fn group_covers(groups: Seq<(int, Seq<int>)>, poly: int, rot: int) -> bool {
    exists|j: int|
        0 <= j < groups.len() && (#[trigger] groups[j]).0 == poly && groups[j].1.contains(rot)
}

/// Whether some intermediate set carries this poly with this rotation in
/// its rotation set.
pub open spec fn set_covers(sets: Seq<(Seq<int>, Seq<int>)>, poly: int, rot: int) -> bool {
    exists|s: int|
        0 <= s < sets.len() && (#[trigger] sets[s]).0.contains(poly) && sets[s].1.to_set().contains(
            rot,
        )
}

proof fn lemma_add_query_mono(groups: Seq<(int, Seq<int>)>, q: QueryV, poly: int, rot: int)
    requires
        group_covers(groups, poly, rot),
    ensures
        group_covers(add_query(groups, q), poly, rot),
{
    let j = choose|j: int|
        0 <= j < groups.len() && (#[trigger] groups[j]).0 == poly && groups[j].1.contains(rot);
    let after = add_query(groups, q);
    if !has_poly(groups, q.poly) {
        assert(after[j] == groups[j]);
    } else {
        let j2 = idx_of_poly(groups, q.poly);
        if j2 == j && !groups[j2].1.contains(q.rotation) {
            let k = choose|k: int| 0 <= k < groups[j].1.len() && groups[j].1[k] == rot;
            assert(after[j].1[k] == rot);
            assert(after[j].1.contains(rot));
        } else {
            assert(after[j] == groups[j]);
        }
    }
}

proof fn lemma_add_query_self(groups: Seq<(int, Seq<int>)>, q: QueryV)
    ensures
        group_covers(add_query(groups, q), q.poly, q.rotation),
{
    let after = add_query(groups, q);
    if !has_poly(groups, q.poly) {
        let j = groups.len() as int;
        assert(after[j].0 == q.poly);
        assert(after[j].1[0] == q.rotation);
        assert(after[j].1.contains(q.rotation));
    } else {
        let j = idx_of_poly(groups, q.poly);
        assert(0 <= j < groups.len() && groups[j].0 == q.poly);
        if groups[j].1.contains(q.rotation) {
            assert(after[j] == groups[j]);
        } else {
            assert(after[j].1.last() == q.rotation);
            assert(after[j].1.contains(q.rotation));
        }
    }
}

proof fn lemma_groups_cover(qv: Seq<QueryV>, i: int)
    requires
        0 <= i < qv.len(),
    ensures
        group_covers(groups_of(qv), qv[i].poly, qv[i].rotation),
    decreases qv.len(),
{
    if i + 1 == qv.len() {
        lemma_add_query_self(groups_of(qv.drop_last()), qv.last());
    } else {
        lemma_groups_cover(qv.drop_last(), i);
        lemma_add_query_mono(
            groups_of(qv.drop_last()),
            qv.last(),
            qv[i].poly,
            qv[i].rotation,
        );
    }
}

proof fn lemma_add_group_mono(
    sets: Seq<(Seq<int>, Seq<int>)>,
    g: (int, Seq<int>),
    poly: int,
    rot: int,
)
    requires
        set_covers(sets, poly, rot),
    ensures
        set_covers(add_group(sets, g), poly, rot),
{
    let s = choose|s: int|
        0 <= s < sets.len() && (#[trigger] sets[s]).0.contains(poly) && sets[s].1.to_set().contains(
            rot,
        );
    let after = add_group(sets, g);
    if !has_rotset(sets, g.1.to_set()) {
        assert(after[s] == sets[s]);
    } else {
        let s2 = idx_of_rotset(sets, g.1.to_set());
        if s2 == s && !sets[s2].0.contains(g.0) {
            let k = choose|k: int| 0 <= k < sets[s].0.len() && sets[s].0[k] == poly;
            assert(after[s].0[k] == poly);
            assert(after[s].0.contains(poly));
            assert(after[s].1 == sets[s].1);
        } else {
            assert(after[s] == sets[s]);
        }
    }
}

proof fn lemma_add_group_self(sets: Seq<(Seq<int>, Seq<int>)>, g: (int, Seq<int>), rot: int)
    requires
        g.1.contains(rot),
    ensures
        set_covers(add_group(sets, g), g.0, rot),
{
    let after = add_group(sets, g);
    if !has_rotset(sets, g.1.to_set()) {
        let s = sets.len() as int;
        assert(after[s].0[0] == g.0);
        assert(after[s].0.contains(g.0));
        assert(after[s].1.to_set().contains(rot));
    } else {
        let s = idx_of_rotset(sets, g.1.to_set());
        assert(0 <= s < sets.len() && sets[s].1.to_set() == g.1.to_set());
        assert(sets[s].1.to_set().contains(rot));
        if sets[s].0.contains(g.0) {
            assert(after[s] == sets[s]);
        } else {
            assert(after[s].0.last() == g.0);
            assert(after[s].0.contains(g.0));
            assert(after[s].1 == sets[s].1);
        }
    }
}

proof fn lemma_sets_cover(groups: Seq<(int, Seq<int>)>, j: int, rot: int)
    requires
        0 <= j < groups.len(),
        groups[j].1.contains(rot),
    ensures
        set_covers(sets_from(groups), groups[j].0, rot),
    decreases groups.len(),
{
    if j + 1 == groups.len() {
        lemma_add_group_self(sets_from(groups.drop_last()), groups.last(), rot);
    } else {
        lemma_sets_cover(groups.drop_last(), j, rot);
        lemma_add_group_mono(
            sets_from(groups.drop_last()),
            groups.last(),
            groups[j].0,
            rot,
        );
    }
}

/// Set coverage: every query of the plan lands in an intermediate set that
/// carries its poly and whose rotation set holds its rotation.  (Together
/// with the construction's first-seen ordering and the pairwise-distinct
/// rotation sets proved in `multiopen`, no query is orphaned.)
pub proof fn lemma_query_in_a_set(qv: Seq<QueryV>, i: int)
    requires
        0 <= i < qv.len(),
    ensures
        set_covers(sets_of(qv), qv[i].poly, qv[i].rotation),
{
    lemma_groups_cover(qv, i);
    let groups = groups_of(qv);
    let j = choose|j: int|
        0 <= j < groups.len() && (#[trigger] groups[j]).0 == qv[i].poly && groups[j].1.contains(
            qv[i].rotation,
        );
    lemma_sets_cover(groups, j, qv[i].rotation);
}

// ---- The MSM value laws ----

/// Field addition associates.
proof fn lemma_fadd_assoc(x: int, y: int, z: int)
    ensures
        fadd(fadd(x, y), z) == fadd(x, fadd(y, z)),
{
    let m = P as int;
    lemma_add_mod_noop_right((x + y) % m, z, m);
    lemma_add_mod_noop(x + y, z, m);
    lemma_add_mod_noop_right(x, y + z, m);
    assert(((x + y) % m + z % m) % m == (x + y + z) % m);
}

/// Field multiplication distributes over field addition.
proof fn lemma_fmul_distrib(x: int, y: int, s: int)
    ensures
        fmul(fadd(x, y), s) == fadd(fmul(x, s), fmul(y, s)),
{
    let m = P as int;
    lemma_mul_mod_noop_left(x + y, s, m);
    lemma_mul_is_distributive_add_other_way(s, x, y);
    lemma_add_mod_noop(x * s, y * s, m);
}

/// The collapsed pair list is always canonically reduced.
proof fn lemma_pairs_eval_bound(pairs: Seq<(int, int)>)
    ensures
        0 <= mv_pairs_eval(pairs) < P,
    decreases pairs.len(),
{
    if pairs.len() > 0 {
        lemma_pairs_eval_bound(pairs.drop_last());
    }
}

/// Collapsing a concatenation adds the two collapsed halves.
proof fn lemma_pairs_eval_concat(a: Seq<(int, int)>, b: Seq<(int, int)>)
    ensures
        mv_pairs_eval(a + b) == fadd(mv_pairs_eval(a), mv_pairs_eval(b)),
    decreases b.len(),
{
    if b.len() == 0 {
        assert(a + b =~= a);
        lemma_pairs_eval_bound(a);
    } else {
        lemma_pairs_eval_concat(a, b.drop_last());
        assert((a + b).drop_last() =~= a + b.drop_last());
        assert((a + b).last() == b.last());
        lemma_fadd_assoc(
            mv_pairs_eval(a),
            mv_pairs_eval(b.drop_last()),
            fmul(b.last().0, b.last().1),
        );
    }
}

/// MSM addition is commutative under evaluation against any generator.
pub proof fn lemma_msm_add_commutes(a: MsmV, b: MsmV, g: int)
    ensures
        mv_eval(mv_add(a, b), g) == mv_eval(mv_add(b, a), g),
{
    lemma_pairs_eval_concat(a.pairs, b.pairs);
    lemma_pairs_eval_concat(b.pairs, a.pairs);
}

/// MSM addition is associative.
pub proof fn lemma_msm_add_associates(a: MsmV, b: MsmV, c: MsmV)
    ensures
        mv_add(mv_add(a, b), c) == mv_add(a, mv_add(b, c)),
{
    assert(mv_add(mv_add(a, b), c).pairs =~= mv_add(a, mv_add(b, c)).pairs);
    lemma_fadd_assoc(a.constant, b.constant, c.constant);
}

/// Scaling distributes over MSM addition.
pub proof fn lemma_msm_scale_distributes(a: MsmV, b: MsmV, s: int)
    ensures
        mv_scale(mv_add(a, b), s) == mv_add(mv_scale(a, s), mv_scale(b, s)),
{
    let lhs = mv_scale(mv_add(a, b), s);
    let rhs = mv_add(mv_scale(a, s), mv_scale(b, s));
    assert forall|i: int| 0 <= i < lhs.pairs.len() implies lhs.pairs[i] == rhs.pairs[i] by {
        if i < a.pairs.len() {
            assert((a.pairs + b.pairs)[i] == a.pairs[i]);
        } else {
            assert((a.pairs + b.pairs)[i] == b.pairs[i - a.pairs.len()]);
        }
    }
    assert(lhs.pairs =~= rhs.pairs);
    lemma_fmul_distrib(a.constant, b.constant, s);
}

/// `base(p)` is `1 * p`, and evaluation collapses a bare constant term
/// into `s * g1`.
pub proof fn lemma_msm_base_scalar_eval(p: int, s: int, g1: int)
    ensures
        mv_eval(mv_base(p), g1) == p % (P as int),
        mv_eval(mv_scalar(s), g1) == fmul(s, g1),
{
    assert(mv_base(p).pairs.drop_last() =~= Seq::<(int, int)>::empty());
    assert(mv_pairs_eval(Seq::<(int, int)>::empty()) == 0);
    assert(mv_base(p).pairs.last() == (1int, p));
    assert(mv_pairs_eval(mv_base(p).pairs) == fadd(0, fmul(1, p)));
}

// ---- Query coverage, positive direction ----

/// A cleanly evaluated relation referenced only queries the table holds.
proof fn lemma_eval_ok_covers(e: Expression, env: EvalEnv)
    ensures
        eval_expr(e, env) is Ok ==> forall|qv: QueryV|
            used_queries(e).contains(qv) ==> env.eval_keys.contains(qv),
    decreases e,
{
    if eval_expr(e, env) is Ok {
        assert forall|qv: QueryV|
            used_queries(e).contains(qv) implies env.eval_keys.contains(qv) by {
            match e {
                Expression::Polynomial(q) => {
                    assert(qv == q@);
                },
                Expression::Negated(inner) => {
                    lemma_eval_ok_covers(*inner, env);
                    assert(used_queries(*inner).contains(qv));
                },
                Expression::Sum(a, b) => {
                    lemma_eval_ok_covers(*a, env);
                    lemma_eval_ok_covers(*b, env);
                    if used_queries(*a).contains(qv) {
                    } else {
                        assert(used_queries(*b).contains(qv));
                    }
                },
                Expression::Product(a, b) => {
                    lemma_eval_ok_covers(*a, env);
                    lemma_eval_ok_covers(*b, env);
                    if used_queries(*a).contains(qv) {
                    } else {
                        assert(used_queries(*b).contains(qv));
                    }
                },
                Expression::Scaled(inner, _) => {
                    lemma_eval_ok_covers(*inner, env);
                    assert(used_queries(*inner).contains(qv));
                },
                _ => {},
            }
        }
    }
}

/// A cleanly folded relation list referenced only queries the table holds.
proof fn lemma_rel_vals_ok_covers(rels: Seq<Expression>, env: EvalEnv)
    ensures
        rel_vals(rels, env) is Ok ==> forall|i: int, qv: QueryV|
            0 <= i < rels.len() && #[trigger] used_queries(rels[i]).contains(qv)
                ==> env.eval_keys.contains(qv),
    decreases rels.len(),
{
    if rels.len() > 0 && rel_vals(rels, env) is Ok {
        lemma_rel_vals_ok_covers(rels.drop_last(), env);
        lemma_eval_ok_covers(rels.last(), env);
        assert forall|i: int, qv: QueryV|
            0 <= i < rels.len() && #[trigger] used_queries(rels[i]).contains(qv)
            implies env.eval_keys.contains(qv) by {
            if i < rels.len() - 1 {
                assert(rels.drop_last()[i] == rels[i]);
                assert(used_queries(rels.drop_last()[i]).contains(qv));
            } else {
                assert(rels[i] == rels.last());
            }
        }
    }
}

/// Query coverage, positive direction: whenever the evaluation table is
/// returned, every query any relation references is one of its keys, and
/// so is the synthetic quotient entry.
pub proof fn lemma_table_covers_relations(p: Protocol, pf: ProofV)
    requires
        evaluations_model(p, pf) is Ok,
    ensures
        forall|i: int, qv: QueryV|
            0 <= i < p.relations@.len() && #[trigger] used_queries(p.relations@[i]).contains(qv)
                ==> qv_keys(evaluations_model(p, pf)->Ok_0).contains(qv),
        qv_keys(evaluations_model(p, pf)->Ok_0).contains(
            QueryV { poly: p.vanishing_idx(), rotation: 0 },
        ),
{
    let env = env_model(p, pf);
    let t0 = table0_model(p, pf);
    let t = evaluations_model(p, pf)->Ok_0;
    lemma_rel_vals_ok_covers(p.relations@, env);
    assert(t[t.len() - 1].0 == QueryV { poly: p.vanishing_idx(), rotation: 0 });
    assert(qv_keys(t).contains(QueryV { poly: p.vanishing_idx(), rotation: 0 }));
    assert forall|i: int, qv: QueryV|
        0 <= i < p.relations@.len() && #[trigger] used_queries(p.relations@[i]).contains(qv)
        implies qv_keys(t).contains(qv) by {
        assert(env.eval_keys.contains(qv));
        let j = choose|j: int| 0 <= j < t0.len() && (#[trigger] t0[j]).0 == qv;
        assert(t[j].0 == qv);
    }
}

// ---- Set partition, in full ----

/// Whether some query of the plan opens `poly`.
pub open spec fn occurs(qv: Seq<QueryV>, poly: int) -> bool {
    exists|i: int| 0 <= i < qv.len() && (#[trigger] qv[i]).poly == poly
}

/// The full set of rotations the plan opens `poly` at.
pub open spec fn poly_rotset(qv: Seq<QueryV>, poly: int) -> Set<int> {
    Set::new(
        |r: int| exists|i: int|
            0 <= i < qv.len() && (#[trigger] qv[i]).poly == poly && qv[i].rotation == r,
    )
}

/// How one more query changes the per-poly rotation sets.
proof fn lemma_rotset_step(qv: Seq<QueryV>)
    requires
        qv.len() > 0,
    ensures
        forall|p: int|
            p != qv.last().poly ==> #[trigger] poly_rotset(qv, p) == poly_rotset(
                qv.drop_last(),
                p,
            ),
        poly_rotset(qv, qv.last().poly) == poly_rotset(
            qv.drop_last(),
            qv.last().poly,
        ).insert(qv.last().rotation),
        forall|p: int| #[trigger]
            occurs(qv, p) <==> occurs(qv.drop_last(), p) || p == qv.last().poly,
{
    let pre = qv.drop_last();
    let q = qv.last();
    assert forall|p: int| p != q.poly implies #[trigger] poly_rotset(qv, p) == poly_rotset(
        pre,
        p,
    ) by {
        assert(poly_rotset(qv, p) =~= poly_rotset(pre, p)) by {
            assert forall|r: int| poly_rotset(qv, p).contains(r) implies poly_rotset(
                pre,
                p,
            ).contains(r) by {
                let i = choose|i: int|
                    0 <= i < qv.len() && (#[trigger] qv[i]).poly == p && qv[i].rotation == r;
                assert(i < pre.len());
                assert(pre[i].poly == p && pre[i].rotation == r);
            }
            assert forall|r: int| poly_rotset(pre, p).contains(r) implies poly_rotset(
                qv,
                p,
            ).contains(r) by {
                let i = choose|i: int|
                    0 <= i < pre.len() && (#[trigger] pre[i]).poly == p && pre[i].rotation == r;
                assert(qv[i].poly == p && qv[i].rotation == r);
            }
        }
    }
    assert(poly_rotset(qv, q.poly) =~= poly_rotset(pre, q.poly).insert(q.rotation)) by {
        assert forall|r: int| poly_rotset(qv, q.poly).contains(r) implies poly_rotset(
            pre,
            q.poly,
        ).insert(q.rotation).contains(r) by {
            let i = choose|i: int|
                0 <= i < qv.len() && (#[trigger] qv[i]).poly == q.poly && qv[i].rotation == r;
            if i < pre.len() {
                assert(pre[i].poly == q.poly && pre[i].rotation == r);
            }
        }
        assert forall|r: int|
            poly_rotset(pre, q.poly).insert(q.rotation).contains(r) implies poly_rotset(
            qv,
            q.poly,
        ).contains(r) by {
            if r == q.rotation {
                assert(qv[qv.len() - 1].poly == q.poly && qv[qv.len() - 1].rotation == r);
            } else {
                let i = choose|i: int|
                    0 <= i < pre.len() && (#[trigger] pre[i]).poly == q.poly && pre[i].rotation
                        == r;
                assert(qv[i].poly == q.poly && qv[i].rotation == r);
            }
        }
    }
    assert forall|p: int| #[trigger]
        occurs(qv, p) <==> occurs(pre, p) || p == q.poly by {
        if occurs(qv, p) {
            let i = choose|i: int| 0 <= i < qv.len() && (#[trigger] qv[i]).poly == p;
            if i < pre.len() {
                assert(pre[i].poly == p);
            }
        }
        if occurs(pre, p) {
            let i = choose|i: int| 0 <= i < pre.len() && (#[trigger] pre[i]).poly == p;
            assert(qv[i].poly == p);
        }
        if p == q.poly {
            assert(qv[qv.len() - 1].poly == p);
        }
    }
}

/// Grouping is exact: each group's rotation list, as a set, is its poly's
/// full rotation set, and the grouped polys are exactly those the plan
/// opens.
proof fn lemma_groups_rotset(qv: Seq<QueryV>)
    ensures
        forall|j: int|
            0 <= j < groups_of(qv).len() ==> (#[trigger] groups_of(qv)[j]).1.to_set()
                == poly_rotset(qv, groups_of(qv)[j].0),
        forall|p: int| #[trigger] has_poly(groups_of(qv), p) <==> occurs(qv, p),
    decreases qv.len(),
{
    if qv.len() == 0 {
        assert forall|p: int| #[trigger] has_poly(groups_of(qv), p) <==> occurs(qv, p) by {
            if has_poly(groups_of(qv), p) {
                let j = choose|j: int|
                    0 <= j < groups_of(qv).len() && (#[trigger] groups_of(qv)[j]).0 == p;
            }
            if occurs(qv, p) {
                let i = choose|i: int| 0 <= i < qv.len() && (#[trigger] qv[i]).poly == p;
            }
        }
    } else {
        let pre = qv.drop_last();
        let q = qv.last();
        lemma_groups_rotset(pre);
        lemma_rotset_step(qv);
        crate::multiopen::lemma_groups_wf(pre);
        let g0 = groups_of(pre);
        let g = groups_of(qv);
        assert(g == add_query(g0, q));
        assert forall|j: int|
            0 <= j < g.len() implies (#[trigger] g[j]).1.to_set() == poly_rotset(
            qv,
            g[j].0,
        ) by {
            if !has_poly(g0, q.poly) {
                if j < g0.len() {
                    assert(g[j] == g0[j]);
                    assert(g0[j].0 != q.poly);
                    assert(poly_rotset(qv, g0[j].0) == poly_rotset(pre, g0[j].0));
                } else {
                    assert(g[j] == (q.poly, seq![q.rotation]));
                    assert(!occurs(pre, q.poly));
                    assert(poly_rotset(pre, q.poly) =~= Set::<int>::empty()) by {
                        assert forall|r: int|
                            !poly_rotset(pre, q.poly).contains(r) by {
                            if poly_rotset(pre, q.poly).contains(r) {
                                let i = choose|i: int|
                                    0 <= i < pre.len() && (#[trigger] pre[i]).poly == q.poly
                                        && pre[i].rotation == r;
                                assert(occurs(pre, q.poly));
                            }
                        }
                    }
                    assert(seq![q.rotation].to_set() =~= Set::<int>::empty().insert(
                        q.rotation,
                    )) by {
                        assert(seq![q.rotation][0] == q.rotation);
                        assert forall|r: int|
                            seq![q.rotation].to_set().contains(r) implies r == q.rotation by {}
                    }
                }
            } else {
                let j2 = idx_of_poly(g0, q.poly);
                assert(0 <= j2 < g0.len() && g0[j2].0 == q.poly);
                if g0[j2].1.contains(q.rotation) {
                    assert(g == g0);
                    if j == j2 {
                        assert(g0[j2].1.to_set().contains(q.rotation));
                        assert(g[j].1.to_set() =~= poly_rotset(pre, q.poly).insert(
                            q.rotation,
                        ));
                    } else {
                        assert(g0[j].0 != q.poly);
                        assert(poly_rotset(qv, g0[j].0) == poly_rotset(pre, g0[j].0));
                    }
                } else {
                    if j == j2 {
                        assert(g[j] == (g0[j2].0, g0[j2].1.push(q.rotation)));
                        assert(g[j].1.to_set() =~= g0[j2].1.to_set().insert(q.rotation)) by {
                            assert forall|r: int|
                                g[j].1.to_set().contains(r) implies g0[j2].1.to_set().insert(
                                q.rotation,
                            ).contains(r) by {
                                let k = choose|k: int|
                                    0 <= k < g[j].1.len() && g[j].1[k] == r;
                                if k < g0[j2].1.len() {
                                    assert(g0[j2].1[k] == r);
                                }
                            }
                            assert forall|r: int|
                                g0[j2].1.to_set().insert(q.rotation).contains(r) implies g[
                                j].1.to_set().contains(r) by {
                                if r == q.rotation {
                                    assert(g[j].1.last() == r);
                                } else {
                                    let k = choose|k: int|
                                        0 <= k < g0[j2].1.len() && g0[j2].1[k] == r;
                                    assert(g[j].1[k] == r);
                                }
                            }
                        }
                    } else {
                        assert(g[j] == g0[j]);
                        assert(g0[j].0 != q.poly);
                        assert(poly_rotset(qv, g0[j].0) == poly_rotset(pre, g0[j].0));
                    }
                }
            }
        }
        assert forall|p: int| #[trigger] has_poly(g, p) <==> occurs(qv, p) by {
            if has_poly(g, p) {
                let j = choose|j: int| 0 <= j < g.len() && (#[trigger] g[j]).0 == p;
                if j < g0.len() && g[j] == g0[j] {
                    assert(has_poly(g0, p));
                } else {
                    if !has_poly(g0, q.poly) && j == g0.len() {
                        assert(p == q.poly);
                    } else {
                        assert(has_poly(g0, p));
                    }
                }
            }
            if occurs(qv, p) {
                if occurs(pre, p) {
                    assert(has_poly(g0, p));
                    let j = choose|j: int| 0 <= j < g0.len() && (#[trigger] g0[j]).0 == p;
                    assert(g[j].0 == p);
                } else {
                    assert(p == q.poly);
                    if !has_poly(g0, q.poly) {
                        assert(g[g0.len() as int].0 == p);
                    } else {
                        let j2 = idx_of_poly(g0, q.poly);
                        assert(g[j2].0 == p);
                    }
                }
            }
        }
    }
}

/// Whether some set carries `poly`.
pub open spec fn sets_has_poly(sets: Seq<(Seq<int>, Seq<int>)>, p: int) -> bool {
    exists|s: int| 0 <= s < sets.len() && (#[trigger] sets[s]).0.contains(p)
}

/// Set building is exact over the grouped polys: a poly lands in a set iff
/// it has a group, in at most one set, and always in one whose rotation
/// set is its group's.
proof fn lemma_sets_polys(g: Seq<(int, Seq<int>)>)
    requires
        forall|j1: int, j2: int| 0 <= j1 < j2 < g.len() ==> (#[trigger] g[j1]).0 != (
        #[trigger] g[j2]).0,
    ensures
        forall|p: int| #[trigger] sets_has_poly(sets_from(g), p) <==> has_poly(g, p),
        forall|s1: int, s2: int, p: int|
            0 <= s1 < s2 < sets_from(g).len() && #[trigger] sets_from(g)[s1].0.contains(p)
                ==> !(#[trigger] sets_from(g)[s2].0.contains(p)),
        forall|s: int, p: int|
            0 <= s < sets_from(g).len() && #[trigger] sets_from(g)[s].0.contains(p)
                ==> exists|j: int|
                0 <= j < g.len() && (#[trigger] g[j]).0 == p && g[j].1.to_set() == sets_from(
                    g,
                )[s].1.to_set(),
    decreases g.len(),
{
    if g.len() == 0 {
        assert forall|p: int| #[trigger]
            sets_has_poly(sets_from(g), p) <==> has_poly(g, p) by {
            if sets_has_poly(sets_from(g), p) {
                let s = choose|s: int|
                    0 <= s < sets_from(g).len() && (#[trigger] sets_from(g)[s]).0.contains(p);
            }
            if has_poly(g, p) {
                let j = choose|j: int| 0 <= j < g.len() && (#[trigger] g[j]).0 == p;
            }
        }
    } else {
        let gp = g.drop_last();
        let last = g.last();
        assert(forall|j1: int, j2: int|
            0 <= j1 < j2 < gp.len() ==> (#[trigger] gp[j1]).0 != (#[trigger] gp[j2]).0);
        lemma_sets_polys(gp);
        let pre = sets_from(gp);
        let after = sets_from(g);
        assert(after == add_group(pre, last));
        // The last poly is new to the prefix.
        assert(!has_poly(gp, last.0)) by {
            if has_poly(gp, last.0) {
                let j = choose|j: int| 0 <= j < gp.len() && (#[trigger] gp[j]).0 == last.0;
                assert(g[j].0 == g[g.len() - 1].0);
            }
        }
        assert(!sets_has_poly(pre, last.0));
        // has_poly over g splits.
        assert forall|p: int| #[trigger]
            has_poly(g, p) <==> has_poly(gp, p) || p == last.0 by {
            if has_poly(g, p) {
                let j = choose|j: int| 0 <= j < g.len() && (#[trigger] g[j]).0 == p;
                if j < gp.len() {
                    assert(gp[j].0 == p);
                }
            }
            if has_poly(gp, p) {
                let j = choose|j: int| 0 <= j < gp.len() && (#[trigger] gp[j]).0 == p;
                assert(g[j].0 == p);
            }
            if p == last.0 {
                assert(g[g.len() - 1].0 == p);
            }
        }
        if !has_rotset(pre, last.1.to_set()) {
            // A fresh set is appended for the last poly.
            let snew = pre.len() as int;
            assert(after[snew] == (seq![last.0], last.1));
            assert(seq![last.0][0] == last.0);
            assert forall|p: int| #[trigger]
                sets_has_poly(after, p) <==> has_poly(g, p) by {
                if sets_has_poly(after, p) {
                    let s = choose|s: int|
                        0 <= s < after.len() && (#[trigger] after[s]).0.contains(p);
                    if s < pre.len() {
                        assert(pre[s].0.contains(p));
                        assert(sets_has_poly(pre, p));
                    } else {
                        let k = choose|k: int|
                            0 <= k < after[s].0.len() && after[s].0[k] == p;
                        assert(p == last.0);
                    }
                }
                if has_poly(gp, p) {
                    assert(sets_has_poly(pre, p));
                    let s = choose|s: int|
                        0 <= s < pre.len() && (#[trigger] pre[s]).0.contains(p);
                    assert(after[s].0.contains(p));
                    assert(sets_has_poly(after, p));
                }
                if p == last.0 {
                    assert(after[snew].0.contains(p));
                    assert(sets_has_poly(after, p));
                }
            }
            assert forall|s1: int, s2: int, p: int|
                0 <= s1 < s2 < after.len() && #[trigger] after[s1].0.contains(p) implies !(
            #[trigger] after[s2].0.contains(p)) by {
                if s2 < pre.len() {
                    assert(pre[s1].0.contains(p) ==> !pre[s2].0.contains(p));
                } else {
                    if after[s2].0.contains(p) {
                        let k = choose|k: int|
                            0 <= k < after[s2].0.len() && after[s2].0[k] == p;
                        assert(p == last.0);
                        assert(pre[s1].0.contains(p));
                        assert(sets_has_poly(pre, last.0));
                    }
                }
            }
            assert forall|s: int, p: int|
                0 <= s < after.len() && #[trigger] after[s].0.contains(p) implies exists|j: int|
                0 <= j < g.len() && (#[trigger] g[j]).0 == p && g[j].1.to_set() == after[
                s].1.to_set() by {
                if s < pre.len() {
                    let j = choose|j: int|
                        0 <= j < gp.len() && (#[trigger] gp[j]).0 == p && gp[j].1.to_set()
                            == pre[s].1.to_set();
                    assert(g[j].0 == p && g[j].1.to_set() == after[s].1.to_set());
                } else {
                    let k = choose|k: int| 0 <= k < after[s].0.len() && after[s].0[k] == p;
                    assert(p == last.0);
                    let j = g.len() - 1;
                    assert(g[j].0 == p && g[j].1.to_set() == after[s].1.to_set());
                }
            }
        } else {
            let s2 = idx_of_rotset(pre, last.1.to_set());
            assert(0 <= s2 < pre.len() && pre[s2].1.to_set() == last.1.to_set());
            assert(!pre[s2].0.contains(last.0)) by {
                if pre[s2].0.contains(last.0) {
                    assert(sets_has_poly(pre, last.0));
                }
            }
            assert(after == pre.update(s2, (pre[s2].0.push(last.0), pre[s2].1)));
            assert(after[s2].0.last() == last.0);
            assert forall|p: int| #[trigger]
                sets_has_poly(after, p) <==> has_poly(g, p) by {
                if sets_has_poly(after, p) {
                    let s = choose|s: int|
                        0 <= s < after.len() && (#[trigger] after[s]).0.contains(p);
                    if s != s2 {
                        assert(pre[s].0.contains(p));
                        assert(sets_has_poly(pre, p));
                    } else {
                        let k = choose|k: int|
                            0 <= k < after[s].0.len() && after[s].0[k] == p;
                        if k < pre[s2].0.len() {
                            assert(pre[s2].0[k] == p);
                            assert(pre[s2].0.contains(p));
                            assert(sets_has_poly(pre, p));
                        } else {
                            assert(p == last.0);
                        }
                    }
                }
                if has_poly(gp, p) {
                    assert(sets_has_poly(pre, p));
                    let s = choose|s: int|
                        0 <= s < pre.len() && (#[trigger] pre[s]).0.contains(p);
                    if s != s2 {
                        assert(after[s].0.contains(p));
                    } else {
                        let k = choose|k: int|
                            0 <= k < pre[s2].0.len() && pre[s2].0[k] == p;
                        assert(after[s2].0[k] == p);
                        assert(after[s2].0.contains(p));
                    }
                    assert(sets_has_poly(after, p));
                }
                if p == last.0 {
                    assert(after[s2].0.contains(p));
                    assert(sets_has_poly(after, p));
                }
            }
            assert forall|sa: int, sb: int, p: int|
                0 <= sa < sb < after.len() && #[trigger] after[sa].0.contains(p) implies !(
            #[trigger] after[sb].0.contains(p)) by {
                if after[sa].0.contains(p) && after[sb].0.contains(p) {
                    if sa != s2 && sb != s2 {
                        assert(pre[sa].0.contains(p) && pre[sb].0.contains(p));
                    } else {
                        let so = if sa == s2 {
                            sb
                        } else {
                            sa
                        };
                        assert(after[so] == pre[so]);
                        assert(pre[so].0.contains(p));
                        let k = choose|k: int|
                            0 <= k < after[s2].0.len() && after[s2].0[k] == p;
                        if k < pre[s2].0.len() {
                            assert(pre[s2].0[k] == p);
                            assert(pre[s2].0.contains(p));
                        } else {
                            assert(p == last.0);
                            assert(sets_has_poly(pre, last.0));
                        }
                    }
                }
            }
            assert forall|s: int, p: int|
                0 <= s < after.len() && #[trigger] after[s].0.contains(p) implies exists|j: int|
                0 <= j < g.len() && (#[trigger] g[j]).0 == p && g[j].1.to_set() == after[
                s].1.to_set() by {
                if s != s2 {
                    assert(pre[s].0.contains(p));
                    let j = choose|j: int|
                        0 <= j < gp.len() && (#[trigger] gp[j]).0 == p && gp[j].1.to_set()
                            == pre[s].1.to_set();
                    assert(g[j].0 == p && g[j].1.to_set() == after[s].1.to_set());
                } else {
                    let k = choose|k: int| 0 <= k < after[s].0.len() && after[s].0[k] == p;
                    if k < pre[s2].0.len() {
                        assert(pre[s2].0[k] == p);
                        assert(pre[s2].0.contains(p));
                        let j = choose|j: int|
                            0 <= j < gp.len() && (#[trigger] gp[j]).0 == p && gp[j].1.to_set()
                                == pre[s2].1.to_set();
                        assert(g[j].0 == p && g[j].1.to_set() == after[s2].1.to_set());
                    } else {
                        assert(p == last.0);
                        let j = g.len() - 1;
                        assert(g[j].1.to_set() == after[s2].1.to_set());
                    }
                }
            }
        }
    }
}

/// Set partition, in full: every poly the plan opens lands in exactly one
/// intermediate set, and that set's rotation set is exactly the set of
/// rotations the plan opens the poly at.
pub proof fn lemma_set_partition(qv: Seq<QueryV>, poly: int)
    requires
        occurs(qv, poly),
    ensures
        exists|s: int|
            0 <= s < sets_of(qv).len() && (#[trigger] sets_of(qv)[s]).0.contains(poly)
                && sets_of(qv)[s].1.to_set() == poly_rotset(qv, poly),
        forall|s1: int, s2: int|
            0 <= s1 < s2 < sets_of(qv).len() && #[trigger] sets_of(qv)[s1].0.contains(poly)
                ==> !(#[trigger] sets_of(qv)[s2].0.contains(poly)),
{
    lemma_groups_rotset(qv);
    crate::multiopen::lemma_groups_wf(qv);
    let g = groups_of(qv);
    lemma_sets_polys(g);
    assert(has_poly(g, poly));
    assert(sets_has_poly(sets_from(g), poly));
    let s = choose|s: int|
        0 <= s < sets_from(g).len() && (#[trigger] sets_from(g)[s]).0.contains(poly);
    let j = choose|j: int|
        0 <= j < g.len() && (#[trigger] g[j]).0 == poly && g[j].1.to_set() == sets_from(
            g,
        )[s].1.to_set();
    assert(g[j].1.to_set() == poly_rotset(qv, poly));
    assert(sets_of(qv)[s].0.contains(poly) && sets_of(qv)[s].1.to_set() == poly_rotset(
        qv,
        poly,
    ));
}

} // verus!

use shplonk::expression::{Expression, Query, Rotation};
use shplonk::field::{Scalar, P};
use shplonk::group::{EcPoint, Msm};
use shplonk::loader::NativeLoader;
use shplonk::multiopen::intermediate_sets;
use shplonk::protocol::{Domain, Protocol};
use shplonk::shplonk::{pairing_inputs, verify_proof, NativeStrategy};
use shplonk::transcript::Transcript;
use shplonk::Error;

/// A generator of the order-`n` subgroup of the scalar field.
fn find_omega(n: u64) -> Scalar {
    let mut x: u64 = 2;
    loop {
        let w = Scalar::new(x);
        if w.pow(n).v == 1 && w.pow(n / 2).v != 1 {
            return w;
        }
        x += 1;
    }
}

fn domain(n: u64) -> Domain {
    let omega = find_omega(n);
    Domain { n, omega, omega_inv: omega.pow(n - 1) }
}

fn q(poly: usize, rot: i32) -> Query {
    Query::new(poly, Rotation::new(rot))
}

fn poly_expr(poly: usize, rot: i32) -> Expression {
    Expression::Polynomial(q(poly, rot))
}

/// One preprocessed poly, two statement columns, one auxiliary phase with
/// one commitment and one challenge, two relations (degrees two and one),
/// and openings of the preprocessed, auxiliary and quotient polys.
fn test_protocol() -> Protocol {
    Protocol {
        domain: domain(4),
        preprocessed: vec![EcPoint::new(7)],
        num_statement: 2,
        num_auxiliary: vec![1],
        num_challenge: vec![1],
        relations: vec![
            Expression::Product(Box::new(poly_expr(0, 0)), Box::new(poly_expr(3, 0))),
            Expression::Sum(
                Box::new(poly_expr(1, 0)),
                Box::new(Expression::Negated(Box::new(poly_expr(2, 0)))),
            ),
        ],
        queries: vec![q(0, 0), q(3, 0), q(4, 0)],
        evaluations: vec![q(0, 0), q(3, 0)],
        transcript_initial_state: Scalar::new(99),
    }
}

fn test_statements() -> Vec<Vec<u64>> {
    vec![vec![3], vec![5]]
}

/// Words: auxiliary point, quotient point, two evaluations, w, w_prime.
fn test_words(w_prime: u64) -> Vec<u64> {
    vec![11, 22, 33, 44, 55, w_prime]
}

#[test]
fn field_ops() {
    assert_eq!(Scalar::new(65522).v, 1);
    let a = Scalar::new(7);
    let b = Scalar::new(65520);
    assert_eq!(a.add(b).v, 6);
    assert_eq!(a.sub(b).v, 8);
    assert_eq!(a.mul(b).v, (7 * 65520) % P);
    assert_eq!(a.neg().add(a).v, 0);
    let inv = a.invert().unwrap();
    assert_eq!(inv.mul(a).v, 1);
    assert!(Scalar::new(0).invert().is_none());
}

#[test]
fn pow_matches_repeated_multiplication() {
    let z = Scalar::new(321);
    for k in [2u64, 3, 5] {
        let mut by_hand = Scalar::new(1);
        for _ in 0..(k - 1) {
            by_hand = by_hand.mul(z);
        }
        assert_eq!(z.pow(k - 1).v, by_hand.v);
    }
    let powers = z.powers(5);
    assert_eq!(powers[0].v, 1);
    assert_eq!(powers[3].v, z.pow(3).v);
}

#[test]
fn transcript_is_deterministic() {
    let data = vec![5u64, 6, 7];
    let mut t1 = Transcript::init(data.clone());
    let mut t2 = Transcript::init(data);
    t1.common_scalar(&Scalar::new(9)).unwrap();
    t2.common_scalar(&Scalar::new(9)).unwrap();
    let s1 = t1.read_scalar().unwrap();
    let s2 = t2.read_scalar().unwrap();
    assert_eq!(s1.v, s2.v);
    assert_eq!(t1.squeeze_challenge().v, t2.squeeze_challenge().v);
    assert_eq!(t1.squeeze_challenge().v, t2.squeeze_challenge().v);
}

#[test]
fn transcript_rejects_bad_words() {
    // A word that is not a canonical field encoding.
    let mut t = Transcript::init(vec![P]);
    assert!(matches!(t.read_scalar(), Err(Error::TranscriptRead)));
    // An exhausted stream.
    let mut t2 = Transcript::init(vec![]);
    assert!(matches!(t2.read_ec_point(), Err(Error::TranscriptRead)));
}

#[test]
fn msm_evaluates_deferred_combination() {
    let g = EcPoint::new(10);
    let g1 = EcPoint::new(1);
    let m = Msm::base(g).scale(Scalar::new(3)).add(Msm::scalar(Scalar::new(4)));
    // 3 * 10 + 4 * 1.
    assert_eq!(m.evaluate(g1).v, 34);
    let n = m.sub(Msm::base(g).scale(Scalar::new(3)));
    assert_eq!(n.evaluate(g1).v, 4);
}

#[test]
fn mismatched_statements_give_invalid_instances() {
    let protocol = test_protocol();
    let loader = NativeLoader;
    let statements: Vec<Vec<u64>> = vec![vec![3]];
    let mut transcript = Transcript::init(test_words(0));
    let mut strategy = NativeStrategy { g1: EcPoint::new(1) };
    let r = verify_proof(&protocol, &loader, &statements, &mut transcript, &mut strategy);
    assert!(matches!(r, Err(Error::InvalidInstances)));
    // Nothing was read from the stream.
    assert_eq!(transcript.pos, 0);
}

#[test]
fn oversized_statement_row_gives_invalid_instances() {
    let protocol = test_protocol();
    let loader = NativeLoader;
    // A row longer than the domain.
    let statements: Vec<Vec<u64>> = vec![vec![1, 2, 3, 4, 5], vec![5]];
    let mut transcript = Transcript::init(test_words(0));
    let mut strategy = NativeStrategy { g1: EcPoint::new(1) };
    let r = verify_proof(&protocol, &loader, &statements, &mut transcript, &mut strategy);
    assert!(matches!(r, Err(Error::InvalidInstances)));
}

#[test]
fn truncated_proof_gives_transcript_read() {
    let protocol = test_protocol();
    let loader = NativeLoader;
    let statements = test_statements();
    let mut words = test_words(0);
    words.pop();
    let mut transcript = Transcript::init(words);
    let mut strategy = NativeStrategy { g1: EcPoint::new(1) };
    let r = verify_proof(&protocol, &loader, &statements, &mut transcript, &mut strategy);
    assert!(matches!(r, Err(Error::TranscriptRead)));
}

#[test]
fn missing_challenge_is_reported() {
    let mut protocol = test_protocol();
    // No phase squeezes any challenge, yet a relation asks for one.
    protocol.num_auxiliary = vec![];
    protocol.num_challenge = vec![];
    protocol.relations = vec![
        Expression::Product(Box::new(poly_expr(0, 0)), Box::new(poly_expr(0, 0))),
        Expression::Challenge(0),
    ];
    protocol.queries = vec![q(0, 0), q(3, 0)];
    // With no auxiliaries the poly indices shift: vanishing is 1 + 2 + 0 = 3.
    let loader = NativeLoader;
    let statements = test_statements();
    // Words: quotient point, two evaluations, w, w_prime.
    let mut transcript = Transcript::init(vec![22, 33, 44, 55, 0]);
    let mut strategy = NativeStrategy { g1: EcPoint::new(1) };
    let r = verify_proof(&protocol, &loader, &statements, &mut transcript, &mut strategy);
    assert!(matches!(r, Err(Error::MissingChallenge(0))));
}

#[test]
fn missing_query_is_reported() {
    let mut protocol = test_protocol();
    // A relation references an opening the protocol never provides.
    protocol.relations = vec![
        Expression::Product(Box::new(poly_expr(0, 0)), Box::new(poly_expr(0, 0))),
        poly_expr(9, 0),
    ];
    let loader = NativeLoader;
    let statements = test_statements();
    let mut transcript = Transcript::init(test_words(0));
    let mut strategy = NativeStrategy { g1: EcPoint::new(1) };
    let r = verify_proof(&protocol, &loader, &statements, &mut transcript, &mut strategy);
    match r {
        Err(Error::MissingQuery(missing)) => {
            assert_eq!(missing.poly, 9);
            assert_eq!(missing.rotation.value, 0);
        },
        other => panic!("expected a missing query, got {:?}", other),
    }
}

#[test]
fn rotation_sets_partition_queries() {
    // Three openings of one poly at rotations -1, 0, 1 and one opening of
    // another poly at rotation 0: exactly two intermediate sets.
    let protocol = Protocol {
        domain: domain(4),
        preprocessed: vec![EcPoint::new(7), EcPoint::new(8)],
        num_statement: 0,
        num_auxiliary: vec![],
        num_challenge: vec![],
        relations: vec![Expression::Product(
            Box::new(poly_expr(0, 0)),
            Box::new(poly_expr(0, 0)),
        )],
        queries: vec![q(0, -1), q(0, 0), q(0, 1), q(1, 0)],
        evaluations: vec![q(0, -1), q(0, 0), q(0, 1), q(1, 0)],
        transcript_initial_state: Scalar::new(99),
    };
    let loader = NativeLoader;
    let sets =
        intermediate_sets(&protocol, &loader, &Scalar::new(3), &Scalar::new(5)).unwrap();
    assert_eq!(sets.len(), 2);
    assert_eq!(sets[0].polys, vec![0]);
    assert_eq!(sets[0].rotations.len(), 3);
    assert!(sets[0].commitment_coeff.is_none());
    assert_eq!(sets[1].polys, vec![1]);
    assert_eq!(sets[1].rotations.len(), 1);
    let cc = sets[1].commitment_coeff.expect("second set carries a coefficient");
    // commitment_coeff == z_s_first / z_s.
    assert_eq!(cc.mul(sets[1].z_s).v, sets[0].z_s.v);
}

#[test]
fn degenerate_challenges_are_non_invertible() {
    let protocol = test_protocol();
    let loader = NativeLoader;
    // z' == z * omega^0 makes the vanishing factor zero.
    let z = Scalar::new(17);
    let r = intermediate_sets(&protocol, &loader, &z, &z);
    assert!(matches!(r, Err(Error::NonInvertible)));
}

#[test]
fn pairing_inputs_are_deterministic() {
    let protocol = test_protocol();
    let loader = NativeLoader;
    let statements = test_statements();
    let mut t1 = Transcript::init(test_words(123));
    let mut t2 = Transcript::init(test_words(123));
    let (p1, lhs1, rhs1) = pairing_inputs(&protocol, &loader, &statements, &mut t1).unwrap();
    let (p2, lhs2, rhs2) = pairing_inputs(&protocol, &loader, &statements, &mut t2).unwrap();
    assert_eq!(lhs1, lhs2);
    assert_eq!(rhs1, rhs2);
    assert_eq!(p1.z.v, p2.z.v);
    assert_eq!(p1.gamma.v, p2.gamma.v);
    assert_eq!(t1.pos, t2.pos);
    assert_eq!(t1.state, t2.state);
}

/// The toy pairing check: with the group written in the exponent,
/// `e(lhs, -g2) * e(rhs, s*g2) == 1` becomes `lhs == s * rhs`.
fn toy_pairing_holds(l: EcPoint, r: EcPoint, s: u64) -> bool {
    l.v == Scalar::new(r.v).mul(Scalar::new(s)).v
}

/// Completes a word stream into an accepting proof: every prover message
/// before `w_prime` is fixed, and `w_prime` is solved from the verifier's
/// own equation `lhs == f + z_prime * rhs`.
fn solve_w_prime(
    protocol: &Protocol,
    statements: &Vec<Vec<u64>>,
    words: &Vec<u64>,
    s_trapdoor: u64,
) -> u64 {
    let loader = NativeLoader;
    let g1 = EcPoint::new(1);
    let mut transcript = Transcript::init(words.clone());
    let (proof, lhs, _rhs) =
        pairing_inputs(protocol, &loader, statements, &mut transcript).unwrap();
    // With w_prime == 0 the collapsed lhs is exactly f evaluated at g1.
    let f = lhs.evaluate(g1);
    let z_prime = proof.z_prime;
    let denom = Scalar::new(s_trapdoor).sub(z_prime);
    let inv = denom.invert().expect("the trapdoor must differ from z_prime");
    Scalar::new(f.v).mul(inv).v
}

#[test]
fn test_shplonk_native() {
    let protocol = test_protocol();
    let loader = NativeLoader;
    let statements = test_statements();
    let s_trapdoor: u64 = 12345;
    let words = test_words(0);
    let w_prime = solve_w_prime(&protocol, &statements, &words, s_trapdoor);
    let mut transcript = Transcript::init(test_words(w_prime));
    let mut strategy = NativeStrategy { g1: EcPoint::new(1) };
    let (l, r) =
        verify_proof(&protocol, &loader, &statements, &mut transcript, &mut strategy).unwrap();
    assert!(toy_pairing_holds(l, r, s_trapdoor));
}

#[test]
fn corrupted_w_prime_fails_the_pairing_check() {
    let protocol = test_protocol();
    let loader = NativeLoader;
    let statements = test_statements();
    let s_trapdoor: u64 = 12345;
    let words = test_words(0);
    let w_prime = solve_w_prime(&protocol, &statements, &words, s_trapdoor);
    // The corrupted transcript still parses, but the check fails.
    let corrupted = (w_prime + 1) % P;
    let mut transcript = Transcript::init(test_words(corrupted));
    let mut strategy = NativeStrategy { g1: EcPoint::new(1) };
    let (l, r) =
        verify_proof(&protocol, &loader, &statements, &mut transcript, &mut strategy).unwrap();
    assert!(!toy_pairing_holds(l, r, s_trapdoor));
}

#[test]
fn empty_statements_verify() {
    let mut protocol = test_protocol();
    protocol.num_statement = 0;
    // With no statements the poly indices shift: auxiliary is 1, vanishing 2.
    protocol.relations = vec![Expression::Product(
        Box::new(poly_expr(0, 0)),
        Box::new(poly_expr(1, 0)),
    )];
    protocol.queries = vec![q(0, 0), q(1, 0), q(2, 0)];
    protocol.evaluations = vec![q(0, 0), q(1, 0)];
    let statements: Vec<Vec<u64>> = vec![];
    let loader = NativeLoader;
    let s_trapdoor: u64 = 4242;
    let words = test_words(0);
    let w_prime = solve_w_prime(&protocol, &statements, &words, s_trapdoor);
    let mut transcript = Transcript::init(test_words(w_prime));
    let mut strategy = NativeStrategy { g1: EcPoint::new(1) };
    let (l, r) =
        verify_proof(&protocol, &loader, &statements, &mut transcript, &mut strategy).unwrap();
    assert!(toy_pairing_holds(l, r, s_trapdoor));
}

#[test]
fn barycentric_weights_interpolate() {
    // One set over rotations {-1, 0, 1}: the normalized weighted sum of a
    // low-degree polynomial's evaluations at the rotated points is its
    // value at z_prime.
    let protocol = Protocol {
        domain: domain(4),
        preprocessed: vec![EcPoint::new(7)],
        num_statement: 0,
        num_auxiliary: vec![],
        num_challenge: vec![],
        relations: vec![Expression::Product(
            Box::new(poly_expr(0, 0)),
            Box::new(poly_expr(0, 0)),
        )],
        queries: vec![q(0, -1), q(0, 0), q(0, 1)],
        evaluations: vec![q(0, -1), q(0, 0), q(0, 1)],
        transcript_initial_state: Scalar::new(99),
    };
    let loader = NativeLoader;
    let z = Scalar::new(3);
    let z_prime = Scalar::new(11);
    let sets = intermediate_sets(&protocol, &loader, &z, &z_prime).unwrap();
    assert_eq!(sets.len(), 1);
    let set = &sets[0];
    assert_eq!(set.rotations.len(), 3);
    // f(X) = 2 X^2 + 5 X + 9.
    let f = |x: Scalar| {
        Scalar::new(2).mul(x).mul(x).add(Scalar::new(5).mul(x)).add(Scalar::new(9))
    };
    let d = domain(4);
    let mut weighted = Scalar::new(0);
    for (j, rot) in set.rotations.iter().enumerate() {
        let x_j = d.rotate_scalar(z, *rot);
        weighted = weighted.add(set.evaluation_coeffs[j].mul(f(x_j)));
    }
    // The first set's remainder coefficient is the inverse weight sum.
    assert_eq!(weighted.mul(set.remainder_coeff).v, f(z_prime).v);
}

#[test]
fn msm_value_laws_on_values() {
    let g1 = EcPoint::new(1);
    let a = Msm::base(EcPoint::new(10)).scale(Scalar::new(3));
    let b = Msm::scalar(Scalar::new(4)).add(Msm::base(EcPoint::new(20)));
    let c = Msm::base(EcPoint::new(30)).scale(Scalar::new(7));
    // Addition commutes and associates under evaluation.
    let ab = a.duplicate().add(b.duplicate());
    let ba = b.duplicate().add(a.duplicate());
    assert_eq!(ab.evaluate(g1).v, ba.evaluate(g1).v);
    let ab_c = a.duplicate().add(b.duplicate()).add(c.duplicate());
    let a_bc = a.duplicate().add(b.duplicate().add(c.duplicate()));
    assert_eq!(ab_c.evaluate(g1).v, a_bc.evaluate(g1).v);
    // Scaling distributes over addition.
    let s = Scalar::new(9);
    let lhs = a.duplicate().add(b.duplicate()).scale(s);
    let rhs = a.duplicate().scale(s).add(b.duplicate().scale(s));
    assert_eq!(lhs.evaluate(g1).v, rhs.evaluate(g1).v);
}

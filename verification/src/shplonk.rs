//! The proof reader and the verifier driver.

use vstd::prelude::*;
use crate::common::CommonPolynomialEvaluation;
use crate::expression::{Query, Rotation};
use crate::field::{views_of, Scalar, P};
use crate::group::{EcPoint, Msm};
use crate::loader::NativeLoader;
use crate::protocol::{rel_max_degree, usum, Protocol};
use crate::transcript::{
    absorb_range, absorb_s, absorb_vals, point_views_of, squeeze_iter, squeeze_s, squeeze_seq,
    valid_range, words, Transcript, TranscriptV,
};
use crate::Error;

verus! {

/// The mathematical content of a deserialized proof.
pub ghost struct ProofV {
    pub statements: Seq<Seq<int>>,
    pub auxiliaries: Seq<int>,
    pub challenges: Seq<int>,
    pub alpha: int,
    pub quotients: Seq<int>,
    pub z: int,
    pub evaluations: Seq<int>,
    pub mu: int,
    pub gamma: int,
    pub w: int,
    pub z_prime: int,
    pub w_prime: int,
}

/// The transcript output, deserialized in canonical order.
pub struct Proof {
    pub statements: Vec<Vec<Scalar>>,
    pub auxiliaries: Vec<EcPoint>,
    pub challenges: Vec<Scalar>,
    pub alpha: Scalar,
    pub quotients: Vec<EcPoint>,
    pub z: Scalar,
    pub evaluations: Vec<Scalar>,
    pub mu: Scalar,
    pub gamma: Scalar,
    pub w: EcPoint,
    pub z_prime: Scalar,
    pub w_prime: EcPoint,
}

/// The views of a sequence of statement rows.
pub open spec fn stmt_views(s: Seq<Vec<Scalar>>) -> Seq<Seq<int>> {
    Seq::new(s.len(), |i: int| views_of(s[i]@))
}

impl View for Proof {
    type V = ProofV;

    open spec fn view(&self) -> ProofV {
        ProofV {
            statements: stmt_views(self.statements@),
            auxiliaries: point_views_of(self.auxiliaries@),
            challenges: views_of(self.challenges@),
            alpha: self.alpha@,
            quotients: point_views_of(self.quotients@),
            z: self.z@,
            evaluations: views_of(self.evaluations@),
            mu: self.mu@,
            gamma: self.gamma@,
            w: self.w@,
            z_prime: self.z_prime@,
            w_prime: self.w_prime@,
        }
    }
}

/// The statement values once loaded: each word reduced into the field.
pub open spec fn loaded_stmts(stv: Seq<Seq<u64>>) -> Seq<Seq<int>> {
    Seq::new(stv.len(), |i: int| Seq::new(stv[i].len(), |j: int| stv[i][j] as int % (P as int)))
}

/// Whether the statements fit the protocol: the declared count, and row
/// lengths bounded by the domain size.
pub open spec fn stmts_ok(p: Protocol, stv: Seq<Seq<u64>>) -> bool {
    &&& stv.len() == p.num_statement
    &&& forall|i: int| 0 <= i < stv.len() ==> (#[trigger] stv[i]).len() <= p.domain.n
}

/// The sponge state after absorbing the statement rows in order.
pub open spec fn absorb_rows(st: int, rows: Seq<Seq<int>>) -> int
    decreases rows.len(),
{
    if rows.len() == 0 {
        st
    } else {
        absorb_vals(absorb_rows(st, rows.drop_last()), rows.last())
    }
}

pub proof fn lemma_absorb_vals_snoc(st: int, vals: Seq<int>, v: int)
    ensures
        absorb_vals(st, vals.push(v)) == absorb_s(absorb_vals(st, vals), v),
{
    assert(vals.push(v).drop_last() =~= vals);
}

pub proof fn lemma_absorb_rows_snoc(st: int, rows: Seq<Seq<int>>, row: Seq<int>)
    ensures
        absorb_rows(st, rows.push(row)) == absorb_vals(absorb_rows(st, rows), row),
{
    assert(rows.push(row).drop_last() =~= rows);
}

/// Where phase `i`'s auxiliary reads start.
pub open spec fn phase_pos(p: Protocol, pos0: int, i: int) -> int {
    pos0 + usum(p.num_auxiliary@.take(i))
}

/// The sponge state after the first `i` auxiliary/challenge phases.
pub open spec fn phase_state(p: Protocol, data: Seq<u64>, st0: int, pos0: int, i: nat) -> int
    decreases i,
{
    if i == 0 {
        st0
    } else {
        let prev = phase_state(p, data, st0, pos0, (i - 1) as nat);
        let absorbed = absorb_range(
            prev,
            data,
            phase_pos(p, pos0, i - 1),
            p.num_auxiliary@[i - 1] as nat,
        );
        squeeze_iter(absorbed, p.num_challenge@[i - 1] as nat)
    }
}

/// The challenges squeezed over the first `i` phases, flattened in phase
/// order.
pub open spec fn phase_chals(p: Protocol, data: Seq<u64>, st0: int, pos0: int, i: nat) -> Seq<int>
    decreases i,
{
    if i == 0 {
        Seq::empty()
    } else {
        let prev = phase_state(p, data, st0, pos0, (i - 1) as nat);
        let absorbed = absorb_range(
            prev,
            data,
            phase_pos(p, pos0, i - 1),
            p.num_auxiliary@[i - 1] as nat,
        );
        phase_chals(p, data, st0, pos0, (i - 1) as nat) + squeeze_seq(
            absorbed,
            p.num_challenge@[i - 1] as nat,
        )
    }
}

/// How many words a whole proof occupies in the stream.
pub open spec fn total_read(p: Protocol) -> int {
    p.total_aux() + (rel_max_degree(p.relations@) - 1) + p.evaluations@.len() + 2
}

/// Whether reading succeeds: statements fit and the whole stream reads.
pub open spec fn read_ok(p: Protocol, stv: Seq<Seq<u64>>, t0: TranscriptV) -> bool {
    &&& stmts_ok(p, stv)
    &&& valid_range(t0.data, t0.pos, total_read(p) as nat)
}

/// Which error reading fails with when it does.
pub open spec fn read_err(p: Protocol, stv: Seq<Seq<u64>>) -> Error {
    if !stmts_ok(p, stv) {
        Error::InvalidInstances
    } else {
        Error::TranscriptRead
    }
}

/// The sponge state after the statement rows.
pub open spec fn st_stmt(p: Protocol, stv: Seq<Seq<u64>>, t0: TranscriptV) -> int {
    absorb_rows(t0.state, loaded_stmts(stv))
}

/// The sponge state after all auxiliary/challenge phases.
pub open spec fn st_phases(p: Protocol, stv: Seq<Seq<u64>>, t0: TranscriptV) -> int {
    phase_state(p, t0.data, st_stmt(p, stv, t0), t0.pos, p.num_auxiliary@.len())
}

/// The proof a faithful read of the stream produces, meaningful under
/// `read_ok`.
pub open spec fn read_model(p: Protocol, stv: Seq<Seq<u64>>, t0: TranscriptV) -> ProofV {
    let data = t0.data;
    let pos_a = t0.pos + p.total_aux();
    let alpha = squeeze_s(st_phases(p, stv, t0));
    let nq = (rel_max_degree(p.relations@) - 1) as nat;
    let st2 = absorb_range(alpha, data, pos_a, nq);
    let pos2 = pos_a + nq;
    let z = squeeze_s(st2);
    let ne = p.evaluations@.len();
    let st3 = absorb_range(z, data, pos2, ne);
    let pos3 = pos2 + ne;
    let mu = squeeze_s(st3);
    let gamma = squeeze_s(mu);
    let w = data[pos3] as int % (P as int);
    let st4 = absorb_s(gamma, w);
    let z_prime = squeeze_s(st4);
    let w_prime = data[pos3 + 1] as int % (P as int);
    ProofV {
        statements: loaded_stmts(stv),
        auxiliaries: words(data, t0.pos, p.total_aux() as nat),
        challenges: phase_chals(p, data, st_stmt(p, stv, t0), t0.pos, p.num_auxiliary@.len()),
        alpha,
        quotients: words(data, pos_a, nq),
        z,
        evaluations: words(data, pos2, ne),
        mu,
        gamma,
        w,
        z_prime,
        w_prime,
    }
}

/// The transcript a faithful read leaves behind.
pub open spec fn read_end(p: Protocol, stv: Seq<Seq<u64>>, t0: TranscriptV) -> TranscriptV {
    let m = read_model(p, stv, t0);
    TranscriptV {
        data: t0.data,
        pos: t0.pos + total_read(p),
        state: absorb_s(m.z_prime, m.w_prime),
    }
}

fn append_points(dst: &mut Vec<EcPoint>, src: Vec<EcPoint>)
    ensures
        point_views_of(final (dst)@) == point_views_of(old(dst)@) + point_views_of(src@),
{
    let ghost d0 = dst@;
    let mut i: usize = 0;
    while i < src.len()
        invariant
            i <= src@.len(),
            point_views_of(dst@) =~= point_views_of(d0) + point_views_of(src@.take(i as int)),
        decreases src@.len() - i,
    {
        let ghost prev = dst@;
        let e = src[i];
        dst.push(e);
        proof {
            assert(dst@ == prev.push(e));
            assert(point_views_of(dst@) =~= point_views_of(prev).push(e@));
            assert(point_views_of(d0) + point_views_of(src@.take(i + 1)) =~= (point_views_of(d0)
                + point_views_of(src@.take(i as int))).push(e@));
        }
        i = i + 1;
    }
    proof {
        assert(src@.take(src@.len() as int) =~= src@);
        assert(point_views_of(dst@) =~= point_views_of(d0) + point_views_of(src@));
    }
}

fn append_scalars(dst: &mut Vec<Scalar>, src: Vec<Scalar>)
    ensures
        views_of(final (dst)@) == views_of(old(dst)@) + views_of(src@),
{
    let ghost d0 = dst@;
    let mut i: usize = 0;
    while i < src.len()
        invariant
            i <= src@.len(),
            views_of(dst@) =~= views_of(d0) + views_of(src@.take(i as int)),
        decreases src@.len() - i,
    {
        let ghost prev = dst@;
        let e = src[i];
        dst.push(e);
        proof {
            assert(dst@ == prev.push(e));
            assert(views_of(dst@) =~= views_of(prev).push(e@));
            assert(views_of(d0) + views_of(src@.take(i + 1)) =~= (views_of(d0) + views_of(
                src@.take(i as int),
            )).push(e@));
        }
        i = i + 1;
    }
    proof {
        assert(src@.take(src@.len() as int) =~= src@);
        assert(views_of(dst@) =~= views_of(d0) + views_of(src@));
    }
}

/// The largest relation degree, as the quotient count needs it.
fn max_relation_degree(relations: &Vec<crate::expression::Expression>) -> (r: i64)
    requires
        relations@.len() >= 1,
        forall|i: int|
            0 <= i < relations@.len() ==> #[trigger] crate::expression::degree_of(relations@[i])
                <= u32::MAX,
    ensures
        r == rel_max_degree(relations@),
        0 <= r <= u32::MAX,
{
    let mut md: i64 = 0;
    let mut i: usize = 0;
    while i < relations.len()
        invariant
            i <= relations@.len(),
            md == rel_max_degree(relations@.take(i as int)),
            0 <= md <= u32::MAX,
            forall|k: int|
                0 <= k < relations@.len() ==> #[trigger] crate::expression::degree_of(
                    relations@[k],
                ) <= u32::MAX,
        decreases relations@.len() - i,
    {
        let d = relations[i].degree();
        if d > md {
            md = d;
        }
        proof {
            assert(relations@.take(i + 1).drop_last() =~= relations@.take(i as int));
            assert(relations@.take(i + 1).last() == relations@[i as int]);
        }
        i = i + 1;
    }
    proof {
        assert(relations@.take(relations@.len() as int) =~= relations@);
    }
    md
}

impl Proof {
    /// Drives the transcript in the canonical order, producing the typed
    /// proof fields.  Fails with `InvalidInstances` (before touching the
    /// transcript) when the statements do not fit the protocol, and with
    /// `TranscriptRead` when the stream ends early or holds a word that is
    /// not a canonical encoding.
    pub fn read(
        protocol: &Protocol,
        loader: &NativeLoader,
        statements: &Vec<Vec<u64>>,
        transcript: &mut Transcript,
    ) -> (r: Result<Proof, Error>)
        requires
            protocol.read_wf(),
        ensures
            r is Ok <==> read_ok(*protocol, stmt_words(statements@), old(transcript)@),
            r matches Ok(pf) ==> pf@ == read_model(
                *protocol,
                stmt_words(statements@),
                old(transcript)@,
            ) && final (transcript)@ == read_end(
                *protocol,
                stmt_words(statements@),
                old(transcript)@,
            ),
            r matches Err(e) ==> e == read_err(*protocol, stmt_words(statements@)),
            !stmts_ok(*protocol, stmt_words(statements@)) ==> final (transcript)@ == old(
                transcript,
            )@,
    {
        let ghost p = *protocol;
        let ghost stv = stmt_words(statements@);
        let ghost t0 = old(transcript)@;

        // Statement shape checks, before any transcript interaction.
        if statements.len() != protocol.num_statement {
            return Err(Error::InvalidInstances);
        }
        let mut i: usize = 0;
        while i < statements.len()
            invariant
                i <= statements@.len(),
                p == *protocol,
                stv == stmt_words(statements@),
                p.domain.n <= 0x7fff_ffff,
                forall|k: int| 0 <= k < i ==> (#[trigger] stv[k]).len() <= p.domain.n,
            decreases statements@.len() - i,
        {
            if statements[i].len() as u64 > protocol.domain.n {
                proof {
                    assert(stv[i as int].len() > p.domain.n);
                }
                return Err(Error::InvalidInstances);
            }
            i = i + 1;
        }
        proof {
            assert(stmts_ok(p, stv));
        }

        // Absorb the statements row by row.
        let mut loaded: Vec<Vec<Scalar>> = Vec::new();
        let mut i: usize = 0;
        while i < statements.len()
            invariant
                i <= statements@.len(),
                stv == stmt_words(statements@),
                t0.data == old(transcript)@.data,
                transcript@.data == t0.data,
                transcript@.pos == t0.pos,
                loaded@.len() == i,
                stmt_views(loaded@) =~= loaded_stmts(stv).take(i as int),
                transcript@.state == absorb_rows(t0.state, loaded_stmts(stv).take(i as int)),
            decreases statements@.len() - i,
        {
            let row = &statements[i];
            let ghost st_row = transcript@.state;
            let mut lrow: Vec<Scalar> = Vec::new();
            let mut j: usize = 0;
            while j < row.len()
                invariant
                    j <= row@.len(),
                    row@ == stv[i as int],
                    0 <= i < stv.len(),
                    transcript@.data == t0.data,
                    transcript@.pos == t0.pos,
                    lrow@.len() == j,
                    views_of(lrow@) =~= loaded_stmts(stv)[i as int].take(j as int),
                    transcript@.state == absorb_vals(
                        st_row,
                        loaded_stmts(stv)[i as int].take(j as int),
                    ),
                decreases row@.len() - j,
            {
                let s = loader.load_var(row[j]);
                let ghost vals = loaded_stmts(stv)[i as int].take(j as int);
                match transcript.common_scalar(&s) {
                    Ok(_) => {},
                    Err(e) => {
                        proof {
                            assert(false);
                        }
                        return Err(e);
                    },
                }
                lrow.push(s);
                proof {
                    lemma_absorb_vals_snoc(st_row, vals, s@);
                    assert(vals.push(s@) =~= loaded_stmts(stv)[i as int].take(j + 1));
                    assert(views_of(lrow@) =~= loaded_stmts(stv)[i as int].take(j + 1));
                }
                j = j + 1;
            }
            let ghost rows = loaded_stmts(stv).take(i as int);
            loaded.push(lrow);
            proof {
                assert(loaded_stmts(stv)[i as int].take(stv[i as int].len() as int)
                    =~= loaded_stmts(stv)[i as int]);
                lemma_absorb_rows_snoc(t0.state, rows, loaded_stmts(stv)[i as int]);
                assert(rows.push(loaded_stmts(stv)[i as int]) =~= loaded_stmts(stv).take(i + 1));
                assert(stmt_views(loaded@) =~= loaded_stmts(stv).take(i + 1));
            }
            i = i + 1;
        }
        proof {
            assert(loaded_stmts(stv).take(stv.len() as int) =~= loaded_stmts(stv));
            assert(transcript@.state == st_stmt(p, stv, t0));
        }

        // Auxiliary commitments and challenges, phase by phase.
        let ghost st1 = st_stmt(p, stv, t0);
        let mut auxiliaries: Vec<EcPoint> = Vec::new();
        let mut challenges: Vec<Scalar> = Vec::new();
        let mut i: usize = 0;
        while i < protocol.num_auxiliary.len()
            invariant
                i <= protocol.num_auxiliary@.len(),
                p == *protocol,
                p.read_wf(),
                stv == stmt_words(statements@),
                stmts_ok(p, stv),
                t0 == old(transcript)@,
                t0.data == old(transcript)@.data,
                st1 == st_stmt(p, stv, t0),
                transcript@.data == t0.data,
                transcript@.pos == phase_pos(p, t0.pos, i as int),
                valid_range(t0.data, t0.pos, usum(p.num_auxiliary@.take(i as int)) as nat),
                point_views_of(auxiliaries@) == words(
                    t0.data,
                    t0.pos,
                    usum(p.num_auxiliary@.take(i as int)) as nat,
                ),
                views_of(challenges@) == phase_chals(p, t0.data, st1, t0.pos, i as nat),
                transcript@.state == phase_state(p, t0.data, st1, t0.pos, i as nat),
            decreases protocol.num_auxiliary@.len() - i,
        {
            let ghost taken = usum(p.num_auxiliary@.take(i as int));
            proof {
                crate::protocol::lemma_usum_take_le(p.num_auxiliary@, i as int);
                assert(p.num_auxiliary@.take(i + 1).drop_last() =~= p.num_auxiliary@.take(i as int));
                assert(usum(p.num_auxiliary@.take(i + 1)) == taken + p.num_auxiliary@[i as int]);
                crate::protocol::lemma_usum_take_le(p.num_auxiliary@, i + 1);
                crate::protocol::lemma_usum_nonneg(p.num_auxiliary@);
            }
            let aux = match transcript.read_n_ec_points(protocol.num_auxiliary[i]) {
                Ok(v) => v,
                Err(e) => {
                    proof {
                        lemma_read_fail_prefix(p, t0, taken as nat, p.num_auxiliary@[i as int] as nat);
                    }
                    return Err(e);
                },
            };
            let chal = transcript.squeeze_n_challenges(protocol.num_challenge[i]);
            append_points(&mut auxiliaries, aux);
            append_scalars(&mut challenges, chal);
            proof {
                crate::transcript::lemma_valid_range_split(
                    t0.data,
                    t0.pos,
                    taken as nat,
                    p.num_auxiliary@[i as int] as nat,
                );
                crate::transcript::lemma_words_split(
                    t0.data,
                    t0.pos,
                    taken as nat,
                    p.num_auxiliary@[i as int] as nat,
                );
            }
            i = i + 1;
        }
        proof {
            assert(p.num_auxiliary@.take(p.num_auxiliary@.len() as int) =~= p.num_auxiliary@);
        }

        let alpha = transcript.squeeze_challenge();

        // Quotient commitments.
        let md = max_relation_degree(&protocol.relations);
        let nq = (md - 1) as usize;
        let ghost pos_a = t0.pos + p.total_aux();
        let quotients = match transcript.read_n_ec_points(nq) {
            Ok(v) => v,
            Err(e) => {
                proof {
                    crate::protocol::lemma_usum_nonneg(p.num_auxiliary@);
                    lemma_read_fail_prefix(p, t0, p.total_aux() as nat, nq as nat);
                }
                return Err(e);
            },
        };

        let z = transcript.squeeze_challenge();
        let evaluations = match transcript.read_n_scalars(protocol.evaluations.len()) {
            Ok(v) => v,
            Err(e) => {
                proof {
                    crate::protocol::lemma_usum_nonneg(p.num_auxiliary@);
                    lemma_read_fail_prefix(
                        p,
                        t0,
                        (p.total_aux() + nq) as nat,
                        p.evaluations@.len(),
                    );
                }
                return Err(e);
            },
        };

        let mu = transcript.squeeze_challenge();
        let gamma = transcript.squeeze_challenge();
        let w = match transcript.read_ec_point() {
            Ok(v) => v,
            Err(e) => {
                proof {
                    crate::protocol::lemma_usum_nonneg(p.num_auxiliary@);
                    let before = (p.total_aux() + nq + p.evaluations@.len()) as nat;
                    assert(!crate::transcript::valid_word(t0.data, t0.pos + before));
                    assert(!valid_range(t0.data, t0.pos + before, 1)) by {
                        if valid_range(t0.data, t0.pos + before, 1) {
                            assert(crate::transcript::valid_word(t0.data, t0.pos + before + 0));
                        }
                    }
                    lemma_read_fail_prefix(p, t0, before, 1);
                }
                return Err(e);
            },
        };
        let z_prime = transcript.squeeze_challenge();
        let w_prime = match transcript.read_ec_point() {
            Ok(v) => v,
            Err(e) => {
                proof {
                    crate::protocol::lemma_usum_nonneg(p.num_auxiliary@);
                    let before = (p.total_aux() + nq + p.evaluations@.len() + 1) as nat;
                    assert(!crate::transcript::valid_word(t0.data, t0.pos + before));
                    assert(!valid_range(t0.data, t0.pos + before, 1)) by {
                        if valid_range(t0.data, t0.pos + before, 1) {
                            assert(crate::transcript::valid_word(t0.data, t0.pos + before + 0));
                        }
                    }
                    lemma_read_fail_prefix(p, t0, before, 1);
                }
                return Err(e);
            },
        };

        let pf = Proof {
            statements: loaded,
            auxiliaries,
            challenges,
            alpha,
            quotients,
            z,
            evaluations,
            mu,
            gamma,
            w,
            z_prime,
            w_prime,
        };
        proof {
            let data = t0.data;
            let n_aux = p.total_aux() as nat;
            let nqn = nq as nat;
            let ne = p.evaluations@.len();
            let pos2 = pos_a + nqn;
            let pos3 = pos2 + ne;
            crate::protocol::lemma_usum_nonneg(p.num_auxiliary@);
            assert(valid_range(data, pos3, 2)) by {
                assert forall|j: int| 0 <= j < 2 implies #[trigger] crate::transcript::valid_word(
                    data,
                    pos3 + j,
                ) by {
                    if j == 0 {
                        assert(crate::transcript::valid_word(data, pos3));
                    } else {
                        assert(crate::transcript::valid_word(data, pos3 + 1));
                    }
                }
            }
            crate::transcript::lemma_valid_range_split(data, pos2, ne, 2);
            crate::transcript::lemma_valid_range_split(data, pos_a, nqn, (ne + 2) as nat);
            crate::transcript::lemma_valid_range_split(data, t0.pos, n_aux, (nqn + ne + 2) as nat);
            assert(read_ok(p, stv, t0));
            assert(pf@ == read_model(p, stv, t0));
            assert(transcript@ == read_end(p, stv, t0));
        }
        Ok(pf)
    }
}

/// The views of the raw statement words.
pub open spec fn stmt_words(s: Seq<Vec<u64>>) -> Seq<Seq<u64>> {
    Seq::new(s.len(), |i: int| s[i]@)
}

/// The views of a commitment table.
pub open spec fn cmt_views_of(s: Seq<(usize, Msm)>) -> Seq<(int, crate::group::MsmV)> {
    Seq::new(s.len(), |i: int| ((s[i].0 as int, s[i].1@)))
}

/// Whether the keys of a commitment table are pairwise distinct.
pub open spec fn cmt_distinct(s: Seq<(usize, Msm)>) -> bool {
    forall|j1: int, j2: int| 0 <= j1 < j2 < s.len() ==> (#[trigger] s[j1]).0 != (#[trigger] s[j2]).0
}

/// The quotient aggregate: `sum over i of z^(n*i) * base(quotients[i])`,
/// with the powers of `z^n` supplied by the common-polynomial evaluation.
pub open spec fn quotient_msm_model(quots: Seq<int>, zn: int, k: nat) -> crate::group::MsmV
    decreases k,
{
    if k <= 1 {
        crate::group::mv_scale(crate::group::mv_base(quots[0]), crate::field::fpow(zn, 0))
    } else {
        crate::group::mv_add(
            quotient_msm_model(quots, zn, (k - 1) as nat),
            crate::group::mv_scale(
                crate::group::mv_base(quots[k - 1]),
                crate::field::fpow(zn, (k - 1) as nat),
            ),
        )
    }
}

/// The commitment table the proof induces: each preprocessed poly as a
/// bare base, each auxiliary behind the statement gap, and the aggregated
/// quotient under the synthetic vanishing index.
pub open spec fn commitments_model(p: Protocol, pf: ProofV, zn: int) -> Seq<
    (int, crate::group::MsmV),
> {
    Seq::new(p.preprocessed@.len(), |i: int| (i, crate::group::mv_base(p.preprocessed@[i]@)))
        + Seq::new(
        pf.auxiliaries.len(),
        |i: int| (p.aux_offset() + i, crate::group::mv_base(pf.auxiliaries[i])),
    ) + seq![
        (p.vanishing_idx(), quotient_msm_model(pf.quotients, zn, pf.quotients.len() as nat)),
    ]
}

impl Proof {
    /// Assembles the commitment table of this proof.
    pub fn commitments(
        &self,
        protocol: &Protocol,
        loader: &NativeLoader,
        common_poly_eval: &CommonPolynomialEvaluation,
    ) -> (r: Vec<(usize, Msm)>)
        requires
            protocol.wf(),
            self@.quotients.len() >= 1,
            self@.auxiliaries.len() == protocol.total_aux(),
        ensures
            cmt_views_of(r@) == commitments_model(*protocol, self@, common_poly_eval.zn@),
            cmt_distinct(r@),
    {
        let ghost p = *protocol;
        let ghost model = commitments_model(p, self@, common_poly_eval.zn@);
        let mut r: Vec<(usize, Msm)> = Vec::new();
        let np = protocol.preprocessed.len();
        let mut i: usize = 0;
        while i < np
            invariant
                i <= np,
                np == p.preprocessed@.len(),
                p == *protocol,
                r@.len() == i,
                forall|k: int|
                    0 <= k < i ==> (#[trigger] r@[k]).0 == k && r@[k].1@ == crate::group::mv_base(
                        p.preprocessed@[k]@,
                    ),
            decreases np - i,
        {
            r.push((i, Msm::base(protocol.preprocessed[i])));
            i = i + 1;
        }
        let ghost naux = self.auxiliaries@.len();
        let aux_offset = protocol.preprocessed.len() + protocol.num_statement;
        proof {
            crate::protocol::lemma_usum_nonneg(p.num_auxiliary@);
        }
        let mut i: usize = 0;
        while i < self.auxiliaries.len()
            invariant
                i <= naux,
                naux == self.auxiliaries@.len(),
                naux == p.total_aux(),
                p == *protocol,
                aux_offset == p.aux_offset(),
                p.wf(),
                np == p.preprocessed@.len(),
                r@.len() == np + i,
                forall|k: int|
                    0 <= k < np ==> (#[trigger] r@[k]).0 == k && r@[k].1@ == crate::group::mv_base(
                        p.preprocessed@[k]@,
                    ),
                forall|k: int|
                    np <= k < np + i ==> (#[trigger] r@[k]).0 == p.aux_offset() + (k - np)
                        && r@[k].1@ == crate::group::mv_base(self.auxiliaries@[k - np]@),
            decreases naux - i,
        {
            proof {
                crate::protocol::lemma_usum_nonneg(p.num_auxiliary@);
            }
            r.push((aux_offset + i, Msm::base(self.auxiliaries[i])));
            i = i + 1;
        }
        // The aggregated quotient commitment.
        let powers_of_zn = common_poly_eval.zn.powers(self.quotients.len());
        let mut acc = Msm::base(self.quotients[0]).scale(powers_of_zn[0]);
        let mut k: usize = 1;
        while k < self.quotients.len()
            invariant
                1 <= k <= self.quotients@.len(),
                powers_of_zn@.len() == self.quotients@.len(),
                forall|j: int|
                    0 <= j < powers_of_zn@.len() ==> (#[trigger] powers_of_zn@[j])@
                        == crate::field::fpow(common_poly_eval.zn@, j as nat),
                acc@ == quotient_msm_model(
                    point_views_of(self.quotients@),
                    common_poly_eval.zn@,
                    k as nat,
                ),
            decreases self.quotients@.len() - k,
        {
            acc = acc.add(Msm::base(self.quotients[k]).scale(powers_of_zn[k]));
            k = k + 1;
        }
        let vp = protocol.vanishing_poly();
        let ghost before = r@;
        r.push((vp, acc));
        proof {
            assert forall|j1: int, j2: int| 0 <= j1 < j2 < r@.len() implies (#[trigger] r@[j1]).0
                != (#[trigger] r@[j2]).0 by {
                crate::protocol::lemma_usum_nonneg(p.num_auxiliary@);
            }
            assert(cmt_views_of(r@) =~= model);
        }
        r
    }
}

/// The views of an evaluation table.
pub open spec fn eval_views_of(s: Seq<(Query, Scalar)>) -> Seq<(crate::expression::QueryV, int)> {
    Seq::new(s.len(), |i: int| ((s[i].0@, s[i].1@)))
}

/// The length of the longest loaded statement row.
pub open spec fn max_row_len(rows: Seq<Seq<int>>) -> int
    decreases rows.len(),
{
    if rows.len() == 0 {
        0
    } else if max_row_len(rows.drop_last()) >= rows.last().len() {
        max_row_len(rows.drop_last())
    } else {
        rows.last().len() as int
    }
}

/// `stmt_i(z) = sum over j of statement_i[j] * L_j(z)`.
pub open spec fn stmt_eval(d: crate::protocol::Domain, z: int, row: Seq<int>) -> int {
    crate::field::fsum(
        Seq::new(row.len(), |j: int| crate::field::fmul(row[j], crate::protocol::lag_eval(d, z, j))),
    )
}

/// The evaluation table before the quotient entry: one synthetic entry per
/// statement row, then the transcript-provided evaluations under the
/// protocol's query plan.
pub open spec fn table0_model(p: Protocol, pf: ProofV) -> Seq<(crate::expression::QueryV, int)> {
    Seq::new(
        pf.statements.len(),
        |i: int|
            (
                crate::expression::QueryV { poly: p.preprocessed@.len() + i, rotation: 0 },
                stmt_eval(p.domain, pf.z, pf.statements[i]),
            ),
    ) + Seq::new(p.evaluations@.len(), |k: int| (p.evaluations@[k]@, pf.evaluations[k]))
}

/// The environment relations are evaluated in.
pub open spec fn env_model(p: Protocol, pf: ProofV) -> crate::expression::EvalEnv {
    crate::expression::EvalEnv {
        identity: pf.z,
        lagrange: Map::new(
            |k: int| lag_domain(p, pf).contains(k),
            |k: int| crate::protocol::lag_eval(p.domain, pf.z, k),
        ),
        lagrange_keys: lag_domain(p, pf),
        evals: crate::expression::qv_map(table0_model(p, pf)),
        eval_keys: crate::expression::qv_keys(table0_model(p, pf)),
        challenges: pf.challenges,
    }
}

/// The Lagrange indices the evaluation step may read.
pub open spec fn lag_domain(p: Protocol, pf: ProofV) -> Set<int> {
    rels_used(p.relations@).union(Set::new(|x: int| 0 <= x < max_row_len(pf.statements)))
}

/// The relation values in order, or the first error their evaluation hits.
pub open spec fn rel_vals(
    rels: Seq<crate::expression::Expression>,
    env: crate::expression::EvalEnv,
) -> Result<Seq<int>, Error>
    decreases rels.len(),
{
    if rels.len() == 0 {
        Ok(Seq::empty())
    } else {
        match rel_vals(rels.drop_last(), env) {
            Ok(vs) => match crate::expression::eval_expr(rels.last(), env) {
                Ok(v) => Ok(vs.push(v)),
                Err(e) => Err(e),
            },
            Err(e) => Err(e),
        }
    }
}

/// The relation values weighted by descending powers of `alpha`, for a
/// fold over `nr` relations.
pub open spec fn alpha_terms(alpha: int, nr: int, vs: Seq<int>) -> Seq<int> {
    Seq::new(
        vs.len(),
        |i: int| crate::field::fmul(crate::field::fpow(alpha, (nr - 1 - i) as nat), vs[i]),
    )
}

/// `Q(z) = (sum over i of alpha^(R-1-i) * relation_i(z)) * (z^n - 1)^-1`.
pub open spec fn quotient_eval(vs: Seq<int>, alpha: int, zn1inv: int) -> int {
    crate::field::fmul(crate::field::fsum(alpha_terms(alpha, vs.len() as int, vs)), zn1inv)
}

/// Appending one value extends the weighted terms pointwise.
pub proof fn lemma_alpha_terms_snoc(alpha: int, nr: int, vs: Seq<int>, v: int)
    ensures
        alpha_terms(alpha, nr, vs.push(v)).drop_last() == alpha_terms(alpha, nr, vs),
        alpha_terms(alpha, nr, vs.push(v)).last() == crate::field::fmul(
            crate::field::fpow(alpha, (nr - 1 - vs.len()) as nat),
            v,
        ),
{
    assert(alpha_terms(alpha, nr, vs.push(v)).drop_last() =~= alpha_terms(alpha, nr, vs));
}

/// The final evaluation table, or the first evaluation error.
pub open spec fn evaluations_model(p: Protocol, pf: ProofV) -> Result<
    Seq<(crate::expression::QueryV, int)>,
    Error,
> {
    match rel_vals(p.relations@, env_model(p, pf)) {
        Ok(vs) => Ok(
            table0_model(p, pf).push(
                (
                    crate::expression::QueryV { poly: p.vanishing_idx(), rotation: 0 },
                    quotient_eval(
                        vs,
                        pf.alpha,
                        crate::field::finv(
                            crate::field::fsub(crate::protocol::zn_of(p.domain, pf.z), 1),
                        ),
                    ),
                ),
            ),
        ),
        Err(e) => Err(e),
    }
}

impl Proof {
    /// Builds the evaluation table: statement evaluations via the Lagrange
    /// basis, the transcript-provided evaluations, and the reconstructed
    /// quotient evaluation under the synthetic vanishing index.  Fails with
    /// `MissingQuery` or `MissingChallenge` exactly when a relation
    /// references an entry the table or the challenge list does not hold.
    pub fn evaluations(
        &self,
        protocol: &Protocol,
        loader: &NativeLoader,
        common_poly_eval: &CommonPolynomialEvaluation,
    ) -> (r: Result<Vec<(Query, Scalar)>, Error>)
        requires
            protocol.wf(),
            self@.statements.len() == protocol.num_statement,
            forall|i: int|
                0 <= i < self@.statements.len() ==> (#[trigger] self@.statements[i]).len()
                    <= protocol.domain.n,
            self@.evaluations.len() == protocol.evaluations@.len(),
            common_poly_eval.z@ == self@.z,
            crate::expression::lag_distinct(common_poly_eval.lagranges@),
            lag_domain(*protocol, self@) <= crate::expression::lag_keys(
                common_poly_eval.lagranges@,
            ),
            forall|k: int|
                crate::expression::lag_keys(common_poly_eval.lagranges@).contains(k)
                    ==> #[trigger] crate::expression::lag_map(common_poly_eval.lagranges@)[k]
                    == crate::protocol::lag_eval(protocol.domain, self@.z, k),
            common_poly_eval.zn_minus_one_inv@ == crate::field::finv(
                crate::field::fsub(crate::protocol::zn_of(protocol.domain, self@.z), 1),
            ),
        ensures
            r is Ok <==> evaluations_model(*protocol, self@) is Ok,
            r matches Ok(t) ==> {
                &&& eval_views_of(t@) == evaluations_model(*protocol, self@).unwrap()
                &&& crate::expression::eval_distinct(t@)
            },
            r matches Err(e) ==> evaluations_model(*protocol, self@) == Result::<
                Seq<(crate::expression::QueryV, int)>,
                Error,
            >::Err(e),
    {
        let ghost p = *protocol;
        let ghost pf = self@;
        let ghost t0m = table0_model(p, pf);
        let np = protocol.preprocessed.len();
        let mut table: Vec<(Query, Scalar)> = Vec::new();

        // Statement evaluations.
        let mut i: usize = 0;
        while i < self.statements.len()
            invariant
                i <= self.statements@.len(),
                p == *protocol,
                pf == self@,
                p.wf(),
                np == p.preprocessed@.len(),
                t0m == table0_model(p, pf),
                pf.statements.len() == p.num_statement,
                forall|k: int|
                    0 <= k < pf.statements.len() ==> (#[trigger] pf.statements[k]).len()
                        <= p.domain.n,
                common_poly_eval.z@ == pf.z,
                crate::expression::lag_distinct(common_poly_eval.lagranges@),
                lag_domain(p, pf) <= crate::expression::lag_keys(common_poly_eval.lagranges@),
                forall|k: int|
                    crate::expression::lag_keys(common_poly_eval.lagranges@).contains(k)
                        ==> #[trigger] crate::expression::lag_map(common_poly_eval.lagranges@)[k]
                        == crate::protocol::lag_eval(p.domain, pf.z, k),
                table@.len() == i,
                forall|k: int|
                    0 <= k < i ==> (#[trigger] table@[k]).0@ == t0m[k].0 && table@[k].1@
                        == t0m[k].1,
                forall|k: int| 0 <= k < i ==> (#[trigger] table@[k]).0.poly == np + k
                    && table@[k].0.rotation.value == 0,
            decreases self.statements@.len() - i,
        {
            let row = &self.statements[i];
            let ghost rowv = pf.statements[i as int];
            let ghost terms = Seq::new(
                rowv.len(),
                |j: int| crate::field::fmul(rowv[j], crate::protocol::lag_eval(p.domain, pf.z, j)),
            );
            let mut acc = Scalar::zero();
            let mut j: usize = 0;
            while j < row.len()
                invariant
                    j <= row@.len(),
                    p.wf(),
                    pf == self@,
                    0 <= i < self.statements@.len(),
                    row@ == self.statements@[i as int]@,
                    rowv == pf.statements[i as int],
                    rowv.len() == row@.len(),
                    rowv.len() <= p.domain.n,
                    terms == Seq::new(
                        rowv.len(),
                        |j2: int|
                            crate::field::fmul(
                                rowv[j2],
                                crate::protocol::lag_eval(p.domain, pf.z, j2),
                            ),
                    ),
                    common_poly_eval.z@ == pf.z,
                    crate::expression::lag_distinct(common_poly_eval.lagranges@),
                    lag_domain(p, pf) <= crate::expression::lag_keys(common_poly_eval.lagranges@),
                    forall|k: int|
                        crate::expression::lag_keys(common_poly_eval.lagranges@).contains(k)
                            ==> #[trigger] crate::expression::lag_map(
                            common_poly_eval.lagranges@,
                        )[k] == crate::protocol::lag_eval(p.domain, pf.z, k),
                    acc@ == crate::field::fsum(terms.take(j as int)),
                decreases row@.len() - j,
            {
                proof {
                    lemma_row_index_in_domain(p, pf, i as int, j as int);
                }
                let lv = match crate::expression::lag_get(&common_poly_eval.lagranges, j as i32) {
                    Some(s) => s,
                    None => {
                        proof {
                            assert(false);
                        }
                        return Err(Error::NonInvertible);
                    },
                };
                acc = acc.add(row[j].mul(lv));
                proof {
                    assert(terms.take(j + 1).drop_last() =~= terms.take(j as int));
                    assert(terms.take(j + 1).last() == terms[j as int]);
                }
                j = j + 1;
            }
            proof {
                assert(terms.take(rowv.len() as int) =~= terms);
                assert(acc@ == stmt_eval(p.domain, pf.z, rowv));
            }
            proof {
                crate::protocol::lemma_usum_nonneg(p.num_auxiliary@);
            }
            table.push((Query { poly: np + i, rotation: Rotation { value: 0 } }, acc));
            i = i + 1;
        }

        // Transcript-provided evaluations under the query plan.
        let ns = self.statements.len();
        let mut k: usize = 0;
        while k < protocol.evaluations.len()
            invariant
                k <= protocol.evaluations@.len(),
                p == *protocol,
                pf == self@,
                p.wf(),
                np == p.preprocessed@.len(),
                ns == pf.statements.len(),
                t0m == table0_model(p, pf),
                pf.evaluations.len() == p.evaluations@.len(),
                table@.len() == ns + k,
                forall|k2: int|
                    0 <= k2 < ns + k ==> (#[trigger] table@[k2]).0@ == t0m[k2].0 && table@[k2].1@
                        == t0m[k2].1,
                forall|k2: int| 0 <= k2 < ns ==> (#[trigger] table@[k2]).0.poly == np + k2
                    && table@[k2].0.rotation.value == 0,
                forall|k2: int|
                    ns <= k2 < ns + k ==> (#[trigger] table@[k2]).0 == p.evaluations@[k2 - ns],
            decreases protocol.evaluations@.len() - k,
        {
            table.push((protocol.evaluations[k], self.evaluations[k]));
            k = k + 1;
        }
        proof {
            assert(eval_views_of(table@) =~= t0m);
            lemma_table0_distinct(p, pf, table@);
            crate::expression::lemma_table_views_map(table@, t0m);
        }

        // Fold the relations at z with descending powers of alpha.
        let ghost env = env_model(p, pf);
        let nr = protocol.relations.len();
        let powers_of_alpha = self.alpha.powers(nr);
        let ghost vs_all = rel_vals(p.relations@, env);
        let mut acc = Scalar::zero();
        let mut idx: usize = 0;
        let ghost mut vs_seen: Seq<int> = Seq::empty();
        while idx < nr
            invariant
                idx <= nr,
                p == *protocol,
                pf == self@,
                p.wf(),
                nr == p.relations@.len(),
                env == env_model(p, pf),
                t0m == table0_model(p, pf),
                powers_of_alpha@.len() == nr,
                forall|j2: int|
                    0 <= j2 < nr ==> (#[trigger] powers_of_alpha@[j2])@ == crate::field::fpow(
                        pf.alpha,
                        j2 as nat,
                    ),
                eval_views_of(table@) == t0m,
                crate::expression::eval_distinct(table@),
                crate::expression::eval_keys(table@) == env.eval_keys,
                crate::expression::eval_map(table@) == env.evals,
                common_poly_eval.z@ == pf.z,
                crate::expression::lag_distinct(common_poly_eval.lagranges@),
                lag_domain(p, pf) <= crate::expression::lag_keys(common_poly_eval.lagranges@),
                forall|k2: int|
                    crate::expression::lag_keys(common_poly_eval.lagranges@).contains(k2)
                        ==> #[trigger] crate::expression::lag_map(common_poly_eval.lagranges@)[k2]
                        == crate::protocol::lag_eval(p.domain, pf.z, k2),
                views_of(self.challenges@) == pf.challenges,
                rel_vals(p.relations@.take(idx as int), env) == Result::<Seq<int>, Error>::Ok(
                    vs_seen,
                ),
                vs_seen.len() == idx,
                acc@ == crate::field::fsum(alpha_terms(pf.alpha, nr as int, vs_seen)),
            decreases nr - idx,
        {
            let rel = &protocol.relations[idx];
            proof {
                lemma_rel_lag_in_domain(p, pf, idx as int);
            }
            let v = match rel.evaluate(
                &self.z,
                &common_poly_eval.lagranges,
                &table,
                &self.challenges,
            ) {
                Ok(v) => v,
                Err(e) => {
                    proof {
                        crate::expression::lemma_eval_env_agree(
                            p.relations@[idx as int],
                            crate::expression::env_of(
                                self.z@,
                                common_poly_eval.lagranges@,
                                table@,
                                self.challenges@,
                            ),
                            env,
                        );
                        lemma_rel_vals_err(p.relations@, env, idx as int, e);
                    }
                    return Err(e);
                },
            };
            proof {
                crate::expression::lemma_eval_env_agree(
                    p.relations@[idx as int],
                    crate::expression::env_of(
                        self.z@,
                        common_poly_eval.lagranges@,
                        table@,
                        self.challenges@,
                    ),
                    env,
                );
                assert(p.relations@.take(idx + 1).drop_last() =~= p.relations@.take(idx as int));
                assert(p.relations@.take(idx + 1).last() == p.relations@[idx as int]);
            }
            let pw = powers_of_alpha[nr - 1 - idx];
            acc = acc.add(pw.mul(v));
            proof {
                let old_vs = vs_seen;
                vs_seen = vs_seen.push(v@);
                lemma_alpha_terms_snoc(pf.alpha, nr as int, old_vs, v@);
                assert(alpha_terms(pf.alpha, nr as int, vs_seen).drop_last() == alpha_terms(
                    pf.alpha,
                    nr as int,
                    old_vs,
                ));
            }
            idx = idx + 1;
        }
        proof {
            assert(p.relations@.take(nr as int) =~= p.relations@);
            assert(vs_all == Result::<Seq<int>, Error>::Ok(vs_seen));
        }
        let q = acc.mul(common_poly_eval.zn_minus_one_inv);
        proof {
            assert(q@ == quotient_eval(
                vs_seen,
                pf.alpha,
                crate::field::finv(
                    crate::field::fsub(crate::protocol::zn_of(p.domain, pf.z), 1),
                ),
            ));
        }
        let vp = protocol.vanishing_poly();
        let ghost before = table@;
        table.push((Query { poly: vp, rotation: Rotation { value: 0 } }, q));
        proof {
            assert(eval_views_of(table@) =~= evaluations_model(p, pf).unwrap());
            lemma_final_distinct(p, pf, before, table@);
        }
        Ok(table)
    }
}

/// Every statement slot index lies in the Lagrange domain.
proof fn lemma_row_index_in_domain(p: Protocol, pf: ProofV, i: int, j: int)
    requires
        0 <= i < pf.statements.len(),
        0 <= j < pf.statements[i].len(),
    ensures
        lag_domain(p, pf).contains(j),
        0 <= j < max_row_len(pf.statements),
{
    lemma_max_row_len_ge(pf.statements, i);
}

proof fn lemma_max_row_len_ge(rows: Seq<Seq<int>>, i: int)
    requires
        0 <= i < rows.len(),
    ensures
        max_row_len(rows) >= rows[i].len(),
    decreases rows.len(),
{
    if i + 1 == rows.len() {
        lemma_max_row_len_nonneg(rows.drop_last());
    } else {
        lemma_max_row_len_ge(rows.drop_last(), i);
    }
}

proof fn lemma_max_row_len_nonneg(rows: Seq<Seq<int>>)
    ensures
        max_row_len(rows) >= 0,
    decreases rows.len(),
{
    if rows.len() > 0 {
        lemma_max_row_len_nonneg(rows.drop_last());
    }
}

/// Every Lagrange index a relation references lies in the Lagrange domain.
proof fn lemma_rel_lag_in_domain(p: Protocol, pf: ProofV, i: int)
    requires
        0 <= i < p.relations@.len(),
    ensures
        crate::expression::used_lagrange_of(p.relations@[i]) <= lag_domain(p, pf),
{
    assert forall|x: int|
        crate::expression::used_lagrange_of(p.relations@[i]).contains(x) implies lag_domain(
        p,
        pf,
    ).contains(x) by {
        assert(rels_used(p.relations@).contains(x));
    }
}

/// A relation error at position `i` is the whole fold's error, given the
/// prefix evaluated cleanly.
proof fn lemma_rel_vals_err(
    rels: Seq<crate::expression::Expression>,
    env: crate::expression::EvalEnv,
    i: int,
    e: Error,
)
    requires
        0 <= i < rels.len(),
        rel_vals(rels.take(i), env) is Ok,
        crate::expression::eval_expr(rels[i], env) == Result::<int, Error>::Err(e),
    ensures
        rel_vals(rels, env) == Result::<Seq<int>, Error>::Err(e),
    decreases rels.len() - i,
{
    if i + 1 == rels.len() {
        assert(rels.take(i) =~= rels.drop_last());
        assert(rels.last() == rels[i]);
    } else {
        assert(rels.take(i + 1).drop_last() =~= rels.take(i));
        assert(rels.take(i + 1).last() == rels[i]);
        lemma_rel_vals_err_propagates(rels, env, i + 1, e);
    }
}

/// An erring prefix makes the whole fold err the same way.
proof fn lemma_rel_vals_err_propagates(
    rels: Seq<crate::expression::Expression>,
    env: crate::expression::EvalEnv,
    i: int,
    e: Error,
)
    requires
        0 <= i <= rels.len(),
        rel_vals(rels.take(i), env) == Result::<Seq<int>, Error>::Err(e),
    ensures
        rel_vals(rels, env) == Result::<Seq<int>, Error>::Err(e),
    decreases rels.len() - i,
{
    if i == rels.len() {
        assert(rels.take(i) =~= rels);
    } else {
        assert(rels.take(i + 1).drop_last() =~= rels.take(i));
        lemma_rel_vals_err_propagates(rels, env, i + 1, e);
    }
}

/// The statement keys, plan keys and the vanishing key never collide.
proof fn lemma_table0_distinct(p: Protocol, pf: ProofV, t: Seq<(Query, Scalar)>)
    requires
        p.wf(),
        pf.statements.len() == p.num_statement,
        t.len() == table0_model(p, pf).len(),
        eval_views_of(t) == table0_model(p, pf),
        forall|k: int|
            0 <= k < pf.statements.len() ==> (#[trigger] t[k]).0.poly == p.preprocessed@.len() + k
                && t[k].0.rotation.value == 0,
        forall|k: int|
            pf.statements.len() <= k < t.len() ==> (#[trigger] t[k]).0 == p.evaluations@[k
                - pf.statements.len()],
    ensures
        crate::expression::eval_distinct(t),
{
    let ns = pf.statements.len() as int;
    crate::protocol::lemma_usum_nonneg(p.num_auxiliary@);
    assert(t.len() == ns + p.evaluations@.len());
    assert forall|j1: int, j2: int| 0 <= j1 < j2 < t.len() implies (#[trigger] t[j1]).0@ != (
    #[trigger] t[j2]).0@ by {
        if j1 < ns && j2 < ns {
            assert(t[j1].0@.poly == p.preprocessed@.len() + j1);
            assert(t[j2].0@.poly == p.preprocessed@.len() + j2);
        } else if j1 < ns && j2 >= ns {
            assert(t[j2].0 == p.evaluations@[j2 - ns]);
            assert(!(p.preprocessed@.len() <= p.evaluations@[j2 - ns]@.poly < p.aux_offset()
                && p.evaluations@[j2 - ns]@.rotation == 0));
            assert(t[j1].0@.poly == p.preprocessed@.len() + j1);
            assert(t[j1].0@.rotation == 0);
        } else {
            assert(t[j1].0 == p.evaluations@[j1 - ns]);
            assert(t[j2].0 == p.evaluations@[j2 - ns]);
            assert(p.evaluations@[j1 - ns]@ != p.evaluations@[j2 - ns]@);
        }
    }
}

/// Appending the vanishing entry keeps the table keys distinct.
proof fn lemma_final_distinct(p: Protocol, pf: ProofV, before: Seq<(Query, Scalar)>, t: Seq<(Query, Scalar)>)
    requires
        p.wf(),
        pf.statements.len() == p.num_statement,
        crate::expression::eval_distinct(before),
        eval_views_of(before) == table0_model(p, pf),
        forall|k: int|
            0 <= k < pf.statements.len() ==> (#[trigger] before[k]).0.poly == p.preprocessed@.len()
                + k && before[k].0.rotation.value == 0,
        forall|k: int|
            pf.statements.len() <= k < before.len() ==> (#[trigger] before[k]).0
                == p.evaluations@[k - pf.statements.len()],
        t.len() == before.len() + 1,
        forall|k: int| 0 <= k < before.len() ==> #[trigger] t[k] == before[k],
        t.last().0@.poly == p.vanishing_idx(),
        t.last().0@.rotation == 0,
    ensures
        crate::expression::eval_distinct(t),
{
    let ns = pf.statements.len() as int;
    crate::protocol::lemma_usum_nonneg(p.num_auxiliary@);
    assert(eval_views_of(before).len() == before.len());
    assert(table0_model(p, pf).len() == pf.statements.len() + p.evaluations@.len());
    assert(before.len() == ns + p.evaluations@.len());
    assert forall|j1: int, j2: int| 0 <= j1 < j2 < t.len() implies (#[trigger] t[j1]).0@ != (
    #[trigger] t[j2]).0@ by {
        if j2 == t.len() - 1 {
            assert(t[j1] == before[j1]);
            if j1 < ns {
                assert(t[j1].0@.poly == p.preprocessed@.len() + j1);
                assert(t[j1].0@.poly < p.aux_offset());
                assert(p.aux_offset() <= p.vanishing_idx());
            } else {
                assert(before[j1].0 == p.evaluations@[j1 - ns]);
                assert(!(p.evaluations@[j1 - ns]@.poly == p.vanishing_idx()
                    && p.evaluations@[j1 - ns]@.rotation == 0));
            }
        } else {
            assert(t[j1] == before[j1]);
            assert(t[j2] == before[j2]);
            assert(before[j1].0@ != before[j2].0@);
        }
    }
}

/// The length of the longest statement row.
pub open spec fn max_stmt_len(stv: Seq<Seq<u64>>) -> int
    decreases stv.len(),
{
    if stv.len() == 0 {
        0
    } else if max_stmt_len(stv.drop_last()) >= stv.last().len() {
        max_stmt_len(stv.drop_last())
    } else {
        stv.last().len() as int
    }
}

/// The Lagrange indices any relation references.
pub open spec fn rels_used(rels: Seq<crate::expression::Expression>) -> Set<int> {
    Set::new(
        |x: int| exists|i: int|
            0 <= i < rels.len() && (#[trigger] crate::expression::used_lagrange_of(
                rels[i],
            )).contains(x),
    )
}

/// The Lagrange indices the verifier needs: everything the relations
/// reference, together with one index per statement slot.
pub open spec fn langranges_set(p: Protocol, stv: Seq<Seq<u64>>) -> Set<int> {
    rels_used(p.relations@).union(Set::new(|x: int| 0 <= x < max_stmt_len(stv)))
}

/// Collects the needed Lagrange indices, without a promised order and
/// possibly with repetitions.
pub fn langranges(protocol: &Protocol, statements: &Vec<Vec<u64>>) -> (r: Vec<i32>)
    requires
        max_stmt_len(stmt_words(statements@)) <= 0x7fff_ffff,
    ensures
        forall|x: i32| r@.contains(x) <==> langranges_set(
            *protocol,
            stmt_words(statements@),
        ).contains(x as int),
{
    let ghost rels = protocol.relations@;
    let ghost stv = stmt_words(statements@);
    let mut acc: Vec<i32> = Vec::new();
    let mut i: usize = 0;
    while i < protocol.relations.len()
        invariant
            i <= rels.len(),
            rels == protocol.relations@,
            forall|x: i32| acc@.contains(x) <==> rels_used(rels.take(i as int)).contains(x as int),
        decreases rels.len() - i,
    {
        let used = protocol.relations[i].used_langrange();
        let ghost accv = acc@;
        acc = crate::expression::concat_i32(acc, used);
        proof {
            assert forall|x: i32| acc@.contains(x) <==> rels_used(rels.take(i + 1)).contains(
                x as int,
            ) by {
                if acc@.contains(x) {
                    if accv.contains(x) {
                        let k = choose|k: int|
                            0 <= k < i && (#[trigger] crate::expression::used_lagrange_of(
                                rels.take(i as int)[k],
                            )).contains(x as int);
                        assert(crate::expression::used_lagrange_of(rels.take(i + 1)[k]).contains(
                            x as int,
                        ));
                    } else {
                        assert(crate::expression::used_lagrange_of(rels.take(i + 1)[i as int]).contains(
                            x as int,
                        ));
                    }
                }
                if rels_used(rels.take(i + 1)).contains(x as int) {
                    let k = choose|k: int|
                        0 <= k < i + 1 && (#[trigger] crate::expression::used_lagrange_of(
                            rels.take(i + 1)[k],
                        )).contains(x as int);
                    if k < i {
                        assert(crate::expression::used_lagrange_of(rels.take(i as int)[k]).contains(
                            x as int,
                        ));
                    }
                }
            }
        }
        i = i + 1;
    }
    proof {
        assert(rels.take(rels.len() as int) =~= rels);
    }
    // The statement slots.
    let mut m: usize = 0;
    let mut i: usize = 0;
    while i < statements.len()
        invariant
            i <= statements@.len(),
            stv == stmt_words(statements@),
            m == max_stmt_len(stv.take(i as int)),
        decreases statements@.len() - i,
    {
        proof {
            assert(stv.take(i + 1).drop_last() =~= stv.take(i as int));
        }
        if statements[i].len() > m {
            m = statements[i].len();
        }
        i = i + 1;
    }
    proof {
        assert(stv.take(stv.len() as int) =~= stv);
        lemma_max_stmt_len_nonneg(stv);
    }
    let ghost accv = acc@;
    let mut x: usize = 0;
    while x < m
        invariant
            x <= m,
            m == max_stmt_len(stv),
            m <= 0x7fff_ffff,
            forall|y: i32| accv.contains(y) <==> rels_used(protocol.relations@).contains(y as int),
            forall|y: i32| acc@.contains(y) <==> accv.contains(y) || 0 <= y < x,
        decreases m - x,
    {
        let ghost before = acc@;
        acc.push(x as i32);
        proof {
            assert(acc@ == before.push(x as i32));
            assert forall|y: i32| acc@.contains(y) <==> before.contains(y) || y == x as i32 by {
                if acc@.contains(y) {
                    let k = choose|k: int| 0 <= k < acc@.len() && acc@[k] == y;
                    if k < before.len() {
                        assert(before[k] == y);
                    }
                }
                if before.contains(y) {
                    let k = choose|k: int| 0 <= k < before.len() && before[k] == y;
                    assert(acc@[k] == y);
                }
                assert(acc@[before.len() as int] == x as i32);
            }
        }
        x = x + 1;
    }
    proof {
        assert forall|y: i32| acc@.contains(y) <==> langranges_set(*protocol, stv).contains(
            y as int,
        ) by {
            assert(acc@.contains(y) <==> (accv.contains(y) || 0 <= y < m));
            if rels_used(protocol.relations@).contains(y as int) {
                assert(langranges_set(*protocol, stv).contains(y as int));
            }
        }
    }
    acc
}

proof fn lemma_max_stmt_len_nonneg(stv: Seq<Seq<u64>>)
    ensures
        max_stmt_len(stv) >= 0,
    decreases stv.len(),
{
    if stv.len() > 0 {
        lemma_max_stmt_len_nonneg(stv.drop_last());
    }
}

// ---- Per-set MSM assembly ----

/// The key set of a spec-level commitment table.
pub open spec fn cv_keys(s: Seq<(int, crate::group::MsmV)>) -> Set<int> {
    Set::new(|p: int| exists|j: int| 0 <= j < s.len() && (#[trigger] s[j]).0 == p)
}

/// The map a spec-level commitment table stands for (keys assumed
/// distinct).
pub open spec fn cv_map(s: Seq<(int, crate::group::MsmV)>) -> Map<int, crate::group::MsmV> {
    Map::new(
        |p: int| cv_keys(s).contains(p),
        |p: int| s[choose|j: int| 0 <= j < s.len() && (#[trigger] s[j]).0 == p].1,
    )
}

/// Looks a poly index up in the commitment table.
pub fn cmt_get(t: &Vec<(usize, Msm)>, poly: usize) -> (r: Option<Msm>)
    requires
        cmt_distinct(t@),
    ensures
        r is Some <==> cv_keys(cmt_views_of(t@)).contains(poly as int),
        r matches Some(m) ==> m@ == cv_map(cmt_views_of(t@))[poly as int],
{
    let ghost cv = cmt_views_of(t@);
    let mut j: usize = 0;
    while j < t.len()
        invariant
            j <= t@.len(),
            cv == cmt_views_of(t@),
            cmt_distinct(t@),
            forall|j2: int| 0 <= j2 < j ==> (#[trigger] cv[j2]).0 != poly as int,
        decreases t@.len() - j,
    {
        if t[j].0 == poly {
            proof {
                assert(cv[j as int].0 == poly as int);
                assert(cv_keys(cv).contains(poly as int));
                let w = choose|w: int| 0 <= w < cv.len() && (#[trigger] cv[w]).0 == poly as int;
                assert(cv[w].0 == cv[j as int].0);
                assert(w == j);
            }
            return Some(t[j].1.duplicate());
        }
        j = j + 1;
    }
    proof {
        if cv_keys(cv).contains(poly as int) {
            let w = choose|w: int| 0 <= w < cv.len() && (#[trigger] cv[w]).0 == poly as int;
        }
    }
    None
}

/// The weighted sum of the evaluations of `poly` over the first `k`
/// rotations of the set, or the first query the table is missing.
pub open spec fn rem_sum(
    set: crate::multiopen::SetV,
    ev: Seq<(crate::expression::QueryV, int)>,
    poly: int,
    k: nat,
) -> Result<int, crate::expression::QueryV>
    decreases k,
{
    if k == 0 {
        Ok(0)
    } else {
        match rem_sum(set, ev, poly, (k - 1) as nat) {
            Err(q) => Err(q),
            Ok(acc) => {
                let qv = crate::expression::QueryV { poly, rotation: set.rotations[k - 1] };
                if !crate::expression::qv_keys(ev).contains(qv) {
                    Err(qv)
                } else {
                    Ok(
                        crate::field::fadd(
                            acc,
                            crate::field::fmul(
                                set.evaluation_coeffs[k - 1],
                                crate::expression::qv_map(ev)[qv],
                            ),
                        ),
                    )
                }
            },
        }
    }
}

/// The term of one poly of the set in the multi-open MSM, or the first
/// missing lookup.
pub open spec fn term_model(
    set: crate::multiopen::SetV,
    cv: Seq<(int, crate::group::MsmV)>,
    ev: Seq<(crate::expression::QueryV, int)>,
    mus: Seq<int>,
    t: int,
) -> Result<crate::group::MsmV, crate::expression::QueryV> {
    let poly = set.polys[t];
    if !cv_keys(cv).contains(poly) {
        Err(crate::expression::QueryV { poly, rotation: set.rotations[0] })
    } else {
        match rem_sum(set, ev, poly, set.rotations.len() as nat) {
            Err(q) => Err(q),
            Ok(sum) => {
                let cmsm = match set.commitment_coeff {
                    Some(c) => crate::group::mv_scale(cv_map(cv)[poly], c),
                    None => cv_map(cv)[poly],
                };
                let rem = crate::field::fmul(set.remainder_coeff, sum);
                Ok(
                    crate::group::mv_scale(
                        crate::group::mv_sub(cmsm, crate::group::mv_scalar(rem)),
                        mus[set.polys.len() - 1 - t],
                    ),
                )
            },
        }
    }
}

/// The folded MSM of the first `t` polys of a set.
pub open spec fn msm_fold(
    set: crate::multiopen::SetV,
    cv: Seq<(int, crate::group::MsmV)>,
    ev: Seq<(crate::expression::QueryV, int)>,
    mus: Seq<int>,
    t: nat,
) -> Result<crate::group::MsmV, crate::expression::QueryV>
    decreases t,
{
    if t <= 1 {
        term_model(set, cv, ev, mus, 0)
    } else {
        match msm_fold(set, cv, ev, mus, (t - 1) as nat) {
            Err(q) => Err(q),
            Ok(acc) => match term_model(set, cv, ev, mus, t - 1) {
                Err(q) => Err(q),
                Ok(mt) => Ok(crate::group::mv_add(acc, mt)),
            },
        }
    }
}

/// The MSM of a whole set.
pub open spec fn set_msm_model(
    set: crate::multiopen::SetV,
    cv: Seq<(int, crate::group::MsmV)>,
    ev: Seq<(crate::expression::QueryV, int)>,
    mus: Seq<int>,
) -> Result<crate::group::MsmV, crate::expression::QueryV> {
    msm_fold(set, cv, ev, mus, set.polys.len() as nat)
}

impl crate::multiopen::IntermediateSet {
    /// Assembles this set's deferred combination: for each poly, its
    /// commitment (scaled by the commitment coefficient on all but the
    /// first set) minus the weighted opened evaluations, the whole scaled
    /// by the descending power of `mu`.  Fails with `MissingQuery` exactly
    /// when a commitment or an opened evaluation is absent.
    pub fn msm(
        &self,
        commitments: &Vec<(usize, Msm)>,
        evaluations: &Vec<(Query, Scalar)>,
        powers_of_mu: &Vec<Scalar>,
    ) -> (r: Result<Msm, Error>)
        requires
            self@.polys.len() >= 1,
            self@.rotations.len() >= 1,
            self@.evaluation_coeffs.len() == self@.rotations.len(),
            self@.polys.len() <= powers_of_mu@.len(),
            cmt_distinct(commitments@),
            crate::expression::eval_distinct(evaluations@),
        ensures
            ({
                let model = set_msm_model(
                    self@,
                    cmt_views_of(commitments@),
                    eval_views_of(evaluations@),
                    views_of(powers_of_mu@),
                );
                &&& (r is Ok <==> model is Ok)
                &&& (r matches Ok(m) ==> model == Result::<
                    crate::group::MsmV,
                    crate::expression::QueryV,
                >::Ok(m@))
                &&& (r matches Err(e) ==> model matches Err(qv) && e == Error::MissingQuery(
                    Query {
                        poly: qv.poly as usize,
                        rotation: Rotation { value: qv.rotation as i32 },
                    },
                ))
            }),
    {
        let ghost sv = self@;
        let ghost cv = cmt_views_of(commitments@);
        let ghost ev = eval_views_of(evaluations@);
        let ghost mus = views_of(powers_of_mu@);
        proof {
            crate::expression::lemma_table_views_map(evaluations@, ev);
        }
        let m = self.polys.len();
        let mut acc: Option<Msm> = None;
        let mut t: usize = 0;
        while t < m
            invariant
                t <= m,
                m == self.polys@.len(),
                sv == self@,
                sv.polys.len() == m,
                sv.rotations.len() >= 1,
                m <= mus.len(),
                cv == cmt_views_of(commitments@),
                ev == eval_views_of(evaluations@),
                mus == views_of(powers_of_mu@),
                cmt_distinct(commitments@),
                crate::expression::eval_distinct(evaluations@),
                crate::expression::eval_keys(evaluations@) == crate::expression::qv_keys(ev),
                crate::expression::eval_map(evaluations@) == crate::expression::qv_map(ev),
                sv.evaluation_coeffs.len() == sv.rotations.len(),
                t == 0 ==> acc is None,
                t > 0 ==> (acc matches Some(a) && msm_fold(sv, cv, ev, mus, t as nat)
                    == Result::<crate::group::MsmV, crate::expression::QueryV>::Ok(a@)),
            decreases m - t,
        {
            let poly = self.polys[t];
            let cm = match cmt_get(commitments, poly) {
                Some(c) => c,
                None => {
                    let q = Query { poly, rotation: self.rotations[0] };
                    proof {
                        lemma_msm_fold_err(sv, cv, ev, mus, t as int);
                        let qv = term_model(sv, cv, ev, mus, t as int)->Err_0;
                        assert(qv == crate::expression::QueryV {
                            poly: poly as int,
                            rotation: sv.rotations[0],
                        });
                        assert(qv.poly as usize == poly);
                        assert(qv.rotation as i32 == self.rotations@[0].value);
                        assert(Query {
                            poly: qv.poly as usize,
                            rotation: Rotation { value: qv.rotation as i32 },
                        } == q);
                    }
                    return Err(Error::MissingQuery(q));
                },
            };
            let cmsm = match &self.commitment_coeff {
                Some(c) => cm.scale(*c),
                None => cm,
            };
            // The weighted sum of this poly's opened evaluations.
            let mut rsum = Scalar::zero();
            let mut j: usize = 0;
            while j < self.rotations.len()
                invariant
                    j <= self.rotations@.len(),
                    sv == self@,
                    t < m,
                    m == self.polys@.len(),
                    m >= 1,
                    poly == self.polys@[t as int],
                    cv == cmt_views_of(commitments@),
                    ev == eval_views_of(evaluations@),
                    mus == views_of(powers_of_mu@),
                    crate::expression::eval_distinct(evaluations@),
                    crate::expression::eval_keys(evaluations@) == crate::expression::qv_keys(ev),
                    crate::expression::eval_map(evaluations@) == crate::expression::qv_map(ev),
                    self.evaluation_coeffs@.len() == self.rotations@.len(),
                    t > 0 ==> msm_fold(sv, cv, ev, mus, t as nat) is Ok,
                    cv_keys(cv).contains(poly as int),
                    rem_sum(sv, ev, poly as int, j as nat) == Result::<
                        int,
                        crate::expression::QueryV,
                    >::Ok(rsum@),
                decreases self.rotations@.len() - j,
            {
                let q = Query { poly, rotation: self.rotations[j] };
                let e = match crate::expression::eval_get(evaluations, q) {
                    Some(e) => e,
                    None => {
                        proof {
                            assert(rem_sum(sv, ev, poly as int, (j + 1) as nat) == Result::<
                                int,
                                crate::expression::QueryV,
                            >::Err(q@));
                            lemma_rem_sum_err(sv, ev, poly as int, (j + 1) as nat,
                            sv.rotations.len() as nat, q@);
                            lemma_msm_fold_err(sv, cv, ev, mus, t as int);
                            let qv = term_model(sv, cv, ev, mus, t as int)->Err_0;
                            assert(qv == q@);
                            assert(qv.poly as usize == poly);
                            assert(qv.rotation as i32 == self.rotations@[j as int].value);
                            assert(Query {
                                poly: qv.poly as usize,
                                rotation: Rotation { value: qv.rotation as i32 },
                            } == q);
                        }
                        return Err(Error::MissingQuery(q));
                    },
                };
                rsum = rsum.add(self.evaluation_coeffs[j].mul(e));
                j = j + 1;
            }
            let remainder = self.remainder_coeff.mul(rsum);
            let term = cmsm.sub(Msm::scalar(remainder)).scale(powers_of_mu[m - 1 - t]);
            acc = match acc {
                Some(a) => Some(a.add(term)),
                None => Some(term),
            };
            t = t + 1;
        }
        proof {
            assert(m >= 1);
        }
        match acc {
            Some(a) => Ok(a),
            None => {
                proof {
                    assert(false);
                }
                Err(Error::NonInvertible)
            },
        }
    }
}

/// An erring weighted sum over a prefix of the rotations errs over the
/// whole list the same way.
proof fn lemma_rem_sum_err(
    set: crate::multiopen::SetV,
    ev: Seq<(crate::expression::QueryV, int)>,
    poly: int,
    j: nat,
    k: nat,
    q: crate::expression::QueryV,
)
    requires
        j <= k,
        rem_sum(set, ev, poly, j) == Result::<int, crate::expression::QueryV>::Err(q),
    ensures
        rem_sum(set, ev, poly, k) == Result::<int, crate::expression::QueryV>::Err(q),
    decreases k - j,
{
    if j < k {
        lemma_rem_sum_err(set, ev, poly, (j + 1) as nat, k, q);
    }
}

/// A failing term at position `t` is the whole fold's error, given the
/// prefix folded cleanly.
proof fn lemma_msm_fold_err(
    set: crate::multiopen::SetV,
    cv: Seq<(int, crate::group::MsmV)>,
    ev: Seq<(crate::expression::QueryV, int)>,
    mus: Seq<int>,
    t: int,
)
    requires
        0 <= t < set.polys.len(),
        t > 0 ==> msm_fold(set, cv, ev, mus, t as nat) is Ok,
        term_model(set, cv, ev, mus, t) is Err,
    ensures
        msm_fold(set, cv, ev, mus, set.polys.len() as nat) is Err,
        msm_fold(set, cv, ev, mus, set.polys.len() as nat)
            == Result::<crate::group::MsmV, crate::expression::QueryV>::Err(
            term_model(set, cv, ev, mus, t)->Err_0,
        ),
{
    lemma_msm_fold_err_step(set, cv, ev, mus, t, set.polys.len() as nat);
}

proof fn lemma_msm_fold_err_step(
    set: crate::multiopen::SetV,
    cv: Seq<(int, crate::group::MsmV)>,
    ev: Seq<(crate::expression::QueryV, int)>,
    mus: Seq<int>,
    t: int,
    k: nat,
)
    requires
        0 <= t < k,
        t > 0 ==> msm_fold(set, cv, ev, mus, t as nat) is Ok,
        term_model(set, cv, ev, mus, t) is Err,
    ensures
        msm_fold(set, cv, ev, mus, k) == Result::<crate::group::MsmV, crate::expression::QueryV>::Err(
            term_model(set, cv, ev, mus, t)->Err_0,
        ),
    decreases k,
{
    if k == t + 1 {
        if t == 0 {
        }
    } else {
        lemma_msm_fold_err_step(set, cv, ev, mus, t, (k - 1) as nat);
    }
}

// ---- The driver ----

/// The transcript after the protocol's initial state is absorbed.
pub open spec fn after_init(p: Protocol, t0: TranscriptV) -> TranscriptV {
    TranscriptV {
        data: t0.data,
        pos: t0.pos,
        state: absorb_s(t0.state, p.transcript_initial_state@),
    }
}

/// Whether every inverse the common-polynomial table needs exists, over a
/// key set.
pub open spec fn cpe_ok_set(d: crate::protocol::Domain, z: int, ks: Set<int>) -> bool {
    &&& crate::field::has_inv(crate::field::fsub(crate::protocol::zn_of(d, z), 1))
    &&& forall|k: int| ks.contains(k) ==> crate::field::has_inv(
        #[trigger] crate::protocol::lag_denom(d, z, k),
    )
}

/// `[1, mu, mu^2, ...]`.
pub open spec fn mu_powers(mu: int, m: nat) -> Seq<int> {
    Seq::new(m, |j: int| crate::field::fpow(mu, j as nat))
}

/// The largest poly count over the sets.
pub open spec fn max_polys(sets: Seq<crate::multiopen::SetV>) -> int
    decreases sets.len(),
{
    if sets.len() == 0 {
        0
    } else if max_polys(sets.drop_last()) >= sets.last().polys.len() {
        max_polys(sets.drop_last())
    } else {
        sets.last().polys.len() as int
    }
}

/// The per-set MSMs in order, or the first missing lookup.
pub open spec fn msms_models(
    sets: Seq<crate::multiopen::SetV>,
    cv: Seq<(int, crate::group::MsmV)>,
    ev: Seq<(crate::expression::QueryV, int)>,
    mus: Seq<int>,
) -> Result<Seq<crate::group::MsmV>, crate::expression::QueryV>
    decreases sets.len(),
{
    if sets.len() == 0 {
        Ok(Seq::empty())
    } else {
        match msms_models(sets.drop_last(), cv, ev, mus) {
            Err(q) => Err(q),
            Ok(ms) => match set_msm_model(sets.last(), cv, ev, mus) {
                Err(q) => Err(q),
                Ok(m) => Ok(ms.push(m)),
            },
        }
    }
}

/// The fold of the first `k` MSMs with descending powers of gamma, out of
/// `s` sets in all.
pub open spec fn gfold(
    ms: Seq<crate::group::MsmV>,
    gamma: int,
    total: int,
    k: nat,
) -> crate::group::MsmV
    decreases k,
{
    if k <= 1 {
        crate::group::mv_scale(ms[0], crate::field::fpow(gamma, (total - 1) as nat))
    } else {
        crate::group::mv_add(
            gfold(ms, gamma, total, (k - 1) as nat),
            crate::group::mv_scale(ms[k - 1], crate::field::fpow(gamma, (total - k) as nat)),
        )
    }
}

/// The same fold, indexing a precomputed power table instead.
pub open spec fn gfoldp(
    ms: Seq<crate::group::MsmV>,
    gs: Seq<int>,
    total: int,
    k: nat,
) -> crate::group::MsmV
    decreases k,
{
    if k <= 1 {
        crate::group::mv_scale(ms[0], gs[total - 1])
    } else {
        crate::group::mv_add(
            gfoldp(ms, gs, total, (k - 1) as nat),
            crate::group::mv_scale(ms[k - 1], gs[total - k]),
        )
    }
}

/// Appending MSMs does not disturb the fold of a prefix.
pub proof fn lemma_gfoldp_push(
    ms: Seq<crate::group::MsmV>,
    v: crate::group::MsmV,
    gs: Seq<int>,
    total: int,
    k: nat,
)
    requires
        1 <= k <= ms.len(),
    ensures
        gfoldp(ms.push(v), gs, total, k) == gfoldp(ms, gs, total, k),
    decreases k,
{
    if k > 1 {
        lemma_gfoldp_push(ms, v, gs, total, (k - 1) as nat);
    }
}

/// A power table folds as the powers themselves do.
pub proof fn lemma_gfold_powers(
    ms: Seq<crate::group::MsmV>,
    gamma: int,
    gs: Seq<int>,
    total: int,
    k: nat,
)
    requires
        total == gs.len(),
        forall|j: int| 0 <= j < total ==> gs[j] == crate::field::fpow(gamma, j as nat),
        1 <= k <= total,
    ensures
        gfoldp(ms, gs, total, k) == gfold(ms, gamma, total, k),
    decreases k,
{
    if k > 1 {
        lemma_gfold_powers(ms, gamma, gs, total, (k - 1) as nat);
    }
}

/// The intermediate-set models the pipeline builds.
pub open spec fn pipeline_sets(p: Protocol, pf: ProofV) -> Seq<crate::multiopen::SetV> {
    crate::multiopen::sets_models(
        p.domain,
        pf.z,
        pf.z_prime,
        crate::multiopen::sets_of(crate::multiopen::q_views(p.queries@)),
    )
}

/// The per-set MSMs the pipeline builds.
pub open spec fn pipeline_msms(p: Protocol, pf: ProofV) -> Result<
    Seq<crate::group::MsmV>,
    crate::expression::QueryV,
> {
    msms_models(
        pipeline_sets(p, pf),
        commitments_model(p, pf, crate::protocol::zn_of(p.domain, pf.z)),
        evaluations_model(p, pf)->Ok_0,
        mu_powers(pf.mu, max_polys(pipeline_sets(p, pf)) as nat),
    )
}

/// The right pairing input: the bare SHPLONK witness `w'`.
pub open spec fn pipeline_rhs(pf: ProofV) -> crate::group::MsmV {
    crate::group::mv_base(pf.w_prime)
}

/// The left pairing input:
/// `sum of gamma^(S-1-s) * msm_s - z_s_first * base(w) + z' * base(w')`.
pub open spec fn pipeline_lhs(p: Protocol, pf: ProofV) -> crate::group::MsmV {
    let sets = pipeline_sets(p, pf);
    let ms = pipeline_msms(p, pf)->Ok_0;
    let f = crate::group::mv_sub(
        gfold(ms, pf.gamma, sets.len() as int, sets.len() as nat),
        crate::group::mv_scale(crate::group::mv_base(pf.w), sets[0].z_s),
    );
    crate::group::mv_add(f, crate::group::mv_scale(pipeline_rhs(pf), pf.z_prime))
}

/// Whether the whole pipeline succeeds on these inputs.
pub open spec fn pipeline_ok(p: Protocol, stv: Seq<Seq<u64>>, t0: TranscriptV) -> bool {
    let t1 = after_init(p, t0);
    let pf = read_model(p, stv, t1);
    &&& read_ok(p, stv, t1)
    &&& cpe_ok_set(p.domain, pf.z, langranges_set(p, stv))
    &&& evaluations_model(p, pf) is Ok
    &&& crate::multiopen::sets_ok(
        p.domain,
        pf.z,
        pf.z_prime,
        crate::multiopen::sets_of(crate::multiopen::q_views(p.queries@)),
    )
    &&& pipeline_msms(p, pf) is Ok
}

/// The error the pipeline stops with when it fails, except for a missing
/// lookup in the multi-open step, whose query the last clause of
/// `pairing_inputs` describes.
pub open spec fn pipeline_err(p: Protocol, stv: Seq<Seq<u64>>, t0: TranscriptV) -> Error {
    let t1 = after_init(p, t0);
    let pf = read_model(p, stv, t1);
    if !read_ok(p, stv, t1) {
        read_err(p, stv)
    } else if !cpe_ok_set(p.domain, pf.z, langranges_set(p, stv)) {
        Error::NonInvertible
    } else if evaluations_model(p, pf) is Err {
        evaluations_model(p, pf)->Err_0
    } else if !crate::multiopen::sets_ok(
        p.domain,
        pf.z,
        pf.z_prime,
        crate::multiopen::sets_of(crate::multiopen::q_views(p.queries@)),
    ) {
        Error::NonInvertible
    } else {
        Error::MissingQuery(
        Query {
            poly: pipeline_msms(p, pf)->Err_0.poly as usize,
            rotation: Rotation { value: pipeline_msms(p, pf)->Err_0.rotation as i32 },
        },
        )
    }
}

/// The loaded statement rows keep the raw lengths.
proof fn lemma_loaded_max(stv: Seq<Seq<u64>>)
    ensures
        max_row_len(loaded_stmts(stv)) == max_stmt_len(stv),
    decreases stv.len(),
{
    if stv.len() > 0 {
        lemma_loaded_max(stv.drop_last());
        assert(loaded_stmts(stv).drop_last() =~= loaded_stmts(stv.drop_last()));
        assert(loaded_stmts(stv).last().len() == stv.last().len());
    }
}

/// A bound on every row bounds the maximum.
proof fn lemma_max_stmt_le(stv: Seq<Seq<u64>>, n: int)
    requires
        forall|i: int| 0 <= i < stv.len() ==> (#[trigger] stv[i]).len() <= n,
        n >= 0,
    ensures
        max_stmt_len(stv) <= n,
    decreases stv.len(),
{
    if stv.len() > 0 {
        assert(forall|i: int|
            0 <= i < stv.drop_last().len() ==> (#[trigger] stv.drop_last()[i]).len() <= n);
        lemma_max_stmt_le(stv.drop_last(), n);
    }
}

/// A nonempty query plan yields at least one set.
proof fn lemma_sets_nonempty(qv: Seq<crate::expression::QueryV>)
    requires
        qv.len() >= 1,
    ensures
        crate::multiopen::groups_of(qv).len() >= 1,
        crate::multiopen::sets_of(qv).len() >= 1,
    decreases qv.len(),
{
    crate::multiopen::lemma_groups_wf(qv);
    let g = crate::multiopen::groups_of(qv);
    if qv.len() == 1 {
        assert(crate::multiopen::groups_of(qv.drop_last()).len() == 0);
    } else {
        lemma_sets_nonempty(qv.drop_last());
        let gp = crate::multiopen::groups_of(qv.drop_last());
        let q = qv.last();
        if crate::multiopen::has_poly(gp, q.poly) {
            let j = crate::multiopen::idx_of_poly(gp, q.poly);
            assert(0 <= j < gp.len() && gp[j].0 == q.poly);
        }
    }
    // The first group makes at least one set.
    lemma_sets_from_nonempty(g);
}

proof fn lemma_sets_from_nonempty(g: Seq<(int, Seq<int>)>)
    requires
        g.len() >= 1,
    ensures
        crate::multiopen::sets_from(g).len() >= 1,
    decreases g.len(),
{
    if g.len() == 1 {
        assert(crate::multiopen::sets_from(g.drop_last()).len() == 0);
    } else {
        assert(g.drop_last().len() >= 1);
        lemma_sets_from_nonempty(g.drop_last());
        let s = crate::multiopen::sets_from(g.drop_last());
        let last = g.last();
        if crate::multiopen::has_rotset(s, last.1.to_set()) {
            let j = crate::multiopen::idx_of_rotset(s, last.1.to_set());
            assert(0 <= j < s.len() && s[j].1.to_set() == last.1.to_set());
        }
    }
}

/// The maximum poly count bounds every set's poly count.
proof fn lemma_max_polys_ge(sets: Seq<crate::multiopen::SetV>, i: int)
    requires
        0 <= i < sets.len(),
    ensures
        max_polys(sets) >= sets[i].polys.len(),
    decreases sets.len(),
{
    if i + 1 == sets.len() {
    } else {
        lemma_max_polys_ge(sets.drop_last(), i);
    }
}

/// An erring prefix makes the whole MSM list err the same way.
proof fn lemma_msms_err_propagates(
    sets: Seq<crate::multiopen::SetV>,
    cv: Seq<(int, crate::group::MsmV)>,
    ev: Seq<(crate::expression::QueryV, int)>,
    mus: Seq<int>,
    i: int,
    q: crate::expression::QueryV,
)
    requires
        0 <= i <= sets.len(),
        msms_models(sets.take(i), cv, ev, mus) == Result::<
            Seq<crate::group::MsmV>,
            crate::expression::QueryV,
        >::Err(q),
    ensures
        msms_models(sets, cv, ev, mus) == Result::<
            Seq<crate::group::MsmV>,
            crate::expression::QueryV,
        >::Err(q),
    decreases sets.len() - i,
{
    if i == sets.len() {
        assert(sets.take(i) =~= sets);
    } else {
        assert(sets.take(i + 1).drop_last() =~= sets.take(i));
        lemma_msms_err_propagates(sets, cv, ev, mus, i + 1, q);
    }
}

/// The verification strategy: the consumer of the two pairing inputs.
pub trait VerificationStrategy {
    type Output;

    /// One call per proof, taking ownership of the pairing inputs.
    fn process(
        &mut self,
        loader: &NativeLoader,
        proof: Proof,
        lhs: Msm,
        rhs: Msm,
    ) -> Result<Self::Output, Error>;

    /// Terminal aggregation across the processed proofs.
    fn finalize(self) -> bool;
}

/// A native strategy: collapses both deferred combinations against the
/// generator and hands the pair back for the caller's pairing check.
pub struct NativeStrategy {
    pub g1: EcPoint,
}

impl VerificationStrategy for NativeStrategy {
    type Output = (EcPoint, EcPoint);

    fn process(
        &mut self,
        loader: &NativeLoader,
        proof: Proof,
        lhs: Msm,
        rhs: Msm,
    ) -> (r: Result<(EcPoint, EcPoint), Error>)
        ensures
            r matches Ok(out) && out.0@ == crate::group::mv_eval(lhs@, old(self).g1@) && out.1@
                == crate::group::mv_eval(rhs@, old(self).g1@),
    {
        Ok((lhs.evaluate(self.g1), rhs.evaluate(self.g1)))
    }

    fn finalize(self) -> (r: bool)
        ensures
            r == true,
    {
        true
    }
}

/// Folds the per-set MSMs with descending powers of gamma.
pub fn fold_msms(
    sets: &Vec<crate::multiopen::IntermediateSet>,
    commitments: &Vec<(usize, Msm)>,
    evaluations: &Vec<(Query, Scalar)>,
    powers_of_mu: &Vec<Scalar>,
    powers_of_gamma: &Vec<Scalar>,
) -> (r: Result<Msm, Error>)
    requires
        sets@.len() >= 1,
        cmt_distinct(commitments@),
        crate::expression::eval_distinct(evaluations@),
        powers_of_gamma@.len() == sets@.len(),
        forall|j: int|
            0 <= j < sets@.len() ==> 1 <= (#[trigger] sets@[j])@.polys.len() && 1
                <= sets@[j]@.rotations.len() && sets@[j]@.evaluation_coeffs.len()
                == sets@[j]@.rotations.len() && sets@[j]@.polys.len() <= powers_of_mu@.len(),
    ensures
        ({
            let sv = crate::multiopen::set_views(sets@);
            let cv = cmt_views_of(commitments@);
            let ev = eval_views_of(evaluations@);
            let mus = views_of(powers_of_mu@);
            let gs = views_of(powers_of_gamma@);
            let model = msms_models(sv, cv, ev, mus);
            &&& (r is Ok <==> model is Ok)
            &&& (r matches Ok(m) ==> model matches Ok(ms) && m@ == gfoldp(
                ms,
                gs,
                sets@.len() as int,
                sets@.len() as nat,
            ))
            &&& (r matches Err(e) ==> model matches Err(qv) && e == Error::MissingQuery(
                Query {
                    poly: qv.poly as usize,
                    rotation: Rotation { value: qv.rotation as i32 },
                },
            ))
        }),
{
    let ghost sv = crate::multiopen::set_views(sets@);
    let ghost cv = cmt_views_of(commitments@);
    let ghost ev = eval_views_of(evaluations@);
    let ghost mus = views_of(powers_of_mu@);
    let ghost gs = views_of(powers_of_gamma@);
    let total = sets.len();
    let mut acc: Option<Msm> = None;
    let ghost mut ms_seen: Seq<crate::group::MsmV> = Seq::empty();
    let mut s: usize = 0;
    while s < total
        invariant
            s <= total,
            total == sets@.len(),
            total >= 1,
            sv == crate::multiopen::set_views(sets@),
            cv == cmt_views_of(commitments@),
            ev == eval_views_of(evaluations@),
            mus == views_of(powers_of_mu@),
            gs == views_of(powers_of_gamma@),
            cmt_distinct(commitments@),
            crate::expression::eval_distinct(evaluations@),
            powers_of_gamma@.len() == total,
            forall|j: int|
                0 <= j < sets@.len() ==> 1 <= (#[trigger] sets@[j])@.polys.len() && 1
                    <= sets@[j]@.rotations.len() && sets@[j]@.evaluation_coeffs.len()
                    == sets@[j]@.rotations.len() && sets@[j]@.polys.len()
                    <= powers_of_mu@.len(),
            msms_models(sv.take(s as int), cv, ev, mus) == Result::<
                Seq<crate::group::MsmV>,
                crate::expression::QueryV,
            >::Ok(ms_seen),
            ms_seen.len() == s,
            s == 0 ==> acc is None,
            s > 0 ==> (acc matches Some(a) && a@ == gfoldp(ms_seen, gs, total as int, s as nat)),
        decreases total - s,
    {
        proof {
            assert(sv.take(s + 1).drop_last() =~= sv.take(s as int));
            assert(sv.take(s + 1).last() == sv[s as int]);
            assert(sets@[s as int]@ == sv[s as int]);
        }
        let msm_s = match sets[s].msm(&commitments, &evaluations, &powers_of_mu) {
            Ok(m) => m,
            Err(e) => {
                proof {
                    assert(msms_models(sv.take(s + 1), cv, ev, mus) is Err);
                    lemma_msms_err_propagates(
                        sv,
                        cv,
                        ev,
                        mus,
                        s + 1,
                        msms_models(sv.take(s + 1), cv, ev, mus)->Err_0,
                    );
                }
                return Err(e);
            },
        };
        let term = msm_s.scale(powers_of_gamma[total - 1 - s]);
        acc = match acc {
            Some(a) => Some(a.add(term)),
            None => Some(term),
        };
        proof {
            if s > 0 {
                lemma_gfoldp_push(ms_seen, msm_s@, gs, total as int, s as nat);
            }
            ms_seen = ms_seen.push(msm_s@);
        }
        s = s + 1;
    }
    proof {
        assert(sv.take(sv.len() as int) =~= sv);
    }
    match acc {
        Some(a) => Ok(a),
        None => {
            proof {
                assert(false);
            }
            Err(Error::NonInvertible)
        },
    }
}

/// Whether the front half of the pipeline succeeds: the proof reads, the
/// common-polynomial table builds, and the relations evaluate.
pub open spec fn front_ok(p: Protocol, stv: Seq<Seq<u64>>, t0: TranscriptV) -> bool {
    let t1 = after_init(p, t0);
    let pf = read_model(p, stv, t1);
    &&& read_ok(p, stv, t1)
    &&& cpe_ok_set(p.domain, pf.z, langranges_set(p, stv))
    &&& evaluations_model(p, pf) is Ok
}

/// The error the front half stops with when it fails.
pub open spec fn front_err(p: Protocol, stv: Seq<Seq<u64>>, t0: TranscriptV) -> Error {
    let t1 = after_init(p, t0);
    let pf = read_model(p, stv, t1);
    if !read_ok(p, stv, t1) {
        read_err(p, stv)
    } else if !cpe_ok_set(p.domain, pf.z, langranges_set(p, stv)) {
        Error::NonInvertible
    } else {
        evaluations_model(p, pf)->Err_0
    }
}

/// When the front half fails, the pipeline's error is the front's error.
proof fn lemma_pipeline_err_front(p: Protocol, stv: Seq<Seq<u64>>, t0: TranscriptV)
    requires
        !front_ok(p, stv, t0),
    ensures
        pipeline_err(p, stv, t0) == front_err(p, stv, t0),
        !pipeline_ok(p, stv, t0),
{
}

/// The front half of the pipeline: absorbs the initial state, reads the
/// proof, and builds the commitment and evaluation tables.
#[verifier::rlimit(100)]
fn prepare_tables(
    protocol: &Protocol,
    loader: &NativeLoader,
    statements: &Vec<Vec<u64>>,
    transcript: &mut Transcript,
) -> (r: Result<(Proof, Vec<(usize, Msm)>, Vec<(Query, Scalar)>), Error>)
    requires
        protocol.wf(),
    ensures
        ({
            let stv = stmt_words(statements@);
            let t0 = old(transcript)@;
            let t1 = after_init(*protocol, t0);
            let pf = read_model(*protocol, stv, t1);
            &&& (r is Ok <==> front_ok(*protocol, stv, t0))
            &&& (r matches Ok(out) ==> {
                &&& out.0@ == pf
                &&& cmt_views_of(out.1@) == commitments_model(
                    *protocol,
                    pf,
                    crate::protocol::zn_of(protocol.domain, pf.z),
                )
                &&& cmt_distinct(out.1@)
                &&& eval_views_of(out.2@) == evaluations_model(*protocol, pf)->Ok_0
                &&& crate::expression::eval_distinct(out.2@)
                &&& final (transcript)@ == read_end(*protocol, stv, t1)
            })
            &&& (r matches Err(e) ==> e == front_err(*protocol, stv, t0))
        }),
{
    let ghost p = *protocol;
    let ghost stv = stmt_words(statements@);
    let ghost t0 = old(transcript)@;
    let init = loader.load_const(protocol.transcript_initial_state.v);
    match transcript.common_scalar(&init) {
        Ok(_) => {},
        Err(e) => {
            proof {
                assert(false);
            }
            return Err(e);
        },
    }
    let ghost t1 = after_init(p, t0);
    proof {
        assert(transcript@ == t1);
    }
    let pf = match Proof::read(protocol, loader, statements, transcript) {
        Ok(pf) => pf,
        Err(e) => {
            return Err(e);
        },
    };
    let ghost pfv = read_model(p, stv, t1);

    proof {
        lemma_max_stmt_le(stv, p.domain.n as int);
    }
    let lv = langranges(protocol, statements);
    let cpe = match CommonPolynomialEvaluation::new(&protocol.domain, &lv, pf.z) {
        Ok(c) => c,
        Err(e) => {
            proof {
                lemma_lagset_range(p, stv);
                lemma_cpe_ok_bridge(p, stv, lv@, pfv.z);
            }
            return Err(e);
        },
    };
    proof {
        lemma_lagset_range(p, stv);
        lemma_cpe_ok_bridge(p, stv, lv@, pfv.z);
        lemma_keys_eq(p, stv, lv@, crate::expression::lag_keys(cpe.lagranges@));
    }

    proof {
        crate::protocol::lemma_usum_nonneg(p.num_auxiliary@);
    }
    let commitments = pf.commitments(protocol, loader, &cpe);
    let ghost cv = cmt_views_of(commitments@);
    proof {
        assert(cv == commitments_model(p, pfv, crate::protocol::zn_of(p.domain, pfv.z)));
    }

    proof {
        lemma_lag_domain_eq(p, stv, pfv);
    }
    let evaluations = match pf.evaluations(protocol, loader, &cpe) {
        Ok(t) => t,
        Err(e) => {
            return Err(e);
        },
    };
    let ghost ev = eval_views_of(evaluations@);
    proof {
        assert(ev == evaluations_model(p, pfv)->Ok_0);
    }

    Ok((pf, commitments, evaluations))
}

/// The back half of the pipeline: builds the intermediate sets, folds
/// their MSMs with descending powers of gamma, and assembles the two
/// pairing inputs.
#[verifier::rlimit(100)]
fn assemble_inputs(
    protocol: &Protocol,
    loader: &NativeLoader,
    pf: &Proof,
    commitments: &Vec<(usize, Msm)>,
    evaluations: &Vec<(Query, Scalar)>,
) -> (r: Result<(Msm, Msm), Error>)
    requires
        protocol.wf(),
        protocol.queries@.len() >= 1,
        cmt_distinct(commitments@),
        crate::expression::eval_distinct(evaluations@),
        cmt_views_of(commitments@) == commitments_model(
            *protocol,
            pf@,
            crate::protocol::zn_of(protocol.domain, pf@.z),
        ),
        evaluations_model(*protocol, pf@) is Ok,
        eval_views_of(evaluations@) == evaluations_model(*protocol, pf@)->Ok_0,
    ensures
        ({
            let sok = crate::multiopen::sets_ok(
                protocol.domain,
                pf@.z,
                pf@.z_prime,
                crate::multiopen::sets_of(crate::multiopen::q_views(protocol.queries@)),
            );
            &&& (r is Ok <==> sok && pipeline_msms(*protocol, pf@) is Ok)
            &&& (r matches Ok(out) ==> out.0@ == pipeline_lhs(*protocol, pf@) && out.1@
                == pipeline_rhs(pf@))
            &&& (r matches Err(e) ==> (if !sok {
                e == Error::NonInvertible
            } else {
                pipeline_msms(*protocol, pf@) matches Err(qv) && e == Error::MissingQuery(
                    Query {
                        poly: qv.poly as usize,
                        rotation: Rotation { value: qv.rotation as i32 },
                    },
                )
            }))
        }),
{
    let ghost p = *protocol;
    let ghost pfv = pf@;
    let ghost cv = cmt_views_of(commitments@);
    let ghost ev = eval_views_of(evaluations@);
    let sets = match crate::multiopen::intermediate_sets(protocol, loader, &pf.z, &pf.z_prime) {
        Ok(s) => s,
        Err(e) => {
            return Err(e);
        },
    };
    let ghost smodels = pipeline_sets(p, pfv);
    proof {
        crate::multiopen::lemma_groups_wf(crate::multiopen::q_views(p.queries@));
        crate::multiopen::lemma_sets_wf(
            crate::multiopen::groups_of(crate::multiopen::q_views(p.queries@)),
        );
        lemma_sets_nonempty(crate::multiopen::q_views(p.queries@));
        assert(crate::multiopen::set_views(sets@) == smodels);
        assert(sets@.len() == smodels.len());
        assert(sets@.len() >= 1);
    }

    // The largest poly count over the sets.
    let mut m_max: usize = 0;
    let mut si: usize = 0;
    while si < sets.len()
        invariant
            si <= sets@.len(),
            smodels == crate::multiopen::set_views(sets@),
            sets@.len() == smodels.len(),
            m_max == max_polys(smodels.take(si as int)),
        decreases sets@.len() - si,
    {
        proof {
            assert(smodels.take(si + 1).drop_last() =~= smodels.take(si as int));
            assert(smodels.take(si + 1).last() == smodels[si as int]);
            assert(smodels[si as int].polys.len() == sets@[si as int].polys@.len());
        }
        if sets[si].polys.len() > m_max {
            m_max = sets[si].polys.len();
        }
        si = si + 1;
    }
    proof {
        assert(smodels.take(smodels.len() as int) =~= smodels);
    }
    let powers_of_mu = pf.mu.powers(m_max);
    let ghost mus = mu_powers(pfv.mu, max_polys(smodels) as nat);
    proof {
        assert(views_of(powers_of_mu@) =~= mus);
    }

    let powers_of_gamma = pf.gamma.powers(sets.len());
    proof {
        assert forall|j: int| 0 <= j < sets@.len() implies 1 <= (#[trigger] sets@[j])@.polys.len()
            && 1 <= sets@[j]@.rotations.len() && sets@[j]@.evaluation_coeffs.len()
            == sets@[j]@.rotations.len() && sets@[j]@.polys.len() <= powers_of_mu@.len() by {
            assert(sets@[j]@ == smodels[j]);
            let structs = crate::multiopen::sets_of(crate::multiopen::q_views(p.queries@));
            assert(smodels[j] == crate::multiopen::set_model(
                p.domain,
                pfv.z,
                pfv.z_prime,
                structs[j].0,
                structs[j].1,
                if j == 0 {
                    None
                } else {
                    Some(
                        crate::multiopen::zs_prod(
                            p.domain,
                            pfv.z,
                            pfv.z_prime,
                            structs[0].1,
                            structs[0].1.len() as nat,
                        ),
                    )
                },
            ));
            lemma_max_polys_ge(smodels, j);
        }
    }
    let folded = match fold_msms(&sets, &commitments, &evaluations, &powers_of_mu, &powers_of_gamma)
    {
        Ok(m) => m,
        Err(e) => {
            proof {
                assert(pipeline_msms(p, pfv) is Err);
            }
            return Err(e);
        },
    };
    proof {
        let ms = msms_models(smodels, cv, ev, mus)->Ok_0;
        lemma_gfold_powers(
            ms,
            pfv.gamma,
            views_of(powers_of_gamma@),
            sets@.len() as int,
            sets@.len() as nat,
        );
    }
    let f = folded.sub(Msm::base(pf.w).scale(sets[0].z_s));
    let rhs = Msm::base(pf.w_prime);
    let lhs = f.add(Msm::base(pf.w_prime).scale(pf.z_prime));
    proof {
        assert(sets@[0]@ == smodels[0]);
        assert(lhs@ == pipeline_lhs(p, pfv));
        assert(rhs@ == pipeline_rhs(pfv));
    }
    Ok((lhs, rhs))
}

/// Reconstructs the two pairing inputs from the protocol, the statements
/// and the transcript: reads and evaluates, then builds the intermediate
/// sets and folds their MSMs.
pub fn pairing_inputs(
    protocol: &Protocol,
    loader: &NativeLoader,
    statements: &Vec<Vec<u64>>,
    transcript: &mut Transcript,
) -> (r: Result<(Proof, Msm, Msm), Error>)
    requires
        protocol.wf(),
        protocol.queries@.len() >= 1,
    ensures
        ({
            let stv = stmt_words(statements@);
            let t0 = old(transcript)@;
            let t1 = after_init(*protocol, t0);
            let pf = read_model(*protocol, stv, t1);
            &&& (r is Ok <==> pipeline_ok(*protocol, stv, t0))
            &&& (r matches Ok(out) ==> {
                &&& out.0@ == pf
                &&& out.1@ == pipeline_lhs(*protocol, pf)
                &&& out.2@ == pipeline_rhs(pf)
                &&& final (transcript)@ == read_end(*protocol, stv, t1)
            })
            &&& (r matches Err(e) ==> e == pipeline_err(*protocol, stv, t0))
        }),
{
    let ghost p = *protocol;
    let ghost stv = stmt_words(statements@);
    let ghost t0 = old(transcript)@;
    let (pf, commitments, evaluations) = match prepare_tables(
        protocol,
        loader,
        statements,
        transcript,
    ) {
        Ok(out) => out,
        Err(e) => {
            proof {
                lemma_pipeline_err_front(p, stv, t0);
            }
            return Err(e);
        },
    };
    let (lhs, rhs) = match assemble_inputs(protocol, loader, &pf, &commitments, &evaluations) {
        Ok(out) => out,
        Err(e) => {
            return Err(e);
        },
    };
    Ok((pf, lhs, rhs))
}

/// Lagrange references in an expression are `i32` indices.
proof fn lemma_used_range(e: crate::expression::Expression)
    ensures
        forall|x: int|
            crate::expression::used_lagrange_of(e).contains(x) ==> i32::MIN <= x <= i32::MAX,
    decreases e,
{
    assert forall|x: int|
        crate::expression::used_lagrange_of(e).contains(x) implies i32::MIN <= x <= i32::MAX by {
        match e {
            crate::expression::Expression::CommonPolynomial(cp) => {
                match cp {
                    crate::expression::CommonPolynomial::Lagrange(i) => {
                        assert(x == i as int);
                    },
                    _ => {},
                }
            },
            crate::expression::Expression::Negated(inner) => {
                lemma_used_range(*inner);
                assert(crate::expression::used_lagrange_of(*inner).contains(x));
            },
            crate::expression::Expression::Sum(a, b) => {
                lemma_used_range(*a);
                lemma_used_range(*b);
                assert(crate::expression::used_lagrange_of(e)
                    == crate::expression::used_lagrange_of(*a).union(
                    crate::expression::used_lagrange_of(*b),
                ));
                if crate::expression::used_lagrange_of(*a).contains(x) {
                } else {
                    assert(crate::expression::used_lagrange_of(*b).contains(x));
                }
            },
            crate::expression::Expression::Product(a, b) => {
                lemma_used_range(*a);
                lemma_used_range(*b);
                assert(crate::expression::used_lagrange_of(e)
                    == crate::expression::used_lagrange_of(*a).union(
                    crate::expression::used_lagrange_of(*b),
                ));
                if crate::expression::used_lagrange_of(*a).contains(x) {
                } else {
                    assert(crate::expression::used_lagrange_of(*b).contains(x));
                }
            },
            crate::expression::Expression::Scaled(inner, _) => {
                lemma_used_range(*inner);
                assert(crate::expression::used_lagrange_of(*inner).contains(x));
            },
            _ => {},
        }
    }
}

/// Every index the verifier needs is an `i32`.
proof fn lemma_lagset_range(p: Protocol, stv: Seq<Seq<u64>>)
    requires
        max_stmt_len(stv) <= 0x7fff_ffff,
    ensures
        forall|x: int|
            langranges_set(p, stv).contains(x) ==> i32::MIN <= x <= i32::MAX,
{
    assert forall|x: int| langranges_set(p, stv).contains(x) implies i32::MIN <= x <= i32::MAX by {
        if rels_used(p.relations@).contains(x) {
            let i = choose|i: int|
                0 <= i < p.relations@.len() && (#[trigger] crate::expression::used_lagrange_of(
                    p.relations@[i],
                )).contains(x);
            lemma_used_range(p.relations@[i]);
        }
    }
}

/// The built table covers exactly the indices the verifier needs.
proof fn lemma_keys_eq(p: Protocol, stv: Seq<Seq<u64>>, lv: Seq<i32>, ks: Set<int>)
    requires
        forall|x: i32| lv.contains(x) <==> langranges_set(p, stv).contains(x as int),
        forall|x: int| langranges_set(p, stv).contains(x) ==> i32::MIN <= x <= i32::MAX,
        forall|k: int| ks.contains(k) <==> exists|j: int|
            0 <= j < lv.len() && (#[trigger] lv[j]) as int == k,
    ensures
        ks == langranges_set(p, stv),
{
    assert(ks =~= langranges_set(p, stv)) by {
        assert forall|k: int| ks.contains(k) implies langranges_set(p, stv).contains(k) by {
            let j = choose|j: int| 0 <= j < lv.len() && (#[trigger] lv[j]) as int == k;
            assert(lv.contains(lv[j]));
        }
        assert forall|k: int| langranges_set(p, stv).contains(k) implies ks.contains(k) by {
            assert(lv.contains(k as i32));
            let j = choose|j: int| 0 <= j < lv.len() && lv[j] == k as i32;
            assert(lv[j] as int == k);
        }
    }
}

/// The common-polynomial table succeeds on the collected index list
/// exactly when it succeeds on the index set the protocol needs.
proof fn lemma_cpe_ok_bridge(p: Protocol, stv: Seq<Seq<u64>>, lv: Seq<i32>, z: int)
    requires
        forall|x: i32| lv.contains(x) <==> langranges_set(p, stv).contains(x as int),
        forall|x: int| langranges_set(p, stv).contains(x) ==> i32::MIN <= x <= i32::MAX,
    ensures
        CommonPolynomialEvaluation::ok(p.domain, z, lv) <==> cpe_ok_set(
            p.domain,
            z,
            langranges_set(p, stv),
        ),
{
    if CommonPolynomialEvaluation::ok(p.domain, z, lv) {
        assert forall|k: int| langranges_set(p, stv).contains(k) implies crate::field::has_inv(
            #[trigger] crate::protocol::lag_denom(p.domain, z, k),
        ) by {
            assert(lv.contains(k as i32));
            let j = choose|j: int| 0 <= j < lv.len() && lv[j] == k as i32;
            assert(crate::field::has_inv(crate::protocol::lag_denom(p.domain, z, lv[j] as int)));
        }
    }
    if cpe_ok_set(p.domain, z, langranges_set(p, stv)) {
        assert forall|j: int| 0 <= j < lv.len() implies crate::field::has_inv(
            crate::protocol::lag_denom(p.domain, z, (#[trigger] lv[j]) as int),
        ) by {
            assert(lv.contains(lv[j]));
            assert(langranges_set(p, stv).contains(lv[j] as int));
        }
    }
}

/// The Lagrange domain of the loaded proof is the index set collected from
/// the raw statements.
proof fn lemma_lag_domain_eq(p: Protocol, stv: Seq<Seq<u64>>, pf: ProofV)
    requires
        pf.statements == loaded_stmts(stv),
    ensures
        lag_domain(p, pf) == langranges_set(p, stv),
{
    lemma_loaded_max(stv);
    assert(lag_domain(p, pf) =~= langranges_set(p, stv));
}

/// Verifies one proof: reconstructs the pairing inputs and hands them to
/// the strategy, which owns the final pairing decision.
pub fn verify_proof<V: VerificationStrategy>(
    protocol: &Protocol,
    loader: &NativeLoader,
    statements: &Vec<Vec<u64>>,
    transcript: &mut Transcript,
    strategy: &mut V,
) -> (r: Result<V::Output, Error>)
    requires
        protocol.wf(),
        protocol.queries@.len() >= 1,
    ensures
        !pipeline_ok(*protocol, stmt_words(statements@), old(transcript)@) ==> r
            == Result::<V::Output, Error>::Err(
            pipeline_err(*protocol, stmt_words(statements@), old(transcript)@),
        ),
        pipeline_ok(*protocol, stmt_words(statements@), old(transcript)@) ==> final (transcript)@
            == read_end(
            *protocol,
            stmt_words(statements@),
            after_init(*protocol, old(transcript)@),
        ),
{
    let (proof, lhs, rhs) = match pairing_inputs(protocol, loader, statements, transcript) {
        Ok(out) => out,
        Err(e) => {
            return Err(e);
        },
    };
    strategy.process(loader, proof, lhs, rhs)
}

/// A failed read inside the stream means the whole stream does not read.
proof fn lemma_read_fail_prefix(p: Protocol, t0: TranscriptV, before: nat, n: nat)
    requires
        before + n <= total_read(p),
        !valid_range(t0.data, t0.pos + before, n),
    ensures
        !valid_range(t0.data, t0.pos, total_read(p) as nat),
{
    if valid_range(t0.data, t0.pos, total_read(p) as nat) {
        assert forall|j: int| 0 <= j < n implies #[trigger] crate::transcript::valid_word(
            t0.data,
            t0.pos + before + j,
        ) by {
            assert(crate::transcript::valid_word(t0.data, t0.pos + (before + j)));
        }
    }
}

} // verus!

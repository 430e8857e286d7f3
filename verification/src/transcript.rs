//! The Fiat-Shamir transcript state machine.
//!
//! The verifier core consumes the transcript, it does not define the hash:
//! this build uses a small sponge over the scalar field.  What the core
//! depends on is exactly what the contracts state: reading is sequential
//! over a word stream, every absorbed value folds into the sponge state, and
//! every squeeze is a deterministic function of that state.  A proof is a
//! sequence of `u64` words, one per scalar or group element; a word is valid
//! when it is a canonical field encoding (below `P`).

use vstd::prelude::*;
use crate::field::{Scalar, P};
use crate::group::EcPoint;
use crate::Error;

verus! {

/// The mathematical state of a transcript: the word stream, the read
/// cursor, and the sponge state.
pub ghost struct TranscriptV {
    pub data: Seq<u64>,
    pub pos: int,
    pub state: int,
}

/// One absorption step of the sponge.
pub open spec fn absorb_s(st: int, w: int) -> int {
    (st * 31 + w + 1) % (P as int)
}

/// One squeeze step: the new sponge state, which is also the challenge.
pub open spec fn squeeze_s(st: int) -> int {
    (st * st + st + 41) % (P as int)
}

/// The sponge state after absorbing the words `data[pos .. pos + n]`.
pub open spec fn absorb_range(st: int, data: Seq<u64>, pos: int, n: nat) -> int
    decreases n,
{
    if n == 0 {
        st
    } else {
        absorb_s(absorb_range(st, data, pos, (n - 1) as nat), data[pos + n - 1] as int % (P as int))
    }
}

/// The sponge state after absorbing the values `vals`.
pub open spec fn absorb_vals(st: int, vals: Seq<int>) -> int
    decreases vals.len(),
{
    if vals.len() == 0 {
        st
    } else {
        absorb_s(absorb_vals(st, vals.drop_last()), vals.last())
    }
}

/// The sponge state after `m` squeezes.
pub open spec fn squeeze_iter(st: int, m: nat) -> int
    decreases m,
{
    if m == 0 {
        st
    } else {
        squeeze_s(squeeze_iter(st, (m - 1) as nat))
    }
}

/// The `m` challenges squeezed in a row from state `st`.
pub open spec fn squeeze_seq(st: int, m: nat) -> Seq<int> {
    Seq::new(m, |j: int| squeeze_iter(st, (j + 1) as nat))
}

/// Whether the word at `i` can be read: in range and a canonical encoding.
pub open spec fn valid_word(data: Seq<u64>, i: int) -> bool {
    0 <= i < data.len() && data[i] < P
}

/// Whether the `n` words from `pos` on can all be read.
pub open spec fn valid_range(data: Seq<u64>, pos: int, n: nat) -> bool {
    forall|j: int| 0 <= j < n ==> #[trigger] valid_word(data, pos + j)
}

/// The values of the `n` words from `pos` on.
pub open spec fn words(data: Seq<u64>, pos: int, n: nat) -> Seq<int> {
    Seq::new(n, |j: int| data[pos + j] as int % (P as int))
}

/// A Fiat-Shamir transcript over a word stream.
pub struct Transcript {
    pub data: Vec<u64>,
    pub pos: usize,
    pub state: u64,
}

impl View for Transcript {
    type V = TranscriptV;

    open spec fn view(&self) -> TranscriptV {
        TranscriptV { data: self.data@, pos: self.pos as int, state: (self.state % P) as int }
    }
}

impl Transcript {
    /// Starts a transcript over a proof's word stream.
    pub fn init(data: Vec<u64>) -> (r: Transcript)
        ensures
            r@.data == data@,
            r@.pos == 0,
            r@.state == 0,
    {
        Transcript { data, pos: 0, state: 0 }
    }

    /// Absorbs a scalar without reading anything.
    pub fn common_scalar(&mut self, s: &Scalar) -> (r: Result<(), Error>)
        ensures
            r is Ok,
            final (self)@.data == old(self)@.data,
            final (self)@.pos == old(self)@.pos,
            final (self)@.state == absorb_s(old(self)@.state, s@),
    {
        self.state = ((self.state % P) * 31 + s.v % P + 1) % P;
        Ok(())
    }

    /// Absorbs a group element without reading anything.
    pub fn common_ec_point(&mut self, p: &EcPoint) -> (r: Result<(), Error>)
        ensures
            r is Ok,
            final (self)@.data == old(self)@.data,
            final (self)@.pos == old(self)@.pos,
            final (self)@.state == absorb_s(old(self)@.state, p@),
    {
        self.state = ((self.state % P) * 31 + p.v % P + 1) % P;
        Ok(())
    }

    /// Reads the next word as a scalar, absorbing it.
    pub fn read_scalar(&mut self) -> (r: Result<Scalar, Error>)
        ensures
            r is Ok <==> valid_word(old(self)@.data, old(self)@.pos),
            final (self)@.data == old(self)@.data,
            r matches Ok(s) ==> {
                &&& s@ == old(self)@.data[old(self)@.pos] as int % (P as int)
                &&& final (self)@.pos == old(self)@.pos + 1
                &&& final (self)@.state == absorb_s(old(self)@.state, s@)
            },
            r is Err ==> r == Result::<Scalar, Error>::Err(Error::TranscriptRead) && final (self)@
                == old(self)@,
    {
        if self.pos < self.data.len() {
            let w = self.data[self.pos];
            if w < P {
                self.pos = self.pos + 1;
                self.state = ((self.state % P) * 31 + w % P + 1) % P;
                return Ok(Scalar::new(w));
            }
        }
        Err(Error::TranscriptRead)
    }

    /// Reads the next word as a group element, absorbing it.
    pub fn read_ec_point(&mut self) -> (r: Result<EcPoint, Error>)
        ensures
            r is Ok <==> valid_word(old(self)@.data, old(self)@.pos),
            final (self)@.data == old(self)@.data,
            r matches Ok(p) ==> {
                &&& p@ == old(self)@.data[old(self)@.pos] as int % (P as int)
                &&& final (self)@.pos == old(self)@.pos + 1
                &&& final (self)@.state == absorb_s(old(self)@.state, p@)
            },
            r is Err ==> r == Result::<EcPoint, Error>::Err(Error::TranscriptRead) && final (self)@
                == old(self)@,
    {
        if self.pos < self.data.len() {
            let w = self.data[self.pos];
            if w < P {
                self.pos = self.pos + 1;
                self.state = ((self.state % P) * 31 + w % P + 1) % P;
                return Ok(EcPoint::new(w));
            }
        }
        Err(Error::TranscriptRead)
    }

    /// Squeezes one challenge out of the sponge.
    pub fn squeeze_challenge(&mut self) -> (r: Scalar)
        ensures
            final (self)@.data == old(self)@.data,
            final (self)@.pos == old(self)@.pos,
            final (self)@.state == squeeze_s(old(self)@.state),
            r@ == squeeze_s(old(self)@.state),
    {
        let st = self.state % P;
        proof {
            assert(st * st <= 65520 * 65520) by (nonlinear_arith)
                requires
                    st <= 65520,
            ;
        }
        self.state = (st * st + st + 41) % P;
        Scalar::new(self.state)
    }

    /// Reads `n` scalars in a row.
    pub fn read_n_scalars(&mut self, n: usize) -> (r: Result<Vec<Scalar>, Error>)
        ensures
            r is Ok <==> valid_range(old(self)@.data, old(self)@.pos, n as nat),
            final (self)@.data == old(self)@.data,
            r matches Ok(v) ==> {
                &&& crate::field::views_of(v@) == words(old(self)@.data, old(self)@.pos, n as nat)
                &&& final (self)@.pos == old(self)@.pos + n
                &&& final (self)@.state == absorb_range(
                    old(self)@.state,
                    old(self)@.data,
                    old(self)@.pos,
                    n as nat,
                )
            },
            r is Err ==> r == Result::<Vec<Scalar>, Error>::Err(Error::TranscriptRead),
    {
        let ghost t0 = old(self)@;
        let mut out: Vec<Scalar> = Vec::new();
        let mut i: usize = 0;
        while i < n
            invariant
                i <= n,
                t0 == old(self)@,
                self@.data == t0.data,
                self@.pos == t0.pos + i,
                self@.pos <= usize::MAX,
                out@.len() == i,
                valid_range(t0.data, t0.pos, i as nat),
                crate::field::views_of(out@) == words(t0.data, t0.pos, i as nat),
                self@.state == absorb_range(t0.state, t0.data, t0.pos, i as nat),
            decreases n - i,
        {
            let ghost prev = out@;
            let s = match self.read_scalar() {
                Ok(s) => s,
                Err(e) => {
                    proof {
                        assert(!valid_word(t0.data, t0.pos + i));
                        assert(!valid_range(t0.data, t0.pos, n as nat));
                    }
                    return Err(e);
                },
            };
            out.push(s);
            proof {
                crate::field::lemma_views_of_push(prev, s);
                lemma_words_snoc(t0.data, t0.pos, i as nat);
            }
            i = i + 1;
        }
        Ok(out)
    }

    /// Reads `n` group elements in a row.
    pub fn read_n_ec_points(&mut self, n: usize) -> (r: Result<Vec<EcPoint>, Error>)
        ensures
            r is Ok <==> valid_range(old(self)@.data, old(self)@.pos, n as nat),
            final (self)@.data == old(self)@.data,
            r matches Ok(v) ==> {
                &&& point_views_of(v@) == words(old(self)@.data, old(self)@.pos, n as nat)
                &&& final (self)@.pos == old(self)@.pos + n
                &&& final (self)@.state == absorb_range(
                    old(self)@.state,
                    old(self)@.data,
                    old(self)@.pos,
                    n as nat,
                )
            },
            r is Err ==> r == Result::<Vec<EcPoint>, Error>::Err(Error::TranscriptRead),
    {
        let ghost t0 = old(self)@;
        let mut out: Vec<EcPoint> = Vec::new();
        let mut i: usize = 0;
        while i < n
            invariant
                i <= n,
                t0 == old(self)@,
                self@.data == t0.data,
                self@.pos == t0.pos + i,
                self@.pos <= usize::MAX,
                out@.len() == i,
                valid_range(t0.data, t0.pos, i as nat),
                point_views_of(out@) == words(t0.data, t0.pos, i as nat),
                self@.state == absorb_range(t0.state, t0.data, t0.pos, i as nat),
            decreases n - i,
        {
            let ghost prev = out@;
            let p = match self.read_ec_point() {
                Ok(p) => p,
                Err(e) => {
                    proof {
                        assert(!valid_word(t0.data, t0.pos + i));
                        assert(!valid_range(t0.data, t0.pos, n as nat));
                    }
                    return Err(e);
                },
            };
            out.push(p);
            proof {
                lemma_point_views_of_push(prev, p);
                lemma_words_snoc(t0.data, t0.pos, i as nat);
            }
            i = i + 1;
        }
        Ok(out)
    }

    /// Squeezes `n` challenges in a row.
    pub fn squeeze_n_challenges(&mut self, n: usize) -> (r: Vec<Scalar>)
        ensures
            final (self)@.data == old(self)@.data,
            final (self)@.pos == old(self)@.pos,
            final (self)@.state == squeeze_iter(old(self)@.state, n as nat),
            crate::field::views_of(r@) == squeeze_seq(old(self)@.state, n as nat),
    {
        let ghost t0 = old(self)@;
        let mut out: Vec<Scalar> = Vec::new();
        let mut i: usize = 0;
        while i < n
            invariant
                i <= n,
                self@.data == t0.data,
                self@.pos == t0.pos,
                out@.len() == i,
                crate::field::views_of(out@) == squeeze_seq(t0.state, i as nat),
                self@.state == squeeze_iter(t0.state, i as nat),
            decreases n - i,
        {
            let ghost prev = out@;
            let c = self.squeeze_challenge();
            out.push(c);
            proof {
                crate::field::lemma_views_of_push(prev, c);
                lemma_squeeze_seq_snoc(t0.state, i as nat);
            }
            i = i + 1;
        }
        out
    }
}

/// The sequence of views of a sequence of group elements.
pub open spec fn point_views_of(s: Seq<EcPoint>) -> Seq<int> {
    Seq::new(s.len(), |i: int| s[i]@)
}

pub proof fn lemma_point_views_of_push(prev: Seq<EcPoint>, p: EcPoint)
    ensures
        point_views_of(prev.push(p)) == point_views_of(prev).push(p@),
{
    assert(point_views_of(prev.push(p)) =~= point_views_of(prev).push(p@));
}

pub proof fn lemma_words_snoc(data: Seq<u64>, pos: int, n: nat)
    ensures
        words(data, pos, n + 1) == words(data, pos, n).push(data[pos + n] as int % (P as int)),
{
    assert(words(data, pos, n + 1) =~= words(data, pos, n).push(
        data[pos + n] as int % (P as int),
    ));
}

/// A contiguous range reads iff both its halves read.
pub proof fn lemma_valid_range_split(data: Seq<u64>, pos: int, a: nat, b: nat)
    ensures
        valid_range(data, pos, (a + b) as nat) <==> (valid_range(data, pos, a) && valid_range(
            data,
            pos + a,
            b,
        )),
{
    if valid_range(data, pos, (a + b) as nat) {
        assert forall|j: int| 0 <= j < a implies #[trigger] valid_word(data, pos + j) by {
            assert(valid_word(data, pos + j));
        }
        assert forall|j: int| 0 <= j < b implies #[trigger] valid_word(data, pos + a + j) by {
            assert(valid_word(data, pos + (a + j)));
        }
    }
    if valid_range(data, pos, a) && valid_range(data, pos + a, b) {
        assert forall|j: int| 0 <= j < a + b implies #[trigger] valid_word(data, pos + j) by {
            if j < a {
                assert(valid_word(data, pos + j));
            } else {
                assert(valid_word(data, pos + a + (j - a)));
            }
        }
    }
}

/// The words of a contiguous range are the words of its halves.
pub proof fn lemma_words_split(data: Seq<u64>, pos: int, a: nat, b: nat)
    ensures
        words(data, pos, (a + b) as nat) == words(data, pos, a) + words(data, pos + a, b),
{
    assert(words(data, pos, (a + b) as nat) =~= words(data, pos, a) + words(data, pos + a, b));
}

/// Absorbing a contiguous range is absorbing its halves in order.
pub proof fn lemma_absorb_range_split(st: int, data: Seq<u64>, pos: int, a: nat, b: nat)
    ensures
        absorb_range(st, data, pos, (a + b) as nat) == absorb_range(
            absorb_range(st, data, pos, a),
            data,
            pos + a,
            b,
        ),
    decreases b,
{
    if b > 0 {
        lemma_absorb_range_split(st, data, pos, a, (b - 1) as nat);
    }
}

pub proof fn lemma_squeeze_seq_snoc(st: int, n: nat)
    ensures
        squeeze_seq(st, n + 1) == squeeze_seq(st, n).push(squeeze_iter(st, n + 1)),
{
    assert(squeeze_seq(st, n + 1) =~= squeeze_seq(st, n).push(squeeze_iter(st, n + 1)));
}

} // verus!

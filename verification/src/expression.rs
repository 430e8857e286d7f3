//! Symbolic circuit relations and the query plan vocabulary.

use vstd::prelude::*;
use crate::field::{fadd, fmul, fneg, Scalar};
use crate::Error;

verus! {

/// A signed offset against the multiplicative subgroup generator.
#[derive(Clone, Copy, PartialEq, Eq, Structural, Debug)]
pub struct Rotation {
    pub value: i32,
}

impl View for Rotation {
    type V = int;

    open spec fn view(&self) -> int {
        self.value as int
    }
}

impl Rotation {
    pub fn new(value: i32) -> (r: Rotation)
        ensures
            r@ == value,
    {
        Rotation { value }
    }

    /// The current row: rotation zero.
    pub fn cur() -> (r: Rotation)
        ensures
            r@ == 0,
    {
        Rotation { value: 0 }
    }
}

/// An opening of the polynomial `poly` at the rotated challenge point.
/// Queries are compared structurally.
#[derive(Clone, Copy, PartialEq, Eq, Structural, Debug)]
pub struct Query {
    pub poly: usize,
    pub rotation: Rotation,
}

/// The mathematical value of a query: `(poly, rotation)`.
pub ghost struct QueryV {
    pub poly: int,
    pub rotation: int,
}

impl View for Query {
    type V = QueryV;

    open spec fn view(&self) -> QueryV {
        QueryV { poly: self.poly as int, rotation: self.rotation@ }
    }
}

impl Query {
    pub fn new(poly: usize, rotation: Rotation) -> (r: Query)
        ensures
            r@.poly == poly,
            r@.rotation == rotation@,
    {
        Query { poly, rotation }
    }
}

/// A polynomial whose evaluation at the challenge point is derived from the
/// domain alone.
#[derive(Clone, Copy, PartialEq, Eq, Structural, Debug)]
pub enum CommonPolynomial {
    Identity,
    Lagrange(i32),
}

/// A symbolic circuit relation, evaluated homomorphically at the challenge
/// point.
#[derive(Debug)]
pub enum Expression {
    Constant(Scalar),
    CommonPolynomial(CommonPolynomial),
    Polynomial(Query),
    Challenge(usize),
    Negated(Box<Expression>),
    Sum(Box<Expression>, Box<Expression>),
    Product(Box<Expression>, Box<Expression>),
    Scaled(Box<Expression>, Scalar),
}

/// The degree of an expression, counting queried and common polynomials as
/// degree one.
pub open spec fn degree_of(e: Expression) -> int
    decreases e,
{
    match e {
        Expression::Constant(_) => 0,
        Expression::CommonPolynomial(_) => 1,
        Expression::Polynomial(_) => 1,
        Expression::Challenge(_) => 0,
        Expression::Negated(inner) => degree_of(*inner),
        Expression::Sum(a, b) => if degree_of(*a) >= degree_of(*b) {
            degree_of(*a)
        } else {
            degree_of(*b)
        },
        Expression::Product(a, b) => degree_of(*a) + degree_of(*b),
        Expression::Scaled(inner, _) => degree_of(*inner),
    }
}

/// The set of Lagrange indices an expression references.
pub open spec fn used_lagrange_of(e: Expression) -> Set<int>
    decreases e,
{
    match e {
        Expression::Constant(_) => Set::empty(),
        Expression::CommonPolynomial(cp) => match cp {
            CommonPolynomial::Identity => Set::empty(),
            CommonPolynomial::Lagrange(i) => Set::empty().insert(i as int),
        },
        Expression::Polynomial(_) => Set::empty(),
        Expression::Challenge(_) => Set::empty(),
        Expression::Negated(inner) => used_lagrange_of(*inner),
        Expression::Sum(a, b) => used_lagrange_of(*a).union(used_lagrange_of(*b)),
        Expression::Product(a, b) => used_lagrange_of(*a).union(used_lagrange_of(*b)),
        Expression::Scaled(inner, _) => used_lagrange_of(*inner),
    }
}

/// The set of queries an expression references.
pub open spec fn used_queries(e: Expression) -> Set<QueryV>
    decreases e,
{
    match e {
        Expression::Constant(_) => Set::empty(),
        Expression::CommonPolynomial(_) => Set::empty(),
        Expression::Polynomial(q) => Set::empty().insert(q@),
        Expression::Challenge(_) => Set::empty(),
        Expression::Negated(inner) => used_queries(*inner),
        Expression::Sum(a, b) => used_queries(*a).union(used_queries(*b)),
        Expression::Product(a, b) => used_queries(*a).union(used_queries(*b)),
        Expression::Scaled(inner, _) => used_queries(*inner),
    }
}

/// The environment an expression is evaluated in: the common-polynomial
/// evaluations, the evaluation table, and the flattened challenges.
pub ghost struct EvalEnv {
    pub identity: int,
    pub lagrange: Map<int, int>,
    pub lagrange_keys: Set<int>,
    pub evals: Map<QueryV, int>,
    pub eval_keys: Set<QueryV>,
    pub challenges: Seq<int>,
}

/// The value of an expression under `env`, or the first error its
/// left-to-right traversal hits: `MissingQuery` for a query outside the
/// evaluation table, `MissingChallenge` for a challenge index out of range.
pub open spec fn eval_expr(e: Expression, env: EvalEnv) -> Result<int, Error>
    decreases e,
{
    match e {
        Expression::Constant(s) => Ok(s@),
        Expression::CommonPolynomial(cp) => match cp {
            CommonPolynomial::Identity => Ok(env.identity),
            CommonPolynomial::Lagrange(i) => Ok(env.lagrange[i as int]),
        },
        Expression::Polynomial(q) => if env.eval_keys.contains(q@) {
            Ok(env.evals[q@])
        } else {
            Err(Error::MissingQuery(q))
        },
        Expression::Challenge(i) => if i < env.challenges.len() {
            Ok(env.challenges[i as int])
        } else {
            Err(Error::MissingChallenge(i))
        },
        Expression::Negated(inner) => match eval_expr(*inner, env) {
            Ok(v) => Ok(fneg(v)),
            Err(err) => Err(err),
        },
        Expression::Sum(a, b) => match eval_expr(*a, env) {
            Ok(va) => match eval_expr(*b, env) {
                Ok(vb) => Ok(fadd(va, vb)),
                Err(err) => Err(err),
            },
            Err(err) => Err(err),
        },
        Expression::Product(a, b) => match eval_expr(*a, env) {
            Ok(va) => match eval_expr(*b, env) {
                Ok(vb) => Ok(fmul(va, vb)),
                Err(err) => Err(err),
            },
            Err(err) => Err(err),
        },
        Expression::Scaled(inner, s) => match eval_expr(*inner, env) {
            Ok(v) => Ok(fmul(v, s@)),
            Err(err) => Err(err),
        },
    }
}

impl Expression {
    /// The degree of the relation.  The bound keeps the additions of the
    /// `Product` arms inside the machine word.
    pub fn degree(&self) -> (r: i64)
        requires
            degree_of(*self) <= u32::MAX,
        ensures
            r == degree_of(*self),
            r >= 0,
        decreases *self,
    {
        proof {
            lemma_degree_nonneg(*self);
        }
        match self {
            Expression::Constant(_) => 0,
            Expression::CommonPolynomial(_) => 1,
            Expression::Polynomial(_) => 1,
            Expression::Challenge(_) => 0,
            Expression::Negated(inner) => inner.degree(),
            Expression::Sum(a, b) => {
                proof {
                    lemma_degree_nonneg(**a);
                    lemma_degree_nonneg(**b);
                }
                let da = a.degree();
                let db = b.degree();
                if da >= db {
                    da
                } else {
                    db
                }
            },
            Expression::Product(a, b) => {
                proof {
                    lemma_degree_nonneg(**a);
                    lemma_degree_nonneg(**b);
                }
                let da = a.degree();
                let db = b.degree();
                da + db
            },
            Expression::Scaled(inner, _) => inner.degree(),
        }
    }

    /// The Lagrange indices the relation references, without a promised
    /// order and possibly with repetitions.
    pub fn used_langrange(&self) -> (r: Vec<i32>)
        ensures
            forall|x: i32| used_lagrange_of(*self).contains(x as int) <==> r@.contains(x),
        decreases *self,
    {
        match self {
            Expression::Constant(_) => Vec::new(),
            Expression::CommonPolynomial(cp) => {
                let mut r: Vec<i32> = Vec::new();
                match cp {
                    CommonPolynomial::Identity => {},
                    CommonPolynomial::Lagrange(i) => {
                        r.push(*i);
                        proof {
                            assert(r@[0] == *i);
                            assert(r@.contains(*i));
                        }
                    },
                }
                r
            },
            Expression::Polynomial(_) => Vec::new(),
            Expression::Challenge(_) => Vec::new(),
            Expression::Negated(inner) => inner.used_langrange(),
            Expression::Sum(a, b) => concat_i32(a.used_langrange(), b.used_langrange()),
            Expression::Product(a, b) => concat_i32(a.used_langrange(), b.used_langrange()),
            Expression::Scaled(inner, _) => inner.used_langrange(),
        }
    }
}

/// Whether a sequence of queries is pairwise distinct.
pub open spec fn qseq_distinct(s: Seq<Query>) -> bool {
    forall|j1: int, j2: int| 0 <= j1 < j2 < s.len() ==> (#[trigger] s[j1])@ != (#[trigger] s[j2])@
}

/// Whether the keys of a Lagrange table are pairwise distinct.
pub open spec fn lag_distinct(t: Seq<(i32, Scalar)>) -> bool {
    forall|j1: int, j2: int| 0 <= j1 < j2 < t.len() ==> (#[trigger] t[j1]).0 != (#[trigger] t[j2]).0
}

/// The key set of a Lagrange table.
pub open spec fn lag_keys(t: Seq<(i32, Scalar)>) -> Set<int> {
    Set::new(|k: int| exists|j: int| 0 <= j < t.len() && (#[trigger] t[j]).0 == k)
}

/// The map a Lagrange table stands for (keys assumed distinct).
pub open spec fn lag_map(t: Seq<(i32, Scalar)>) -> Map<int, int> {
    Map::new(
        |k: int| lag_keys(t).contains(k),
        |k: int| t[choose|j: int| 0 <= j < t.len() && (#[trigger] t[j]).0 == k].1@,
    )
}

/// Whether the keys of an evaluation table are pairwise distinct.
pub open spec fn eval_distinct(t: Seq<(Query, Scalar)>) -> bool {
    forall|j1: int, j2: int| 0 <= j1 < j2 < t.len() ==> (#[trigger] t[j1]).0@ != (
    #[trigger] t[j2]).0@
}

/// The key set of an evaluation table.
pub open spec fn eval_keys(t: Seq<(Query, Scalar)>) -> Set<QueryV> {
    Set::new(|q: QueryV| exists|j: int| 0 <= j < t.len() && (#[trigger] t[j]).0@ == q)
}

/// The map an evaluation table stands for (keys assumed distinct).
pub open spec fn eval_map(t: Seq<(Query, Scalar)>) -> Map<QueryV, int> {
    Map::new(
        |q: QueryV| eval_keys(t).contains(q),
        |q: QueryV| t[choose|j: int| 0 <= j < t.len() && (#[trigger] t[j]).0@ == q].1@,
    )
}

/// The evaluation environment the exec tables stand for.
pub open spec fn env_of(
    identity: int,
    lag: Seq<(i32, Scalar)>,
    evals: Seq<(Query, Scalar)>,
    challenges: Seq<Scalar>,
) -> EvalEnv {
    EvalEnv {
        identity,
        lagrange: lag_map(lag),
        lagrange_keys: lag_keys(lag),
        evals: eval_map(evals),
        eval_keys: eval_keys(evals),
        challenges: crate::field::views_of(challenges),
    }
}

/// Looks a Lagrange index up in the table.
pub fn lag_get(t: &Vec<(i32, Scalar)>, k: i32) -> (r: Option<Scalar>)
    requires
        lag_distinct(t@),
    ensures
        r is Some <==> lag_keys(t@).contains(k as int),
        r matches Some(s) ==> s@ == lag_map(t@)[k as int],
{
    let mut j: usize = 0;
    while j < t.len()
        invariant
            j <= t@.len(),
            lag_distinct(t@),
            forall|j2: int| 0 <= j2 < j ==> (#[trigger] t@[j2]).0 != k,
        decreases t@.len() - j,
    {
        if t[j].0 == k {
            proof {
                assert(lag_keys(t@).contains(k as int));
                let w = choose|w: int| 0 <= w < t@.len() && (#[trigger] t@[w]).0 == k as i32;
                assert(w == j);
            }
            return Some(t[j].1);
        }
        j = j + 1;
    }
    None
}

/// Looks a query up in the evaluation table.
pub fn eval_get(t: &Vec<(Query, Scalar)>, q: Query) -> (r: Option<Scalar>)
    requires
        eval_distinct(t@),
    ensures
        r is Some <==> eval_keys(t@).contains(q@),
        r matches Some(s) ==> s@ == eval_map(t@)[q@],
{
    let mut j: usize = 0;
    while j < t.len()
        invariant
            j <= t@.len(),
            eval_distinct(t@),
            forall|j2: int| 0 <= j2 < j ==> (#[trigger] t@[j2]).0@ != q@,
        decreases t@.len() - j,
    {
        if t[j].0 == q {
            proof {
                assert((t@[j as int]).0@ == q@);
                assert(eval_keys(t@).contains(q@));
                let w = choose|w: int| 0 <= w < t@.len() && (#[trigger] t@[w]).0@ == q@;
                assert(w == j);
            }
            return Some(t[j].1);
        }
        j = j + 1;
    }
    None
}

impl Expression {
    /// Evaluates the relation at the challenge point under the supplied
    /// tables, with the loader's arithmetic as primitive handlers.
    pub fn evaluate(
        &self,
        identity: &Scalar,
        lagrange: &Vec<(i32, Scalar)>,
        evals: &Vec<(Query, Scalar)>,
        challenges: &Vec<Scalar>,
    ) -> (r: Result<Scalar, Error>)
        requires
            lag_distinct(lagrange@),
            eval_distinct(evals@),
            used_lagrange_of(*self) <= lag_keys(lagrange@),
        ensures
            ({
                let sr = eval_expr(*self, env_of(identity@, lagrange@, evals@, challenges@));
                &&& (r is Ok <==> sr is Ok)
                &&& (r matches Ok(s) ==> sr == Result::<int, Error>::Ok(s@))
                &&& (r matches Err(e) ==> sr == Result::<int, Error>::Err(e))
            }),
        decreases *self,
    {
        match self {
            Expression::Constant(s) => Ok(Scalar::new(s.v)),
            Expression::CommonPolynomial(cp) => match cp {
                CommonPolynomial::Identity => Ok(Scalar::new(identity.v)),
                CommonPolynomial::Lagrange(i) => {
                    proof {
                        assert(used_lagrange_of(*self).contains(*i as int));
                    }
                    match lag_get(lagrange, *i) {
                        Some(s) => Ok(s),
                        None => {
                            proof {
                                assert(false);
                            }
                            Err(Error::TranscriptRead)
                        },
                    }
                },
            },
            Expression::Polynomial(q) => match eval_get(evals, *q) {
                Some(s) => Ok(s),
                None => Err(Error::MissingQuery(*q)),
            },
            Expression::Challenge(i) => if *i < challenges.len() {
                Ok(Scalar::new(challenges[*i].v))
            } else {
                Err(Error::MissingChallenge(*i))
            },
            Expression::Negated(inner) => match inner.evaluate(
                identity,
                lagrange,
                evals,
                challenges,
            ) {
                Ok(v) => Ok(v.neg()),
                Err(e) => Err(e),
            },
            Expression::Sum(a, b) => match a.evaluate(identity, lagrange, evals, challenges) {
                Ok(va) => match b.evaluate(identity, lagrange, evals, challenges) {
                    Ok(vb) => Ok(va.add(vb)),
                    Err(e) => Err(e),
                },
                Err(e) => Err(e),
            },
            Expression::Product(a, b) => match a.evaluate(identity, lagrange, evals, challenges) {
                Ok(va) => match b.evaluate(identity, lagrange, evals, challenges) {
                    Ok(vb) => Ok(va.mul(vb)),
                    Err(e) => Err(e),
                },
                Err(e) => Err(e),
            },
            Expression::Scaled(inner, s) => match inner.evaluate(
                identity,
                lagrange,
                evals,
                challenges,
            ) {
                Ok(v) => Ok(v.mul(*s)),
                Err(e) => Err(e),
            },
        }
    }
}

/// Whether spec-level table entries have pairwise distinct keys.
pub open spec fn qv_distinct(s: Seq<(QueryV, int)>) -> bool {
    forall|j1: int, j2: int| 0 <= j1 < j2 < s.len() ==> (#[trigger] s[j1]).0 != (#[trigger] s[j2]).0
}

/// The key set of spec-level table entries.
pub open spec fn qv_keys(s: Seq<(QueryV, int)>) -> Set<QueryV> {
    Set::new(|q: QueryV| exists|j: int| 0 <= j < s.len() && (#[trigger] s[j]).0 == q)
}

/// The map spec-level table entries stand for (keys assumed distinct).
pub open spec fn qv_map(s: Seq<(QueryV, int)>) -> Map<QueryV, int> {
    Map::new(
        |q: QueryV| qv_keys(s).contains(q),
        |q: QueryV| s[choose|j: int| 0 <= j < s.len() && (#[trigger] s[j]).0 == q].1,
    )
}

/// An exec table whose entry views match spec entries stands for the same
/// map.
pub proof fn lemma_table_views_map(t: Seq<(Query, Scalar)>, entries: Seq<(QueryV, int)>)
    requires
        entries.len() == t.len(),
        forall|j: int|
            0 <= j < t.len() ==> (#[trigger] t[j]).0@ == entries[j].0 && t[j].1@ == entries[j].1,
        eval_distinct(t),
    ensures
        qv_distinct(entries),
        eval_keys(t) == qv_keys(entries),
        eval_map(t) == qv_map(entries),
{
    assert(eval_keys(t) =~= qv_keys(entries)) by {
        assert forall|q: QueryV| eval_keys(t).contains(q) implies qv_keys(entries).contains(q) by {
            let j = choose|j: int| 0 <= j < t.len() && (#[trigger] t[j]).0@ == q;
            assert(entries[j].0 == q);
        }
        assert forall|q: QueryV| qv_keys(entries).contains(q) implies eval_keys(t).contains(q) by {
            let j = choose|j: int| 0 <= j < entries.len() && (#[trigger] entries[j]).0 == q;
            assert(t[j].0@ == q);
        }
    }
    assert forall|j1: int, j2: int| 0 <= j1 < j2 < entries.len() implies (#[trigger] entries[j1]).0
        != (#[trigger] entries[j2]).0 by {
        assert(t[j1].0@ == entries[j1].0);
        assert(t[j2].0@ == entries[j2].0);
    }
    assert(eval_map(t) =~= qv_map(entries)) by {
        assert forall|q: QueryV| eval_keys(t).contains(q) implies eval_map(t)[q] == qv_map(
            entries,
        )[q] by {
            let j1 = choose|j: int| 0 <= j < t.len() && (#[trigger] t[j]).0@ == q;
            let j2 = choose|j: int| 0 <= j < entries.len() && (#[trigger] entries[j]).0 == q;
            assert(t[j2].0@ == q);
            assert(j1 == j2);
            assert(eval_map(t)[q] == t[j1].1@);
            assert(qv_map(entries)[q] == entries[j2].1);
        }
    }
}

/// Evaluation only reads the environment through the identity, the
/// challenges, the evaluation map and the referenced Lagrange entries.
pub proof fn lemma_eval_env_agree(e: Expression, a: EvalEnv, b: EvalEnv)
    requires
        a.identity == b.identity,
        a.challenges == b.challenges,
        a.eval_keys == b.eval_keys,
        a.evals == b.evals,
        forall|x: int| used_lagrange_of(e).contains(x) ==> a.lagrange[x] == b.lagrange[x],
    ensures
        eval_expr(e, a) == eval_expr(e, b),
    decreases e,
{
    match e {
        Expression::CommonPolynomial(cp) => match cp {
            CommonPolynomial::Lagrange(i) => {
                assert(used_lagrange_of(e).contains(i as int));
            },
            _ => {},
        },
        Expression::Negated(inner) => {
            lemma_eval_env_agree(*inner, a, b);
        },
        Expression::Sum(x, y) => {
            lemma_eval_env_agree(*x, a, b);
            lemma_eval_env_agree(*y, a, b);
        },
        Expression::Product(x, y) => {
            lemma_eval_env_agree(*x, a, b);
            lemma_eval_env_agree(*y, a, b);
        },
        Expression::Scaled(inner, _) => {
            lemma_eval_env_agree(*inner, a, b);
        },
        _ => {},
    }
}

/// Degrees are never negative.
pub proof fn lemma_degree_nonneg(e: Expression)
    ensures
        degree_of(e) >= 0,
    decreases e,
{
    match e {
        Expression::Negated(inner) => lemma_degree_nonneg(*inner),
        Expression::Sum(a, b) => {
            lemma_degree_nonneg(*a);
            lemma_degree_nonneg(*b);
        },
        Expression::Product(a, b) => {
            lemma_degree_nonneg(*a);
            lemma_degree_nonneg(*b);
        },
        Expression::Scaled(inner, _) => lemma_degree_nonneg(*inner),
        _ => {},
    }
}

pub fn concat_i32(a: Vec<i32>, b: Vec<i32>) -> (r: Vec<i32>)
    ensures
        forall|x: i32| r@.contains(x) <==> a@.contains(x) || b@.contains(x),
{
    let mut r = a;
    let ghost a0 = r@;
    let mut i: usize = 0;
    while i < b.len()
        invariant
            i <= b@.len(),
            r@ == a0 + b@.take(i as int),
        decreases b@.len() - i,
    {
        r.push(b[i]);
        proof {
            assert(r@ =~= a0 + b@.take(i + 1));
        }
        i = i + 1;
    }
    proof {
        assert(b@.take(b@.len() as int) =~= b@);
        assert forall|x: i32| r@.contains(x) <==> a0.contains(x) || b@.contains(x) by {
            if r@.contains(x) {
                let k = choose|k: int| 0 <= k < r@.len() && r@[k] == x;
                if k < a0.len() {
                    assert(a0[k] == x);
                } else {
                    assert(b@[k - a0.len()] == x);
                }
            }
            if a0.contains(x) {
                let k = choose|k: int| 0 <= k < a0.len() && a0[k] == x;
                assert(r@[k] == x);
            }
            if b@.contains(x) {
                let k = choose|k: int| 0 <= k < b@.len() && b@[k] == x;
                assert(r@[a0.len() + k] == x);
            }
        }
    }
    r
}

} // verus!

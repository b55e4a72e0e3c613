use vstd::prelude::*;
use crate::graph::{
    all_below, bin, extends, lemma_extends_terms, lemma_extends_trans, neg_term, num, sub_term, sum_term, term_at, terms_of, un, Constant, Graph,
    Node, Term,
};
use crate::op::{ActvFn, Op};
use crate::ops::{appended, built, built_all};

verus! {

/// Predictions and targets that do not form matching `[batch][feature]`
/// tables.
#[derive(Debug, Clone, Copy, PartialEq, Eq, Structural)]
pub enum ConstructionError {
    /// There are no rows.
    EmptyBatch,
    /// Predictions and targets have different numbers of rows.
    BatchMismatch,
    /// The first row has no features.
    EmptyRow,
    /// A row of the predictions or of the targets does not have as many
    /// features as the first row of the predictions.
    FeatureMismatch,
}

/// Row `i` of the predictions or of the targets is not as long as the first
/// row of the predictions.
pub open spec fn row_mismatch(p: Seq<Vec<usize>>, t: Seq<Vec<usize>>, i: int) -> bool {
    p[i]@.len() != p[0]@.len() || t[i]@.len() != p[0]@.len()
}

/// The error, if any, that the shapes of `p` and `t` give.
pub open spec fn shape_error(p: Seq<Vec<usize>>, t: Seq<Vec<usize>>) -> Option<ConstructionError> {
    if p.len() == 0 {
        Some(ConstructionError::EmptyBatch)
    } else if p.len() != t.len() {
        Some(ConstructionError::BatchMismatch)
    } else if p[0]@.len() == 0 {
        Some(ConstructionError::EmptyRow)
    } else if exists|i: int| 0 <= i < p.len() && #[trigger] row_mismatch(p, t, i) {
        Some(ConstructionError::FeatureMismatch)
    } else {
        None
    }
}

/// `Ok` for matching shapes, else the error they give.
pub open spec fn shape_result(p: Seq<Vec<usize>>, t: Seq<Vec<usize>>) -> Result<(), ConstructionError> {
    match shape_error(p, t) {
        Some(e) => Err(e),
        None => Ok(()),
    }
}

/// Every node named in the table exists in a graph of `n` nodes.
pub open spec fn table_below(x: Seq<Vec<usize>>, n: int) -> bool {
    forall|i: int| 0 <= i < x.len() ==> all_below(#[trigger] x[i]@, n)
}

/// What one prediction/target pair contributes to a loss.
#[derive(Debug, Clone, Copy, PartialEq, Eq, Structural)]
pub enum Elem {
    /// `(t - p)^2`
    SquaredError,
    /// `t ln(q) + (1 - t) ln(1 - q)` with `q = sigmoid(p)`
    BinaryLogLikelihood,
    /// `t ln(p)`
    LogLikelihood,
    /// `relu(1 - t p)`
    Hinge,
    /// `relu(m - t p)`, the margin `m` being the given node
    HingeMargin(usize),
}

pub open spec fn elem_ok(e: Elem, n: int) -> bool {
    match e {
        Elem::HingeMargin(m) => m < n,
        _ => true,
    }
}

pub open spec fn elem_term(e: Elem, g: Seq<Node>, p: Term, t: Term) -> Term {
    match e {
        Elem::SquaredError => bin(Op::Pow, sub_term(t, p), num(2)),
        Elem::BinaryLogLikelihood => {
            let q = un(Op::ActvFn(ActvFn::Sigmoid), p);
            bin(
                Op::Add,
                bin(Op::Mul, t, un(Op::Ln, q)),
                bin(Op::Mul, sub_term(num(1), t), un(Op::Ln, sub_term(num(1), q))),
            )
        },
        Elem::LogLikelihood => bin(Op::Mul, t, un(Op::Ln, p)),
        Elem::Hinge => un(Op::ActvFn(ActvFn::ReLU), sub_term(num(1), bin(Op::Mul, t, p))),
        Elem::HingeMargin(m) => un(Op::ActvFn(ActvFn::ReLU), sub_term(term_at(g, m as int), bin(Op::Mul, t, p))),
    }
}

/// The sum over a row of the contributions of its pairs.
pub open spec fn row_term(e: Elem, g: Seq<Node>, p: Seq<usize>, t: Seq<usize>) -> Term {
    sum_term(Seq::new(p.len(), |j: int| elem_term(e, g, term_at(g, p[j] as int), term_at(g, t[j] as int))))
}

pub open spec fn row_terms(e: Elem, g: Seq<Node>, p: Seq<Vec<usize>>, t: Seq<Vec<usize>>) -> Seq<Term> {
    Seq::new(p.len(), |i: int| row_term(e, g, p[i]@, t[i]@))
}

/// `(sum_i (r_i / m)) / n`: the mean over rows of the per-row means.
pub open spec fn mean_of_row_means(rows: Seq<Term>, m: nat) -> Term {
    bin(
        Op::Mul,
        sum_term(Seq::new(rows.len(), |i: int| bin(Op::Mul, rows[i], Term::Num(Constant::Recip(m as u64))))),
        Term::Num(Constant::Recip(rows.len() as u64)),
    )
}

/// `(sum_i r_i) / (n m)`: the mean over every pair.
pub open spec fn mean_of_all(rows: Seq<Term>, m: nat) -> Term {
    bin(Op::Mul, sum_term(rows), Term::Num(Constant::Recip((rows.len() * m) as u64)))
}

/// `-(sum_i r_i) / (n m)`.
pub open spec fn neg_mean_of_all(rows: Seq<Term>, m: nat) -> Term {
    bin(Op::Mul, neg_term(sum_term(rows)), Term::Num(Constant::Recip((rows.len() * m) as u64)))
}

/// How a loss reduces its row sums to one term.
pub open spec fn reduction(e: Elem, rows: Seq<Term>, m: nat) -> Term {
    match e {
        Elem::SquaredError | Elem::HingeMargin(_) => mean_of_row_means(rows, m),
        Elem::BinaryLogLikelihood => neg_mean_of_all(rows, m),
        Elem::LogLikelihood => neg_mean_of_rows(rows),
        Elem::Hinge => mean_of_all(rows, m),
    }
}

/// `-(sum_i r_i) / n`: the mean over rows of the negated row sums.
pub open spec fn neg_mean_of_rows(rows: Seq<Term>) -> Term {
    bin(Op::Mul, neg_term(sum_term(rows)), Term::Num(Constant::Recip(rows.len() as u64)))
}

/// What the loss of a table builds: the reduction of its rows.
pub open spec fn loss_term(e: Elem, g: Seq<Node>, p: Seq<Vec<usize>>, t: Seq<Vec<usize>>) -> Term {
    reduction(e, row_terms(e, g, p, t), p[0]@.len())
}

/// The loss node built for a table, or the error its shapes give; the graph
/// is left as it was on an error.
pub open spec fn loss_built(e: Elem, g0: Seq<Node>, g1: Seq<Node>, p: Seq<Vec<usize>>, t: Seq<Vec<usize>>,
    r: Result<usize, ConstructionError>) -> bool {
    match r {
        Ok(x) => shape_error(p, t) is None && appended(g0, g1, x, loss_term(e, g0, p, t)),
        Err(err) => shape_error(p, t) == Some(err) && g1 == g0,
    }
}

/// Mean squared error: the mean over rows of the mean over features of
/// `(t - p)^2`.
#[derive(Debug, Default)]
pub struct MeanSquareErrorLoss {}

/// Binary cross-entropy over raw scores: `-mean(t ln(q) + (1 - t) ln(1 - q))`
/// with `q = sigmoid(p)`, the mean taken over every pair. The sigmoid is
/// applied here, so the predictions are unbounded scores (a linear output
/// layer) and `q` stays inside (0, 1) save where a score is so large that
/// the sigmoid rounds to 0 or 1.
#[derive(Debug, Default)]
pub struct BinaryCrossEntropyLoss;

/// Categorical cross-entropy: the mean over rows of `-sum_j t_j ln(p_j)`, for
/// predictions that are already normalised (see `softmax`).
#[derive(Debug, Default)]
pub struct CrossEntropyLoss;

/// Hinge loss with margin 1: `mean(relu(1 - t p))`, for targets of -1 and 1.
#[derive(Debug, Default)]
pub struct HingeLoss;

impl MeanSquareErrorLoss {
    pub fn new() -> (r: MeanSquareErrorLoss) {
        MeanSquareErrorLoss {}
    }

    /// Builds the loss of predictions `ypred` against targets `ytrue`.
    pub fn loss(&self, g: &mut Graph, ypred: &Vec<Vec<usize>>, ytrue: &Vec<Vec<usize>>) -> (r: Result<usize, ConstructionError>)
        requires
            old(g).wf(),
            table_below(ypred@, old(g)@.len() as int),
            table_below(ytrue@, old(g)@.len() as int),
            counts_fit(ypred@),
        ensures
            final(g).wf(),
            loss_built(Elem::SquaredError, old(g)@, final(g)@, ypred@, ytrue@, r),
    {
        table_loss(g, Elem::SquaredError, ypred, ytrue)
    }
}

impl BinaryCrossEntropyLoss {
    pub fn new() -> (r: BinaryCrossEntropyLoss) {
        BinaryCrossEntropyLoss
    }

    /// Builds the loss of predictions `ypred` against targets `ytrue`.
    pub fn loss(&self, g: &mut Graph, ypred: &Vec<Vec<usize>>, ytrue: &Vec<Vec<usize>>) -> (r: Result<usize, ConstructionError>)
        requires
            old(g).wf(),
            table_below(ypred@, old(g)@.len() as int),
            table_below(ytrue@, old(g)@.len() as int),
            counts_fit(ypred@),
        ensures
            final(g).wf(),
            loss_built(Elem::BinaryLogLikelihood, old(g)@, final(g)@, ypred@, ytrue@, r),
    {
        table_loss(g, Elem::BinaryLogLikelihood, ypred, ytrue)
    }
}

impl CrossEntropyLoss {
    pub fn new() -> (r: CrossEntropyLoss) {
        CrossEntropyLoss
    }

    /// Builds the loss of predictions `ypred` against targets `ytrue`.
    pub fn loss(&self, g: &mut Graph, ypred: &Vec<Vec<usize>>, ytrue: &Vec<Vec<usize>>) -> (r: Result<usize, ConstructionError>)
        requires
            old(g).wf(),
            table_below(ypred@, old(g)@.len() as int),
            table_below(ytrue@, old(g)@.len() as int),
            counts_fit(ypred@),
        ensures
            final(g).wf(),
            loss_built(Elem::LogLikelihood, old(g)@, final(g)@, ypred@, ytrue@, r),
    {
        table_loss(g, Elem::LogLikelihood, ypred, ytrue)
    }
}

impl HingeLoss {
    pub fn new() -> (r: HingeLoss) {
        HingeLoss
    }

    /// Builds the loss of predictions `ypred` against targets `ytrue`.
    pub fn loss(&self, g: &mut Graph, ypred: &Vec<Vec<usize>>, ytrue: &Vec<Vec<usize>>) -> (r: Result<usize, ConstructionError>)
        requires
            old(g).wf(),
            table_below(ypred@, old(g)@.len() as int),
            table_below(ytrue@, old(g)@.len() as int),
            counts_fit(ypred@),
        ensures
            final(g).wf(),
            loss_built(Elem::Hinge, old(g)@, final(g)@, ypred@, ytrue@, r),
    {
        table_loss(g, Elem::Hinge, ypred, ytrue)
    }
}

/// Hinge-embedding loss: the mean over rows of the mean over features of
/// `relu(m - t p)`, the margin `m` being the node `margin`.
pub fn hinge_embedding_loss(g: &mut Graph, ypred: &Vec<Vec<usize>>, ytrue: &Vec<Vec<usize>>, margin: usize) -> (r: Result<
    usize,
    ConstructionError,
>)
    requires
        old(g).wf(),
        margin < old(g)@.len(),
        table_below(ypred@, old(g)@.len() as int),
        table_below(ytrue@, old(g)@.len() as int),
        counts_fit(ypred@),
    ensures
        final(g).wf(),
        loss_built(Elem::HingeMargin(margin), old(g)@, final(g)@, ypred@, ytrue@, r),
{
    table_loss(g, Elem::HingeMargin(margin), ypred, ytrue)
}

/// Checks the shapes, then builds the per-pair terms, their row sums and the
/// reduction of `e`.
pub fn table_loss(g: &mut Graph, e: Elem, ypred: &Vec<Vec<usize>>, ytrue: &Vec<Vec<usize>>) -> (r: Result<usize, ConstructionError>)
    requires
        old(g).wf(),
        elem_ok(e, old(g)@.len() as int),
        table_below(ypred@, old(g)@.len() as int),
        table_below(ytrue@, old(g)@.len() as int),
        counts_fit(ypred@),
    ensures
        final(g).wf(),
        loss_built(e, old(g)@, final(g)@, ypred@, ytrue@, r),
{
    match check_shapes(ypred, ytrue) {
        Err(err) => Err(err),
        Ok(()) => {
            let ghost g0 = g@;
            let rs = rows(g, e, ypred, ytrue);
            let m = ypred[0].len();
            let ghost g1 = g@;
            assert(terms_of(g1, rs@) == row_terms(e, g0, ypred@, ytrue@));
            let r = reduce(g, e, &rs, m);
            proof { lemma_extends_trans(g0, g1, g@); }
            Ok(r)
        },
    }
}

/// The row and feature counts fit the constants a loss divides by.
pub open spec fn counts_fit(p: Seq<Vec<usize>>) -> bool {
    p.len() > 0 ==> p.len() * p[0]@.len() <= u64::MAX
}

/// The shape of the table, as `shape_error` states it.
pub fn check_shapes(ypred: &Vec<Vec<usize>>, ytrue: &Vec<Vec<usize>>) -> (r: Result<(), ConstructionError>)
    ensures
        r == shape_result(ypred@, ytrue@),
{
    if ypred.len() == 0 {
        return Err(ConstructionError::EmptyBatch);
    }
    if ypred.len() != ytrue.len() {
        return Err(ConstructionError::BatchMismatch);
    }
    let m = ypred[0].len();
    if m == 0 {
        return Err(ConstructionError::EmptyRow);
    }
    let mut i: usize = 0;
    while i < ypred.len()
        invariant
            i <= ypred@.len(),
            ypred@.len() == ytrue@.len(),
            m == ypred@[0]@.len(),
            m > 0,
            ypred@.len() > 0,
            forall|k: int| 0 <= k < i ==> #[trigger] ypred@[k]@.len() == m,
            forall|k: int| 0 <= k < i ==> #[trigger] ytrue@[k]@.len() == m,
        decreases ypred@.len() - i,
    {
        let pl = ypred[i].len();
        let tl = ytrue[i].len();
        assert(pl == ypred@[i as int]@.len() && tl == ytrue@[i as int]@.len());
        if pl != m || tl != m {
            let ghost k = i as int;
            assert(0 <= k < ypred@.len() && row_mismatch(ypred@, ytrue@, k));
            assert(shape_error(ypred@, ytrue@) == Some(ConstructionError::FeatureMismatch));
            return Err(ConstructionError::FeatureMismatch);
        }
        assert(ypred@[i as int]@.len() == m);
        assert(ytrue@[i as int]@.len() == m);
        i = i + 1;
    }
    Ok(())
}

proof fn lemma_elem_term_extends(e: Elem, g0: Seq<Node>, g1: Seq<Node>, p: Term, t: Term)
    requires
        extends(g0, g1),
        elem_ok(e, g0.len() as int),
    ensures
        elem_term(e, g0, p, t) == elem_term(e, g1, p, t),
{
    if let Elem::HingeMargin(m) = e {
        lemma_extends_terms(g0, g1, seq![m]);
        assert(seq![m][0] == m);
    }
}

fn elem(g: &mut Graph, e: Elem, p: usize, t: usize) -> (r: usize)
    requires
        old(g).wf(),
        p < old(g)@.len(),
        t < old(g)@.len(),
        elem_ok(e, old(g)@.len() as int),
    ensures
        appended(old(g)@, final(g)@, r, elem_term(e, old(g)@, term_at(old(g)@, p as int), term_at(old(g)@, t as int))),
{
    let ghost g0 = g@;
    proof { lemma_extends_terms(g0, g0, seq![p, t]); }
    match e {
        Elem::SquaredError => {
            let d = g.sub(t, p);
            let r = g.powi(d, 2);
            proof { lemma_extends_trans(g0, old(g)@, g@); }
            r
        },
        Elem::BinaryLogLikelihood => {
            let q = g.sigmoid(p);
            let ghost gs = g@;
            proof { lemma_extends_terms(g0, gs, seq![p, t]); assert(seq![p, t][0] == p && seq![p, t][1] == t); }
            let lq = g.ln(q);
            let ghost g1 = g@;
            proof { lemma_extends_trans(g0, gs, g1); lemma_extends_terms(gs, g1, seq![q, t]); assert(seq![q, t][0] == q && seq![q, t][1] == t); }
            let a = g.mul(t, lq);
            let ghost g2 = g@;
            proof { lemma_extends_trans(gs, g1, g2); lemma_extends_terms(gs, g2, seq![q, t]); assert(seq![q, t][0] == q && seq![q, t][1] == t); }
            let one_t = g.rsub(1, t);
            let ghost g3 = g@;
            proof { lemma_extends_trans(gs, g2, g3); lemma_extends_terms(gs, g3, seq![q, t]); lemma_extends_terms(g2, g3, seq![a]); assert(seq![a][0] == a); }
            let one_q = g.rsub(1, q);
            let ghost g4 = g@;
            proof { lemma_extends_trans(gs, g3, g4); lemma_extends_terms(g3, g4, seq![a, one_t]); assert(seq![a, one_t][0] == a && seq![a, one_t][1] == one_t); }
            let l1q = g.ln(one_q);
            let ghost g5 = g@;
            proof { lemma_extends_trans(gs, g4, g5); lemma_extends_terms(g4, g5, seq![a, one_t]); assert(seq![a, one_t][0] == a && seq![a, one_t][1] == one_t); }
            let b = g.mul(one_t, l1q);
            let ghost g6 = g@;
            proof { lemma_extends_trans(gs, g5, g6); lemma_extends_terms(g5, g6, seq![a]); assert(seq![a][0] == a); }
            let r = g.add(a, b);
            proof { lemma_extends_trans(gs, g6, g@); lemma_extends_trans(g0, gs, g@); }
            r
        },
        Elem::LogLikelihood => {
            let lp = g.ln(p);
            let ghost g1 = g@;
            proof { lemma_extends_terms(g0, g1, seq![p, t]); assert(seq![p, t][0] == p && seq![p, t][1] == t); }
            let r = g.mul(t, lp);
            proof { lemma_extends_trans(g0, g1, g@); }
            r
        },
        Elem::Hinge => {
            let tp = g.mul(t, p);
            let ghost g1 = g@;
            let d = g.rsub(1, tp);
            let ghost g2 = g@;
            proof { lemma_extends_trans(g0, g1, g2); }
            let r = g.relu(d);
            proof { lemma_extends_trans(g0, g2, g@); }
            r
        },
        Elem::HingeMargin(m) => {
            let tp = g.mul(t, p);
            let ghost g1 = g@;
            proof { lemma_extends_terms(g0, g1, seq![m]); assert(seq![m][0] == m); }
            let d = g.sub(m, tp);
            let ghost g2 = g@;
            proof { lemma_extends_trans(g0, g1, g2); }
            let r = g.relu(d);
            proof { lemma_extends_trans(g0, g2, g@); }
            r
        },
    }
}

fn row(g: &mut Graph, e: Elem, p: &Vec<usize>, t: &Vec<usize>) -> (r: usize)
    requires
        old(g).wf(),
        p@.len() == t@.len(),
        all_below(p@, old(g)@.len() as int),
        all_below(t@, old(g)@.len() as int),
        elem_ok(e, old(g)@.len() as int),
    ensures
        built(old(g)@, final(g)@, r, row_term(e, old(g)@, p@, t@)),
{
    let ghost g0 = g@;
    let ghost es = Seq::new(p@.len(), |j: int| elem_term(e, g0, term_at(g0, p@[j] as int), term_at(g0, t@[j] as int)));
    let mut xs: Vec<usize> = Vec::new();
    let mut j: usize = 0;
    assert(g0 =~= g0.subrange(0, g0.len() as int));
    while j < p.len()
        invariant
            g.wf(),
            extends(g0, g@),
            es == Seq::new(p@.len(), |j: int| elem_term(e, g0, term_at(g0, p@[j] as int), term_at(g0, t@[j] as int))),
            p@.len() == t@.len(),
            all_below(p@, g0.len() as int),
            all_below(t@, g0.len() as int),
            elem_ok(e, g0.len() as int),
            j <= p@.len(),
            xs@.len() == j,
            forall|k: int| 0 <= k < j ==> #[trigger] xs@[k] < g@.len() && term_at(g@, xs@[k] as int) == es[k],
        decreases p@.len() - j,
    {
        let ghost g1 = g@;
        let ghost before = xs@;
        let pj = p[j];
        let tj = t[j];
        proof {
            lemma_extends_terms(g0, g1, seq![pj, tj]);
            assert(seq![pj, tj][0] == pj && seq![pj, tj][1] == tj);
            lemma_elem_term_extends(e, g0, g1, term_at(g0, pj as int), term_at(g0, tj as int));
            if let Elem::HingeMargin(m) = e {
                assert(m < g1.len());
            }
        }
        let x = elem(g, e, pj, tj);
        xs.push(x);
        proof {
            lemma_extends_trans(g0, g1, g@);
            lemma_extends_terms(g1, g@, before);
            assert forall|k: int| 0 <= k < j + 1 implies #[trigger] xs@[k] < g@.len() && term_at(g@, xs@[k] as int) == es[k] by {
                if k < j {
                    assert(xs@[k] == before[k]);
                    assert(terms_of(g1, before)[k] == terms_of(g@, before)[k]);
                }
            }
        }
        j = j + 1;
    }
    let ghost g2 = g@;
    assert(terms_of(g2, xs@) =~= es);
    let r = g.sum(&xs);
    proof { lemma_extends_trans(g0, g2, g@); }
    r
}

fn rows(g: &mut Graph, e: Elem, ypred: &Vec<Vec<usize>>, ytrue: &Vec<Vec<usize>>) -> (r: Vec<usize>)
    requires
        old(g).wf(),
        shape_error(ypred@, ytrue@) is None,
        table_below(ypred@, old(g)@.len() as int),
        table_below(ytrue@, old(g)@.len() as int),
        elem_ok(e, old(g)@.len() as int),
    ensures
        built_all(old(g)@, final(g)@, r@, row_terms(e, old(g)@, ypred@, ytrue@)),
{
    let ghost g0 = g@;
    let ghost rs = row_terms(e, g0, ypred@, ytrue@);
    let mut out: Vec<usize> = Vec::new();
    let mut i: usize = 0;
    assert(g0 =~= g0.subrange(0, g0.len() as int));
    assert(forall|k: int| 0 <= k < ypred@.len() ==> !row_mismatch(ypred@, ytrue@, k));
    while i < ypred.len()
        invariant
            g.wf(),
            extends(g0, g@),
            rs == row_terms(e, g0, ypred@, ytrue@),
            shape_error(ypred@, ytrue@) is None,
            table_below(ypred@, g0.len() as int),
            table_below(ytrue@, g0.len() as int),
            elem_ok(e, g0.len() as int),
            i <= ypred@.len(),
            out@.len() == i,
            forall|k: int| 0 <= k < i ==> #[trigger] out@[k] < g@.len() && term_at(g@, out@[k] as int) == rs[k],
        decreases ypred@.len() - i,
    {
        let ghost g1 = g@;
        let ghost before = out@;
        proof {
            assert(!row_mismatch(ypred@, ytrue@, i as int));
            lemma_extends_terms(g0, g1, ypred@[i as int]@);
            lemma_extends_terms(g0, g1, ytrue@[i as int]@);
            assert(all_below(ypred@[i as int]@, g0.len() as int));
            assert(all_below(ytrue@[i as int]@, g0.len() as int));
            lemma_row_term_extends(e, g0, g1, ypred@[i as int]@, ytrue@[i as int]@);
            if let Elem::HingeMargin(m) = e {
                assert(m < g1.len());
            }
        }
        let x = row(g, e, &ypred[i], &ytrue[i]);
        out.push(x);
        proof {
            lemma_extends_trans(g0, g1, g@);
            lemma_extends_terms(g1, g@, before);
            assert forall|k: int| 0 <= k < i + 1 implies #[trigger] out@[k] < g@.len() && term_at(g@, out@[k] as int) == rs[k] by {
                if k < i {
                    assert(out@[k] == before[k]);
                    assert(terms_of(g1, before)[k] == terms_of(g@, before)[k]);
                }
            }
        }
        i = i + 1;
    }
    assert(terms_of(g@, out@) =~= rs);
    out
}

proof fn lemma_row_term_extends(e: Elem, g0: Seq<Node>, g1: Seq<Node>, p: Seq<usize>, t: Seq<usize>)
    requires
        extends(g0, g1),
        elem_ok(e, g0.len() as int),
        p.len() == t.len(),
        all_below(p, g0.len() as int),
        all_below(t, g0.len() as int),
    ensures
        row_term(e, g0, p, t) == row_term(e, g1, p, t),
{
    lemma_extends_terms(g0, g1, p);
    lemma_extends_terms(g0, g1, t);
    let a = Seq::new(p.len(), |j: int| elem_term(e, g0, term_at(g0, p[j] as int), term_at(g0, t[j] as int)));
    let b = Seq::new(p.len(), |j: int| elem_term(e, g1, term_at(g1, p[j] as int), term_at(g1, t[j] as int)));
    assert forall|j: int| 0 <= j < p.len() implies a[j] == b[j] by {
        assert(p[j] < g0.len() && t[j] < g0.len());
        lemma_elem_term_extends(e, g0, g1, term_at(g0, p[j] as int), term_at(g0, t[j] as int));
    }
    assert(a =~= b);
}

fn scale_all(g: &mut Graph, xs: &Vec<usize>, c: Constant) -> (r: Vec<usize>)
    requires
        old(g).wf(),
        all_below(xs@, old(g)@.len() as int),
    ensures
        built_all(old(g)@, final(g)@, r@,
            Seq::new(xs@.len(), |i: int| bin(Op::Mul, terms_of(old(g)@, xs@)[i], Term::Num(c)))),
{
    let ghost g0 = g@;
    let ghost ts = Seq::new(xs@.len(), |i: int| bin(Op::Mul, terms_of(g0, xs@)[i], Term::Num(c)));
    let mut out: Vec<usize> = Vec::new();
    let mut i: usize = 0;
    assert(g0 =~= g0.subrange(0, g0.len() as int));
    while i < xs.len()
        invariant
            g.wf(),
            extends(g0, g@),
            ts == Seq::new(xs@.len(), |i: int| bin(Op::Mul, terms_of(g0, xs@)[i], Term::Num(c))),
            all_below(xs@, g0.len() as int),
            i <= xs@.len(),
            out@.len() == i,
            forall|k: int| 0 <= k < i ==> #[trigger] out@[k] < g@.len() && term_at(g@, out@[k] as int) == ts[k],
        decreases xs@.len() - i,
    {
        let ghost g1 = g@;
        let ghost before = out@;
        let x = xs[i];
        proof {
            lemma_extends_terms(g0, g1, xs@);
            assert(terms_of(g0, xs@)[i as int] == term_at(g0, x as int));
        }
        let y = g.scale(x, c);
        out.push(y);
        proof {
            lemma_extends_trans(g0, g1, g@);
            lemma_extends_terms(g1, g@, before);
            assert forall|k: int| 0 <= k < i + 1 implies #[trigger] out@[k] < g@.len() && term_at(g@, out@[k] as int) == ts[k] by {
                if k < i {
                    assert(out@[k] == before[k]);
                    assert(terms_of(g1, before)[k] == terms_of(g@, before)[k]);
                }
            }
        }
        i = i + 1;
    }
    assert(terms_of(g@, out@) =~= ts);
    out
}

fn reduce(g: &mut Graph, e: Elem, rs: &Vec<usize>, m: usize) -> (r: usize)
    requires
        old(g).wf(),
        all_below(rs@, old(g)@.len() as int),
        rs@.len() > 0,
        m > 0,
        rs@.len() * m <= u64::MAX,
    ensures
        appended(old(g)@, final(g)@, r, reduction(e, terms_of(old(g)@, rs@), m as nat)),
{
    let ghost g0 = g@;
    let ghost ts = terms_of(g0, rs@);
    let n = rs.len();
    assert(n * m <= u64::MAX);
    match e {
        Elem::SquaredError | Elem::HingeMargin(_) => {
            let means = scale_all(g, rs, Constant::Recip(m as u64));
            let ghost g1 = g@;
            let s = g.sum(&means);
            let ghost g2 = g@;
            proof {
                lemma_extends_trans(g0, g1, g2);
                assert(terms_of(g1, means@) =~= Seq::new(ts.len(), |i: int| bin(Op::Mul, ts[i], Term::Num(Constant::Recip(m as u64)))));
            }
            let r = g.scale(s, Constant::Recip(n as u64));
            proof { lemma_extends_trans(g0, g2, g@); }
            r
        },
        Elem::BinaryLogLikelihood | Elem::LogLikelihood => {
            let s = g.sum(rs);
            let ghost g1 = g@;
            let ns = g.neg(s);
            let ghost g2 = g@;
            proof { lemma_extends_trans(g0, g1, g2); }
            let count = if e == Elem::LogLikelihood { n as u64 } else { (n as u64) * (m as u64) };
            let r = g.scale(ns, Constant::Recip(count));
            proof { lemma_extends_trans(g0, g2, g@); }
            r
        },
        Elem::Hinge => {
            let s = g.sum(rs);
            let ghost g1 = g@;
            let r = g.scale(s, Constant::Recip((n as u64) * (m as u64)));
            proof { lemma_extends_trans(g0, g1, g@); }
            r
        },
    }
}

} // verus!

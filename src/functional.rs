use vstd::prelude::*;
use crate::graph::{
    all_below, bin, div_term, extends, lemma_extends_terms, lemma_extends_trans, sum_term, term_at, terms_of, un, Graph, Node, Term,
};
use crate::loss::table_below;
use crate::op::{ActvFn, Op};
use crate::ops::{appended, built_all};

verus! {

/// `op` applied to each term.
pub open spec fn map_terms(op: Op, ts: Seq<Term>) -> Seq<Term> {
    Seq::new(ts.len(), |i: int| un(op, ts[i]))
}

/// Each `exp(x_i)` divided by the sum of all `exp(x_j)`.
pub open spec fn softmax_terms(ts: Seq<Term>) -> Seq<Term> {
    let es = map_terms(Op::Exp, ts);
    Seq::new(ts.len(), |i: int| div_term(es[i], sum_term(es)))
}

/// A row transformation applied to every row of a table.
pub enum RowMap {
    Softmax,
    Sigmoid,
}

pub open spec fn row_map_terms(f: RowMap, ts: Seq<Term>) -> Seq<Term> {
    match f {
        RowMap::Softmax => softmax_terms(ts),
        RowMap::Sigmoid => map_terms(Op::ActvFn(ActvFn::Sigmoid), ts),
    }
}

/// A unary operation applied to each node of `xs`; `op` takes one operand.
fn map_unary(g: &mut Graph, op: Op, xs: &Vec<usize>) -> (r: Vec<usize>)
    requires
        old(g).wf(),
        op == Op::Exp || op == Op::ActvFn(ActvFn::Sigmoid),
        all_below(xs@, old(g)@.len() as int),
    ensures
        built_all(old(g)@, final(g)@, r@, map_terms(op, terms_of(old(g)@, xs@))),
{
    let ghost g0 = g@;
    let ghost ts = map_terms(op, terms_of(g0, xs@));
    let mut out: Vec<usize> = Vec::new();
    let mut i: usize = 0;
    assert(g0 =~= g0.subrange(0, g0.len() as int));
    while i < xs.len()
        invariant
            g.wf(),
            extends(g0, g@),
            op == Op::Exp || op == Op::ActvFn(ActvFn::Sigmoid),
            ts == map_terms(op, terms_of(g0, xs@)),
            all_below(xs@, g0.len() as int),
            i <= xs@.len(),
            out@.len() == i,
            forall|k: int| 0 <= k < i ==> #[trigger] out@[k] < g@.len() && term_at(g@, out@[k] as int) == ts[k],
        decreases xs@.len() - i,
    {
        let ghost g1 = g@;
        let ghost before = out@;
        let x = xs[i];
        proof {
            lemma_extends_terms(g0, g1, xs@);
        }
        let y = if op == Op::Exp { g.exp(x) } else { g.sigmoid(x) };
        out.push(y);
        proof {
            lemma_extends_trans(g0, g1, g@);
            lemma_extends_terms(g1, g@, before);
            assert forall|k: int| 0 <= k < i + 1 implies #[trigger] out@[k] < g@.len() && term_at(g@, out@[k] as int) == ts[k] by {
                if k < i {
                    assert(out@[k] == before[k]);
                    assert(terms_of(g1, before)[k] == terms_of(g@, before)[k]);
                }
            }
        }
        i = i + 1;
    }
    assert(terms_of(g@, out@) =~= ts);
    out
}

fn softmax_row(g: &mut Graph, xs: &Vec<usize>) -> (r: Vec<usize>)
    requires
        old(g).wf(),
        all_below(xs@, old(g)@.len() as int),
    ensures
        built_all(old(g)@, final(g)@, r@, softmax_terms(terms_of(old(g)@, xs@))),
{
    let ghost g0 = g@;
    let ghost es = map_terms(Op::Exp, terms_of(g0, xs@));
    let ghost ts = softmax_terms(terms_of(g0, xs@));
    let exps = map_unary(g, Op::Exp, xs);
    let ghost g1 = g@;
    let s = g.sum(&exps);
    let ghost g2 = g@;
    proof {
        lemma_extends_trans(g0, g1, g2);
        lemma_extends_terms(g1, g2, exps@);
    }
    let mut out: Vec<usize> = Vec::new();
    let mut i: usize = 0;
    while i < exps.len()
        invariant
            g.wf(),
            extends(g2, g@),
            extends(g0, g2),
            es == map_terms(Op::Exp, terms_of(g0, xs@)),
            ts == softmax_terms(terms_of(g0, xs@)),
            exps@.len() == xs@.len(),
            all_below(exps@, g2.len() as int),
            terms_of(g2, exps@) == es,
            s < g2.len(),
            term_at(g2, s as int) == sum_term(es),
            i <= exps@.len(),
            out@.len() == i,
            forall|k: int| 0 <= k < i ==> #[trigger] out@[k] < g@.len() && term_at(g@, out@[k] as int) == ts[k],
        decreases exps@.len() - i,
    {
        let ghost g3 = g@;
        let ghost before = out@;
        let x = exps[i];
        proof {
            lemma_extends_terms(g2, g3, exps@.push(s));
            assert(exps@.push(s)[exps@.len() as int] == s);
            assert(exps@.push(s)[i as int] == x);
        }
        let y = g.div(x, s);
        out.push(y);
        proof {
            lemma_extends_trans(g2, g3, g@);
            lemma_extends_terms(g3, g@, before);
            assert forall|k: int| 0 <= k < i + 1 implies #[trigger] out@[k] < g@.len() && term_at(g@, out@[k] as int) == ts[k] by {
                if k < i {
                    assert(out@[k] == before[k]);
                    assert(terms_of(g3, before)[k] == terms_of(g@, before)[k]);
                }
            }
        }
        i = i + 1;
    }
    proof { lemma_extends_trans(g0, g2, g@); }
    assert(terms_of(g@, out@) =~= ts);
    out
}

fn map_rows(g: &mut Graph, f: RowMap, y: &Vec<Vec<usize>>) -> (r: Vec<Vec<usize>>)
    requires
        old(g).wf(),
        table_below(y@, old(g)@.len() as int),
    ensures
        final(g).wf(),
        extends(old(g)@, final(g)@),
        r@.len() == y@.len(),
        forall|i: int| 0 <= i < y@.len() ==> built_all(old(g)@, final(g)@, #[trigger] r@[i]@,
            row_map_terms(f, terms_of(old(g)@, y@[i]@))),
{
    let ghost g0 = g@;
    let mut r: Vec<Vec<usize>> = Vec::new();
    let mut i: usize = 0;
    assert(g0 =~= g0.subrange(0, g0.len() as int));
    while i < y.len()
        invariant
            g.wf(),
            extends(g0, g@),
            i <= y@.len(),
            r@.len() == i,
            table_below(y@, g0.len() as int),
            forall|j: int| 0 <= j < i ==> built_all(g0, g@, #[trigger] r@[j]@, row_map_terms(f, terms_of(g0, y@[j]@))),
        decreases y@.len() - i,
    {
        let ghost g1 = g@;
        let ghost before = r@;
        proof {
            lemma_extends_terms(g0, g1, y@[i as int]@);
            assert(all_below(y@[i as int]@, g0.len() as int));
        }
        let o = match f {
            RowMap::Softmax => softmax_row(g, &y[i]),
            RowMap::Sigmoid => map_unary(g, Op::ActvFn(ActvFn::Sigmoid), &y[i]),
        };
        proof {
            lemma_extends_trans(g0, g1, g@);
            assert forall|j: int| 0 <= j < i implies built_all(g0, g@, #[trigger] before[j]@,
                row_map_terms(f, terms_of(g0, y@[j]@))) by {
                lemma_extends_terms(g1, g@, before[j]@);
                assert forall|k: int| 0 <= k < before[j]@.len() implies #[trigger] before[j]@[k] < g@.len() by {
                    assert(before[j]@[k] < g1.len());
                }
            }
        }
        r.push(o);
        proof {
            assert forall|j: int| 0 <= j < i + 1 implies built_all(g0, g@, #[trigger] r@[j]@,
                row_map_terms(f, terms_of(g0, y@[j]@))) by {
                if j < i {
                    assert(r@[j] == before[j]);
                }
            }
        }
        i = i + 1;
    }
    r
}

/// Softmax of each row: `exp(y_ij) / sum_k exp(y_ik)`.
pub fn softmax(g: &mut Graph, y: &Vec<Vec<usize>>) -> (r: Vec<Vec<usize>>)
    requires
        old(g).wf(),
        table_below(y@, old(g)@.len() as int),
    ensures
        final(g).wf(),
        extends(old(g)@, final(g)@),
        r@.len() == y@.len(),
        forall|i: int| 0 <= i < y@.len() ==> built_all(old(g)@, final(g)@, #[trigger] r@[i]@,
            softmax_terms(terms_of(old(g)@, y@[i]@))),
{
    map_rows(g, RowMap::Softmax, y)
}

/// Sigmoid of every entry.
pub fn sigmoid(g: &mut Graph, y: &Vec<Vec<usize>>) -> (r: Vec<Vec<usize>>)
    requires
        old(g).wf(),
        table_below(y@, old(g)@.len() as int),
    ensures
        final(g).wf(),
        extends(old(g)@, final(g)@),
        r@.len() == y@.len(),
        forall|i: int| 0 <= i < y@.len() ==> built_all(old(g)@, final(g)@, #[trigger] r@[i]@,
            map_terms(Op::ActvFn(ActvFn::Sigmoid), terms_of(old(g)@, y@[i]@))),
{
    map_rows(g, RowMap::Sigmoid, y)
}

/// `alpha * sum_i p_i`.
pub fn l1_regularization(g: &mut Graph, alpha: usize, params: &Vec<usize>) -> (r: usize)
    requires
        old(g).wf(),
        alpha < old(g)@.len(),
        all_below(params@, old(g)@.len() as int),
    ensures
        appended(old(g)@, final(g)@, r,
            bin(Op::Mul, term_at(old(g)@, alpha as int), sum_term(terms_of(old(g)@, params@)))),
{
    let ghost g0 = g@;
    let s = g.sum(params);
    let ghost g1 = g@;
    proof { lemma_extends_terms(g0, g1, seq![alpha]); assert(seq![alpha][0] == alpha); }
    let r = g.mul(alpha, s);
    proof { lemma_extends_trans(g0, g1, g@); }
    r
}

/// The squares `p_i * p_i`.
pub open spec fn square_terms(ts: Seq<Term>) -> Seq<Term> {
    Seq::new(ts.len(), |i: int| bin(Op::Mul, ts[i], ts[i]))
}

/// `alpha * sum_i p_i * p_i`.
pub fn l2_regularization(g: &mut Graph, alpha: usize, params: &Vec<usize>) -> (r: usize)
    requires
        old(g).wf(),
        alpha < old(g)@.len(),
        all_below(params@, old(g)@.len() as int),
    ensures
        appended(old(g)@, final(g)@, r,
            bin(Op::Mul, term_at(old(g)@, alpha as int), sum_term(square_terms(terms_of(old(g)@, params@))))),
{
    let ghost g0 = g@;
    let ghost ts = square_terms(terms_of(g0, params@));
    let mut sq: Vec<usize> = Vec::new();
    let mut i: usize = 0;
    assert(g0 =~= g0.subrange(0, g0.len() as int));
    while i < params.len()
        invariant
            g.wf(),
            extends(g0, g@),
            ts == square_terms(terms_of(g0, params@)),
            all_below(params@, g0.len() as int),
            alpha < g0.len(),
            i <= params@.len(),
            sq@.len() == i,
            forall|k: int| 0 <= k < i ==> #[trigger] sq@[k] < g@.len() && term_at(g@, sq@[k] as int) == ts[k],
        decreases params@.len() - i,
    {
        let ghost g1 = g@;
        let ghost before = sq@;
        let p = params[i];
        proof { lemma_extends_terms(g0, g1, params@); }
        let y = g.mul(p, p);
        sq.push(y);
        proof {
            lemma_extends_trans(g0, g1, g@);
            lemma_extends_terms(g1, g@, before);
            assert forall|k: int| 0 <= k < i + 1 implies #[trigger] sq@[k] < g@.len() && term_at(g@, sq@[k] as int) == ts[k] by {
                if k < i {
                    assert(sq@[k] == before[k]);
                    assert(terms_of(g1, before)[k] == terms_of(g@, before)[k]);
                }
            }
        }
        i = i + 1;
    }
    let ghost g2 = g@;
    assert(terms_of(g2, sq@) =~= ts);
    let s = g.sum(&sq);
    let ghost g3 = g@;
    proof {
        lemma_extends_trans(g0, g2, g3);
        lemma_extends_terms(g0, g3, seq![alpha]);
        assert(seq![alpha][0] == alpha);
    }
    let r = g.mul(alpha, s);
    proof { lemma_extends_trans(g0, g3, g@); }
    r
}

} // verus!

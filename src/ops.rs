use vstd::prelude::*;
use crate::graph::{all_below, bin, div_term, neg_term, product_term, sub_term, sum_term, terms_of, extends, lemma_extends_terms, lemma_extends_trans, nodes_wf, num, term_at, un, Constant, Graph, Node, Term};
use crate::op::{ActvFn, Op};

verus! {

/// `g1` is `g0` with nodes appended, and `r` is a new node denoting `t`.
pub open spec fn appended(g0: Seq<Node>, g1: Seq<Node>, r: usize, t: Term) -> bool {
    &&& nodes_wf(g1)
    &&& extends(g0, g1)
    &&& g0.len() <= r < g1.len()
    &&& term_at(g1, r as int) == t
}

/// `g1` is `g0` with nodes appended, and node `r` of `g1` denotes `t`
/// (`r` may be an existing node).
pub open spec fn built(g0: Seq<Node>, g1: Seq<Node>, r: usize, t: Term) -> bool {
    &&& nodes_wf(g1)
    &&& extends(g0, g1)
    &&& r < g1.len()
    &&& term_at(g1, r as int) == t
}

/// `g1` is `g0` with nodes appended, and `rs[k]` denotes `ts[k]`.
pub open spec fn built_all(g0: Seq<Node>, g1: Seq<Node>, rs: Seq<usize>, ts: Seq<Term>) -> bool {
    &&& nodes_wf(g1)
    &&& extends(g0, g1)
    &&& rs.len() == ts.len()
    &&& all_below(rs, g1.len() as int)
    &&& terms_of(g1, rs) == ts
}

pub open spec fn node_term(g: Seq<Node>, a: usize) -> Term {
    term_at(g, a as int)
}

impl Graph {
    /// `a + b`.
    pub fn add(&mut self, a: usize, b: usize) -> (r: usize)
        requires
            old(self).wf(),
            a < old(self)@.len(),
            b < old(self)@.len(),
        ensures
            appended(old(self)@, final(self)@, r, bin(Op::Add, node_term(old(self)@, a), node_term(old(self)@, b))),
            final(self)@.len() == old(self)@.len() + 1,
    {
        self.binary(Op::Add, a, b)
    }

    /// `a * b`.
    pub fn mul(&mut self, a: usize, b: usize) -> (r: usize)
        requires
            old(self).wf(),
            a < old(self)@.len(),
            b < old(self)@.len(),
        ensures
            appended(old(self)@, final(self)@, r, bin(Op::Mul, node_term(old(self)@, a), node_term(old(self)@, b))),
            final(self)@.len() == old(self)@.len() + 1,
    {
        self.binary(Op::Mul, a, b)
    }

    /// `a ^ p`, where `p` is a node holding the exponent; no gradient flows
    /// to the exponent.
    pub fn pow(&mut self, a: usize, p: usize) -> (r: usize)
        requires
            old(self).wf(),
            a < old(self)@.len(),
            p < old(self)@.len(),
        ensures
            appended(old(self)@, final(self)@, r, bin(Op::Pow, node_term(old(self)@, a), node_term(old(self)@, p))),
            final(self)@.len() == old(self)@.len() + 1,
    {
        self.binary(Op::Pow, a, p)
    }

    /// `a ^ c` for an integer constant exponent.
    pub fn powi(&mut self, a: usize, c: i64) -> (r: usize)
        requires
            old(self).wf(),
            a < old(self)@.len(),
        ensures
            appended(old(self)@, final(self)@, r, bin(Op::Pow, node_term(old(self)@, a), num(c))),
    {
        let ghost g0 = self@;
        let p = self.constant(Constant::Int(c));
        proof { lemma_extends_trans(g0, self@, self@); }
        let r = self.pow(a, p);
        proof { lemma_extends_trans(g0, old(self)@.push(self@[p as int]), self@); }
        r
    }

    /// Natural logarithm of `a`.
    pub fn ln(&mut self, a: usize) -> (r: usize)
        requires
            old(self).wf(),
            a < old(self)@.len(),
        ensures
            appended(old(self)@, final(self)@, r, un(Op::Ln, node_term(old(self)@, a))),
            final(self)@.len() == old(self)@.len() + 1,
    {
        self.unary(Op::Ln, a)
    }

    /// `e ^ a`.
    pub fn exp(&mut self, a: usize) -> (r: usize)
        requires
            old(self).wf(),
            a < old(self)@.len(),
        ensures
            appended(old(self)@, final(self)@, r, un(Op::Exp, node_term(old(self)@, a))),
            final(self)@.len() == old(self)@.len() + 1,
    {
        self.unary(Op::Exp, a)
    }

    /// Activation `f` applied to `a`.
    pub fn activate(&mut self, f: ActvFn, a: usize) -> (r: usize)
        requires
            old(self).wf(),
            a < old(self)@.len(),
        ensures
            appended(old(self)@, final(self)@, r, un(Op::ActvFn(f), node_term(old(self)@, a))),
            final(self)@.len() == old(self)@.len() + 1,
    {
        self.unary(Op::ActvFn(f), a)
    }

    /// `max(a, 0)`.
    pub fn relu(&mut self, a: usize) -> (r: usize)
        requires
            old(self).wf(),
            a < old(self)@.len(),
        ensures
            appended(old(self)@, final(self)@, r, un(Op::ActvFn(ActvFn::ReLU), node_term(old(self)@, a))),
            final(self)@.len() == old(self)@.len() + 1,
    {
        self.unary(Op::ActvFn(ActvFn::ReLU), a)
    }

    /// `max(a, 0.01 a)`.
    pub fn leaky_relu(&mut self, a: usize) -> (r: usize)
        requires
            old(self).wf(),
            a < old(self)@.len(),
        ensures
            appended(old(self)@, final(self)@, r, un(Op::ActvFn(ActvFn::LeakyReLU), node_term(old(self)@, a))),
            final(self)@.len() == old(self)@.len() + 1,
    {
        self.unary(Op::ActvFn(ActvFn::LeakyReLU), a)
    }

    /// Hyperbolic tangent of `a`.
    pub fn tanh(&mut self, a: usize) -> (r: usize)
        requires
            old(self).wf(),
            a < old(self)@.len(),
        ensures
            appended(old(self)@, final(self)@, r, un(Op::ActvFn(ActvFn::Tanh), node_term(old(self)@, a))),
            final(self)@.len() == old(self)@.len() + 1,
    {
        self.unary(Op::ActvFn(ActvFn::Tanh), a)
    }

    /// Logistic function of `a`.
    pub fn sigmoid(&mut self, a: usize) -> (r: usize)
        requires
            old(self).wf(),
            a < old(self)@.len(),
        ensures
            appended(old(self)@, final(self)@, r, un(Op::ActvFn(ActvFn::Sigmoid), node_term(old(self)@, a))),
            final(self)@.len() == old(self)@.len() + 1,
    {
        self.unary(Op::ActvFn(ActvFn::Sigmoid), a)
    }
}

impl Graph {
    /// `-a`, built as `a * (-1)`.
    pub fn neg(&mut self, a: usize) -> (r: usize)
        requires
            old(self).wf(),
            a < old(self)@.len(),
        ensures
            appended(old(self)@, final(self)@, r, neg_term(node_term(old(self)@, a))),
    {
        let ghost g0 = self@;
        let c = self.constant(Constant::Int(-1));
        let ghost g1 = self@;
        proof { lemma_extends_trans(g0, g1, g1); }
        let r = self.mul(a, c);
        proof { lemma_extends_trans(g0, g1, self@); }
        r
    }

    /// `a - b`, built as `a + (-b)`.
    pub fn sub(&mut self, a: usize, b: usize) -> (r: usize)
        requires
            old(self).wf(),
            a < old(self)@.len(),
            b < old(self)@.len(),
        ensures
            appended(old(self)@, final(self)@, r, sub_term(node_term(old(self)@, a), node_term(old(self)@, b))),
    {
        let ghost g0 = self@;
        let nb = self.neg(b);
        let ghost g1 = self@;
        proof { lemma_extends_trans(g0, g1, g1); }
        let r = self.add(a, nb);
        proof { lemma_extends_trans(g0, g1, self@); }
        r
    }

    /// `a / b`, built as `a * b^(-1)`.
    pub fn div(&mut self, a: usize, b: usize) -> (r: usize)
        requires
            old(self).wf(),
            a < old(self)@.len(),
            b < old(self)@.len(),
        ensures
            appended(old(self)@, final(self)@, r, div_term(node_term(old(self)@, a), node_term(old(self)@, b))),
    {
        let ghost g0 = self@;
        let p = self.powi(b, -1);
        let ghost g1 = self@;
        proof { lemma_extends_trans(g0, g1, g1); }
        let r = self.mul(a, p);
        proof { lemma_extends_trans(g0, g1, self@); }
        r
    }

    /// Logarithm of `a` to the base held by node `base`, built as
    /// `ln(a) / ln(base)`.
    pub fn log(&mut self, a: usize, base: usize) -> (r: usize)
        requires
            old(self).wf(),
            a < old(self)@.len(),
            base < old(self)@.len(),
        ensures
            appended(old(self)@, final(self)@, r,
                div_term(un(Op::Ln, node_term(old(self)@, a)), un(Op::Ln, node_term(old(self)@, base)))),
    {
        let ghost g0 = self@;
        let la = self.ln(a);
        let ghost g1 = self@;
        proof {
            lemma_extends_terms(g0, g1, seq![base]);
            assert(seq![base][0] == base);
        }
        let lb = self.ln(base);
        let ghost g2 = self@;
        proof {
            lemma_extends_trans(g0, g1, g2);
            lemma_extends_terms(g1, g2, seq![la]);
            assert(seq![la][0] == la);
        }
        let r = self.div(la, lb);
        proof { lemma_extends_trans(g0, g2, self@); }
        r
    }

    /// `a * c` for a constant `c`.
    pub fn scale(&mut self, a: usize, c: Constant) -> (r: usize)
        requires
            old(self).wf(),
            a < old(self)@.len(),
        ensures
            appended(old(self)@, final(self)@, r, bin(Op::Mul, node_term(old(self)@, a), Term::Num(c))),
    {
        let ghost g0 = self@;
        let k = self.constant(c);
        let ghost g1 = self@;
        proof { lemma_extends_trans(g0, g1, g1); }
        let r = self.mul(a, k);
        proof { lemma_extends_trans(g0, g1, self@); }
        r
    }

    /// `c - a` for an integer constant `c`, built as `c + (-a)`.
    pub fn rsub(&mut self, c: i64, a: usize) -> (r: usize)
        requires
            old(self).wf(),
            a < old(self)@.len(),
        ensures
            appended(old(self)@, final(self)@, r, sub_term(num(c), node_term(old(self)@, a))),
    {
        let ghost g0 = self@;
        let k = self.constant(Constant::Int(c));
        let ghost g1 = self@;
        proof { lemma_extends_trans(g0, g1, g1); }
        let na = self.neg(a);
        let ghost g2 = self@;
        proof {
            lemma_extends_trans(g0, g1, g2);
            lemma_extends_trans(g1, g2, g2);
        }
        let r = self.add(k, na);
        proof { lemma_extends_trans(g0, g2, self@); }
        r
    }

    /// Left fold of `+` over the nodes `xs`; a single node is returned as it
    /// is, and the empty sum is a new constant 0.
    pub fn sum(&mut self, xs: &Vec<usize>) -> (r: usize)
        requires
            old(self).wf(),
            all_below(xs@, old(self)@.len() as int),
        ensures
            built(old(self)@, final(self)@, r, sum_term(terms_of(old(self)@, xs@))),
    {
        self.fold(xs, Op::Add)
    }

    /// Left fold of `*` over the nodes `xs`; a single node is returned as it
    /// is, and the empty product is a new constant 1.
    pub fn product(&mut self, xs: &Vec<usize>) -> (r: usize)
        requires
            old(self).wf(),
            all_below(xs@, old(self)@.len() as int),
        ensures
            built(old(self)@, final(self)@, r, product_term(terms_of(old(self)@, xs@))),
    {
        self.fold(xs, Op::Mul)
    }

    fn fold(&mut self, xs: &Vec<usize>, op: Op) -> (r: usize)
        requires
            old(self).wf(),
            all_below(xs@, old(self)@.len() as int),
            op == Op::Add || op == Op::Mul,
        ensures
            built(old(self)@, final(self)@, r, fold_term(op, terms_of(old(self)@, xs@))),
    {
        let ghost g0 = self@;
        let ghost ts = terms_of(g0, xs@);
        if xs.len() == 0 {
            let c = if op == Op::Add { Constant::Int(0) } else { Constant::Int(1) };
            return self.constant(c);
        }
        let mut acc = xs[0];
        proof {
            assert(ts.take(1) =~= seq![ts[0]]);
        }
        let mut k: usize = 1;
        while k < xs.len()
            invariant
                self.wf(),
                extends(g0, self@),
                g0 == old(self)@,
                ts == terms_of(g0, xs@),
                op == Op::Add || op == Op::Mul,
                all_below(xs@, g0.len() as int),
                1 <= k <= xs.len(),
                acc < self@.len(),
                term_at(self@, acc as int) == fold_term(op, ts.take(k as int)),
            decreases xs.len() - k,
        {
            let ghost g1 = self@;
            let x = xs[k];
            proof { lemma_extends_trans(g0, g1, g1); }
            acc = self.binary(op, acc, x);
            proof {
                lemma_extends_trans(g0, g1, self@);
                assert(ts.take(k + 1).drop_last() =~= ts.take(k as int));
                assert(ts.take(k + 1).last() == ts[k as int]);
            }
            k = k + 1;
        }
        assert(ts.take(xs.len() as int) =~= ts);
        acc
    }
}

/// Left fold of `op` over the terms, with the identity of `op` for the empty
/// sequence.
pub open spec fn fold_term(op: Op, ts: Seq<Term>) -> Term {
    if op == Op::Add {
        sum_term(ts)
    } else {
        product_term(ts)
    }
}

} // verus!

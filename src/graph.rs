use vstd::prelude::*;
use crate::op::{arity, Op};

verus! {

/// The operands of a node, by their index in the arena.
#[derive(Debug, Clone, Copy, PartialEq, Eq, Structural)]
pub enum Prev {
    Init,
    Unary(usize),
    Binary(usize, usize),
}

/// The value of a constant leaf: an integer, or the reciprocal of a
/// positive integer (what dividing by a count multiplies with).
#[derive(Debug, Clone, Copy, PartialEq, Eq, Structural)]
pub enum Constant {
    Int(i64),
    Recip(u64),
}

/// One node of the arena. `constant` is meaningful for `Op::Const` leaves
/// only and is `Int(0)` elsewhere.
#[derive(Debug, Clone, Copy, PartialEq, Eq, Structural)]
pub struct Node {
    pub op: Op,
    pub prev: Prev,
    pub constant: Constant,
}

/// The expression a node denotes: leaves are named by their index, constants
/// by their value.
pub enum Term {
    Var(usize),
    Num(Constant),
    Un(Op, Box<Term>),
    Bin(Op, Box<Term>, Box<Term>),
}

/// A node is well formed at index `i` when its operands come before it and
/// their number matches its operation.
pub open spec fn node_wf(n: Node, i: int) -> bool {
    match n.prev {
        Prev::Init => arity(n.op) == 0 && (n.op == Op::Var ==> n.constant == Constant::Int(0)),
        Prev::Unary(a) => arity(n.op) == 1 && a < i && n.constant == Constant::Int(0),
        Prev::Binary(a, b) => arity(n.op) == 2 && a < i && b < i && n.constant == Constant::Int(0),
    }
}

pub open spec fn nodes_wf(nodes: Seq<Node>) -> bool {
    forall|i: int| 0 <= i < nodes.len() ==> #[trigger] node_wf(nodes[i], i)
}

/// The expression denoted by node `i`.
pub open spec fn term_at(nodes: Seq<Node>, i: int) -> Term
    decreases i,
{
    if i < 0 || i >= nodes.len() {
        Term::Var(0)
    } else {
        let n = nodes[i];
        match n.prev {
            Prev::Init => if n.op == Op::Const {
                Term::Num(n.constant)
            } else {
                Term::Var(i as usize)
            },
            Prev::Unary(a) => if a < i {
                Term::Un(n.op, Box::new(term_at(nodes, a as int)))
            } else {
                Term::Var(i as usize)
            },
            Prev::Binary(a, b) => if a < i && b < i {
                Term::Bin(n.op, Box::new(term_at(nodes, a as int)), Box::new(term_at(nodes, b as int)))
            } else {
                Term::Var(i as usize)
            },
        }
    }
}

/// The expressions denoted by a sequence of nodes.
pub open spec fn terms_of(nodes: Seq<Node>, xs: Seq<usize>) -> Seq<Term> {
    xs.map_values(|x: usize| term_at(nodes, x as int))
}

/// Every index of `xs` names a node of the arena.
pub open spec fn all_below(xs: Seq<usize>, n: int) -> bool {
    forall|k: int| 0 <= k < xs.len() ==> #[trigger] xs[k] < n
}

pub open spec fn num(c: i64) -> Term {
    Term::Num(Constant::Int(c))
}

pub open spec fn bin(op: Op, a: Term, b: Term) -> Term {
    Term::Bin(op, Box::new(a), Box::new(b))
}

pub open spec fn un(op: Op, a: Term) -> Term {
    Term::Un(op, Box::new(a))
}

/// `-a`, written as a product with the constant -1.
pub open spec fn neg_term(a: Term) -> Term {
    bin(Op::Mul, a, num(-1i64))
}

/// `a - b`, written as `a + (-b)`.
pub open spec fn sub_term(a: Term, b: Term) -> Term {
    bin(Op::Add, a, neg_term(b))
}

/// `a / b`, written as `a * b^(-1)`.
pub open spec fn div_term(a: Term, b: Term) -> Term {
    bin(Op::Mul, a, bin(Op::Pow, b, num(-1i64)))
}

/// Left fold of `+` over the terms; the empty sum is the constant 0.
pub open spec fn sum_term(ts: Seq<Term>) -> Term
    decreases ts.len(),
{
    if ts.len() == 0 {
        num(0)
    } else if ts.len() == 1 {
        ts[0]
    } else {
        bin(Op::Add, sum_term(ts.drop_last()), ts.last())
    }
}

/// Left fold of `*` over the terms; the empty product is the constant 1.
pub open spec fn product_term(ts: Seq<Term>) -> Term
    decreases ts.len(),
{
    if ts.len() == 0 {
        num(1)
    } else if ts.len() == 1 {
        ts[0]
    } else {
        bin(Op::Mul, product_term(ts.drop_last()), ts.last())
    }
}

/// Appending nodes leaves the expressions of the existing nodes unchanged.
pub proof fn lemma_term_prefix(s: Seq<Node>, t: Seq<Node>, i: int)
    requires
        s.len() <= t.len(),
        s =~= t.subrange(0, s.len() as int),
        0 <= i < s.len(),
    ensures
        term_at(s, i) == term_at(t, i),
    decreases i,
{
    assert(s[i] == t[i]);
    match s[i].prev {
        Prev::Init => {},
        Prev::Unary(a) => {
            if a < i {
                lemma_term_prefix(s, t, a as int);
            }
        },
        Prev::Binary(a, b) => {
            if a < i && b < i {
                lemma_term_prefix(s, t, a as int);
                lemma_term_prefix(s, t, b as int);
            }
        },
    }
}

/// Arena of graph nodes; a node is addressed by its index, which is also its
/// identity. Operands always precede the nodes that consume them.
pub struct Graph {
    nodes: Vec<Node>,
}

impl View for Graph {
    type V = Seq<Node>;

    closed spec fn view(&self) -> Seq<Node> {
        self.nodes@
    }
}

/// `t` is `s` with nodes appended.
pub open spec fn extends(s: Seq<Node>, t: Seq<Node>) -> bool {
    s.len() <= t.len() && s =~= t.subrange(0, s.len() as int)
}

/// Extension keeps the expressions of the existing nodes.
pub proof fn lemma_extends_terms(s: Seq<Node>, t: Seq<Node>, xs: Seq<usize>)
    requires
        extends(s, t),
        all_below(xs, s.len() as int),
    ensures
        terms_of(s, xs) == terms_of(t, xs),
        forall|i: int| 0 <= i < s.len() ==> term_at(s, i) == #[trigger] term_at(t, i),
{
    assert forall|i: int| 0 <= i < s.len() implies term_at(s, i) == #[trigger] term_at(t, i) by {
        lemma_term_prefix(s, t, i);
    }
    assert forall|k: int| 0 <= k < xs.len() implies terms_of(s, xs)[k] == terms_of(t, xs)[k] by {
        assert(xs[k] < s.len());
    }
    assert(terms_of(s, xs) =~= terms_of(t, xs));
}

/// Extension is transitive, and keeps the expressions of the first graph's
/// nodes.
pub proof fn lemma_extends_trans(g0: Seq<Node>, g1: Seq<Node>, g2: Seq<Node>)
    requires
        extends(g0, g1),
        extends(g1, g2),
    ensures
        extends(g0, g2),
        forall|i: int| 0 <= i < g0.len() ==> term_at(g0, i) == #[trigger] term_at(g2, i),
{
    assert(g0 =~= g2.subrange(0, g0.len() as int));
    lemma_extends_terms(g0, g2, Seq::empty());
}

impl Graph {
    pub open spec fn wf(&self) -> bool {
        nodes_wf(self@)
    }

    /// An empty arena.
    pub fn new() -> (r: Graph)
        ensures
            r.wf(),
            r@ == Seq::<Node>::empty(),
    {
        Graph { nodes: Vec::new() }
    }

    /// Number of nodes in the arena.
    pub fn len(&self) -> (r: usize)
        ensures
            r == self@.len(),
    {
        self.nodes.len()
    }

    /// The node at index `i`.
    pub fn node(&self, i: usize) -> (r: Node)
        requires
            i < self@.len(),
        ensures
            r == self@[i as int],
    {
        self.nodes[i]
    }

    fn push(&mut self, n: Node) -> (r: usize)
        requires
            old(self).wf(),
            node_wf(n, old(self)@.len() as int),
        ensures
            final(self).wf(),
            final(self)@ == old(self)@.push(n),
            r == old(self)@.len(),
            extends(old(self)@, final(self)@),
            forall|i: int| 0 <= i < old(self)@.len() ==>
                term_at(old(self)@, i) == #[trigger] term_at(final(self)@, i),
    {
        let r = self.nodes.len();
        self.nodes.push(n);
        assert(self@.subrange(0, r as int) =~= old(self)@);
        proof {
            lemma_extends_terms(old(self)@, self@, Seq::empty());
        }
        r
    }

    /// A leaf whose value the caller holds (an input or a parameter).
    pub fn var(&mut self) -> (r: usize)
        requires
            old(self).wf(),
        ensures
            final(self).wf(),
            extends(old(self)@, final(self)@),
            final(self)@ == old(self)@.push(Node { op: Op::Var, prev: Prev::Init, constant: Constant::Int(0) }),
            r == old(self)@.len(),
            term_at(final(self)@, r as int) == Term::Var(r),
    {
        self.push(Node { op: Op::Var, prev: Prev::Init, constant: Constant::Int(0) })
    }

    /// `n` fresh leaves whose values the caller holds; they take the indices
    /// `len .. len + n`.
    pub fn vars(&mut self, n: usize) -> (r: usize)
        requires
            old(self).wf(),
        ensures
            final(self).wf(),
            extends(old(self)@, final(self)@),
            r == old(self)@.len(),
            final(self)@.len() == old(self)@.len() + n,
            forall|i: int| r <= i < final(self)@.len() ==> #[trigger] term_at(final(self)@, i) == Term::Var(i as usize),
    {
        let r = self.nodes.len();
        let mut k: usize = 0;
        while k < n
            invariant
                self.wf(),
                extends(old(self)@, self@),
                r == old(self)@.len(),
                k <= n,
                self@.len() == r + k,
                forall|i: int| r <= i < self@.len() ==> #[trigger] term_at(self@, i) == Term::Var(i as usize),
            decreases n - k,
        {
            let ghost before = self@;
            self.var();
            proof {
                lemma_extends_terms(before, self@, Seq::empty());
                assert(old(self)@ =~= self@.subrange(0, r as int));
            }
            k = k + 1;
        }
        r
    }

    /// A constant leaf.
    pub fn constant(&mut self, c: Constant) -> (r: usize)
        requires
            old(self).wf(),
        ensures
            final(self).wf(),
            extends(old(self)@, final(self)@),
            final(self)@ == old(self)@.push(Node { op: Op::Const, prev: Prev::Init, constant: c }),
            r == old(self)@.len(),
            term_at(final(self)@, r as int) == Term::Num(c),
    {
        self.push(Node { op: Op::Const, prev: Prev::Init, constant: c })
    }

    pub(crate) fn unary(&mut self, op: Op, a: usize) -> (r: usize)
        requires
            old(self).wf(),
            arity(op) == 1,
            a < old(self)@.len(),
        ensures
            final(self).wf(),
            extends(old(self)@, final(self)@),
            final(self)@ == old(self)@.push(Node { op, prev: Prev::Unary(a), constant: Constant::Int(0) }),
            r == old(self)@.len(),
            term_at(final(self)@, r as int) == un(op, term_at(old(self)@, a as int)),
    {
        let r = self.push(Node { op, prev: Prev::Unary(a), constant: Constant::Int(0) });
        assert(term_at(self@, a as int) == term_at(old(self)@, a as int));
        assert(self@[r as int].prev == Prev::Unary(a));
        r
    }

    pub(crate) fn binary(&mut self, op: Op, a: usize, b: usize) -> (r: usize)
        requires
            old(self).wf(),
            arity(op) == 2,
            a < old(self)@.len(),
            b < old(self)@.len(),
        ensures
            final(self).wf(),
            extends(old(self)@, final(self)@),
            final(self)@ == old(self)@.push(Node { op, prev: Prev::Binary(a, b), constant: Constant::Int(0) }),
            r == old(self)@.len(),
            term_at(final(self)@, r as int) == bin(op, term_at(old(self)@, a as int), term_at(old(self)@, b as int)),
    {
        let r = self.push(Node { op, prev: Prev::Binary(a, b), constant: Constant::Int(0) });
        assert(term_at(self@, a as int) == term_at(old(self)@, a as int));
        assert(term_at(self@, b as int) == term_at(old(self)@, b as int));
        assert(self@[r as int].prev == Prev::Binary(a, b));
        r
    }
}

} // verus!

use vstd::prelude::*;
use crate::graph::{all_below, bin, extends, lemma_extends_terms, sum_term, term_at, terms_of, un, Graph, Node, Term};
use crate::op::{ActvFn, Op};
use crate::ops::{appended, built_all};

verus! {

/// `n` consecutive parameter ids starting at `first`.
pub open spec fn id_range(first: int, n: int) -> Seq<usize> {
    Seq::new(n as nat, |i: int| (first + i) as usize)
}

/// The products `w_i * x_i`, one per weight.
pub open spec fn weighted_terms(g: Seq<Node>, ws: Seq<usize>, xs: Seq<Term>) -> Seq<Term> {
    Seq::new(ws.len(), |i: int| bin(Op::Mul, term_at(g, ws[i] as int), xs[i]))
}

/// `a`, or `f(a)` when an activation is present.
pub open spec fn activation_term(f: Option<ActvFn>, a: Term) -> Term {
    match f {
        Some(f) => un(Op::ActvFn(f), a),
        None => a,
    }
}

/// What a neuron computes from inputs `xs`: `f(sum_i w_i * x_i + b)`.
pub open spec fn neuron_term(n: Neuron, g: Seq<Node>, xs: Seq<Term>) -> Term {
    activation_term(
        n.actv_fn,
        bin(Op::Add, sum_term(weighted_terms(g, n.weights@, xs)), term_at(g, n.bias as int)),
    )
}

/// The ids of a neuron's parameters: its weights, then its bias.
pub open spec fn neuron_params(n: Neuron) -> Seq<usize> {
    n.weights@.push(n.bias)
}

/// The ids of the parameters of a sequence of neurons, neuron by neuron.
pub open spec fn neurons_params(ns: Seq<Neuron>) -> Seq<usize>
    decreases ns.len(),
{
    if ns.len() == 0 {
        Seq::empty()
    } else {
        neurons_params(ns.drop_last()) + neuron_params(ns.last())
    }
}

/// The ids of the parameters of a sequence of layers, layer by layer.
pub open spec fn layers_params(ls: Seq<Layer>) -> Seq<usize>
    decreases ls.len(),
{
    if ls.len() == 0 {
        Seq::empty()
    } else {
        layers_params(ls.drop_last()) + neurons_params(ls.last().neurons@)
    }
}

/// What a layer computes from inputs `xs`: one term per neuron.
pub open spec fn layer_terms(ns: Seq<Neuron>, g: Seq<Node>, xs: Seq<Term>) -> Seq<Term> {
    Seq::new(ns.len(), |k: int| neuron_term(ns[k], g, xs))
}

/// What a stack of layers computes from inputs `xs`, each layer fed with
/// the outputs of the one before.
pub open spec fn layers_terms(ls: Seq<Layer>, g: Seq<Node>, xs: Seq<Term>) -> Seq<Term>
    decreases ls.len(),
{
    if ls.len() == 0 {
        xs
    } else {
        layer_terms(ls.last().neurons@, g, layers_terms(ls.drop_last(), g, xs))
    }
}

/// Number of parameters of a network with `nin` inputs and layers of the
/// given sizes.
pub open spec fn mlp_param_count(nin: int, nouts: Seq<u32>) -> int
    decreases nouts.len(),
{
    if nouts.len() == 0 {
        0
    } else {
        let prev = if nouts.len() == 1 { nin } else { nouts[nouts.len() - 2] as int };
        mlp_param_count(nin, nouts.drop_last()) + nouts.last() * (prev + 1)
    }
}

/// A neuron: one weight per input, a bias and an optional activation. The
/// weights and the bias are ids of parameters, which are leaves of the
/// graph a forward pass builds on.
pub struct Neuron {
    pub weights: Vec<usize>,
    pub bias: usize,
    pub actv_fn: Option<ActvFn>,
}

/// A dense layer: neurons that all read the same inputs.
pub struct Layer {
    pub neurons: Vec<Neuron>,
}

/// A stack of dense layers; only the last one has no activation.
pub struct MultiLayerPerceptron {
    pub layers: Vec<Layer>,
}

proof fn lemma_id_range_split(first: int, n: int, m: int)
    requires
        0 <= n,
        0 <= m,
    ensures
        id_range(first, n) + id_range(first + n, m) =~= id_range(first, n + m),
{
}

impl Neuron {
    pub open spec fn params_below(&self, n: int) -> bool {
        all_below(neuron_params(*self), n)
    }

    /// A neuron with `nin` weights whose parameter ids run from `first`,
    /// the bias taking the last id.
    pub fn new(first: usize, nin: u32, nonlin: Option<ActvFn>) -> (r: Neuron)
        requires
            first + nin + 1 <= usize::MAX,
        ensures
            neuron_params(r) =~= id_range(first as int, nin + 1),
            r.weights@.len() == nin,
            r.actv_fn == nonlin,
    {
        let mut weights: Vec<usize> = Vec::new();
        let mut k: u32 = 0;
        while k < nin
            invariant
                k <= nin,
                first + nin + 1 <= usize::MAX,
                weights@ =~= id_range(first as int, k as int),
            decreases nin - k,
        {
            weights.push(first + k as usize);
            k = k + 1;
        }
        Neuron { weights, bias: first + nin as usize, actv_fn: nonlin }
    }

    /// The ids of the weights, then the id of the bias.
    pub fn parameters(&self) -> (r: Vec<usize>)
        ensures
            r@ == neuron_params(*self),
    {
        let mut p = self.weights.clone();
        p.push(self.bias);
        p
    }

    /// Builds `f(sum_i w_i * x_i + b)` over the input nodes `x`, one input
    /// per weight.
    pub fn forw(&self, g: &mut Graph, x: &Vec<usize>) -> (r: usize)
        requires
            old(g).wf(),
            self.params_below(old(g)@.len() as int),
            all_below(x@, old(g)@.len() as int),
            x@.len() == self.weights@.len(),
        ensures
            appended(old(g)@, final(g)@, r, neuron_term(*self, old(g)@, terms_of(old(g)@, x@))),
    {
        let ghost g0 = g@;
        let ghost xs = terms_of(g0, x@);
        let ghost ws = weighted_terms(g0, self.weights@, xs);
        let n = self.weights.len();
        assert(forall|k: int| 0 <= k < self.weights@.len() ==> #[trigger] self.weights@[k] == neuron_params(*self)[k]);
        let mut prods: Vec<usize> = Vec::new();
        let mut k: usize = 0;
        while k < n
            invariant
                g.wf(),
                extends(g0, g@),
                xs == terms_of(g0, x@),
                ws == weighted_terms(g0, self.weights@, xs),
                n == ws.len(),
                n <= self.weights@.len(),
                n <= x@.len(),
                k <= n,
                prods@.len() == k,
                self.params_below(g0.len() as int),
                all_below(x@, g0.len() as int),
                forall|j: int| 0 <= j < self.weights@.len() ==> #[trigger] self.weights@[j] == neuron_params(*self)[j],
                forall|j: int| 0 <= j < k ==> #[trigger] prods@[j] < g@.len() && term_at(g@, prods@[j] as int) == ws[j],
            decreases n - k,
        {
            let ghost g1 = g@;
            let ghost old_prods = prods@;
            let w = self.weights[k];
            let xk = x[k];
            assert(w == neuron_params(*self)[k as int]);
            proof { lemma_extends_terms(g0, g1, seq![w, xk]); assert(seq![w, xk][0] == w); assert(seq![w, xk][1] == xk); }
            let p = g.mul(w, xk);
            proof {
                lemma_extends_terms(g1, g@, prods@);
                assert(g0 =~= g@.subrange(0, g0.len() as int));
            }
            prods.push(p);
            proof {
                assert(term_at(g1, w as int) == term_at(g0, w as int));
                assert(term_at(g1, xk as int) == term_at(g0, xk as int));
                assert(xs[k as int] == term_at(g0, xk as int));
                assert(term_at(g@, p as int) == ws[k as int]);
                assert forall|j: int| 0 <= j < k + 1 implies #[trigger] prods@[j] < g@.len() && term_at(g@, prods@[j] as int) == ws[j] by {
                    if j < k {
                        assert(terms_of(g1, old_prods)[j] == terms_of(g@, old_prods)[j]);
                    }
                }
            }
            k = k + 1;
        }
        let ghost g2 = g@;
        assert(terms_of(g2, prods@) =~= ws);
        let s = g.sum(&prods);
        let ghost g3 = g@;
        proof {
            assert(self.bias == neuron_params(*self)[self.weights@.len() as int]);
            lemma_extends_terms(g0, g3, seq![self.bias]);
            assert(seq![self.bias][0] == self.bias);
            assert(g0 =~= g3.subrange(0, g0.len() as int));
        }
        let act = g.add(s, self.bias);
        let ghost g4 = g@;
        proof { assert(g0 =~= g4.subrange(0, g0.len() as int)); }
        match self.actv_fn {
            Some(f) => {
                let r = g.activate(f, act);
                proof { assert(g0 =~= g@.subrange(0, g0.len() as int)); }
                r
            },
            None => act,
        }
    }
}

/// A neuron computes the same term on any extension of the graph that holds
/// its parameters.
proof fn lemma_neuron_term_extends(n: Neuron, g0: Seq<Node>, g1: Seq<Node>, xs: Seq<Term>)
    requires
        extends(g0, g1),
        n.params_below(g0.len() as int),
    ensures
        neuron_term(n, g0, xs) == neuron_term(n, g1, xs),
{
    lemma_extends_terms(g0, g1, neuron_params(n));
    assert(forall|k: int| 0 <= k < n.weights@.len() ==> #[trigger] n.weights@[k] == neuron_params(n)[k]);
    assert(n.bias == neuron_params(n)[n.weights@.len() as int]);
    assert(weighted_terms(g0, n.weights@, xs) =~= weighted_terms(g1, n.weights@, xs));
}

proof fn lemma_layer_terms_extends(ns: Seq<Neuron>, g0: Seq<Node>, g1: Seq<Node>, xs: Seq<Term>)
    requires
        extends(g0, g1),
        all_below(neurons_params(ns), g0.len() as int),
    ensures
        layer_terms(ns, g0, xs) == layer_terms(ns, g1, xs),
{
    assert forall|k: int| 0 <= k < ns.len() implies #[trigger] layer_terms(ns, g0, xs)[k] == layer_terms(ns, g1, xs)[k] by {
        lemma_neurons_params_below(ns, g0.len() as int, k);
        lemma_neuron_term_extends(ns[k], g0, g1, xs);
    }
    assert(layer_terms(ns, g0, xs) =~= layer_terms(ns, g1, xs));
}

proof fn lemma_neurons_params_below(ns: Seq<Neuron>, n: int, k: int)
    requires
        all_below(neurons_params(ns), n),
        0 <= k < ns.len(),
    ensures
        ns[k].params_below(n),
    decreases ns.len(),
{
    let front = neurons_params(ns.drop_last());
    let last = neuron_params(ns.last());
    assert forall|j: int| 0 <= j < front.len() implies #[trigger] front[j] < n by {
        assert(neurons_params(ns)[j] == front[j]);
    }
    if k == ns.len() - 1 {
        assert forall|j: int| 0 <= j < last.len() implies #[trigger] last[j] < n by {
            assert(neurons_params(ns)[front.len() + j] == last[j]);
        }
    } else {
        lemma_neurons_params_below(ns.drop_last(), n, k);
        assert(ns.drop_last()[k] == ns[k]);
    }
}

proof fn lemma_layers_params_below(ls: Seq<Layer>, n: int, k: int)
    requires
        all_below(layers_params(ls), n),
        0 <= k < ls.len(),
    ensures
        all_below(neurons_params(ls[k].neurons@), n),
    decreases ls.len(),
{
    let front = layers_params(ls.drop_last());
    let last = neurons_params(ls.last().neurons@);
    assert forall|j: int| 0 <= j < front.len() implies #[trigger] front[j] < n by {
        assert(layers_params(ls)[j] == front[j]);
    }
    if k == ls.len() - 1 {
        assert forall|j: int| 0 <= j < last.len() implies #[trigger] last[j] < n by {
            assert(layers_params(ls)[front.len() + j] == last[j]);
        }
    } else {
        lemma_layers_params_below(ls.drop_last(), n, k);
        assert(ls.drop_last()[k] == ls[k]);
    }
}

impl Layer {
    pub open spec fn params_below(&self, n: int) -> bool {
        all_below(neurons_params(self.neurons@), n)
    }

    /// Every neuron of the layer has `n` weights.
    pub open spec fn takes(&self, n: int) -> bool {
        forall|k: int| 0 <= k < self.neurons@.len() ==> (#[trigger] self.neurons@[k]).weights@.len() == n
    }

    /// A layer of `nout` neurons with `nin` inputs each; its parameter ids
    /// run from `first`, neuron by neuron.
    pub fn new(first: usize, nin: u32, nout: u32, nonlin: Option<ActvFn>) -> (r: Layer)
        requires
            first + nout * (nin + 1) <= usize::MAX,
        ensures
            neurons_params(r.neurons@) =~= id_range(first as int, nout * (nin + 1)),
            r.neurons@.len() == nout,
            forall|k: int| 0 <= k < nout ==> (#[trigger] r.neurons@[k]).weights@.len() == nin
                && r.neurons@[k].actv_fn == nonlin,
    {
        let mut neurons: Vec<Neuron> = Vec::new();
        let mut k: u32 = 0;
        let ghost w = nin + 1;
        while k < nout
            invariant
                k <= nout,
                w == nin + 1,
                first + nout * w <= usize::MAX,
                neurons@.len() == k,
                neurons_params(neurons@) =~= id_range(first as int, k * w),
                forall|j: int| 0 <= j < k ==> (#[trigger] neurons@[j]).weights@.len() == nin
                    && neurons@[j].actv_fn == nonlin,
            decreases nout - k,
        {
            assert(first + k * w + w <= usize::MAX) by (nonlinear_arith)
                requires k < nout, first + nout * w <= usize::MAX, w >= 1;
            let start = first + (k as usize) * (nin as usize + 1);
            let n = Neuron::new(start, nin, nonlin);
            let ghost before = neurons@;
            neurons.push(n);
            proof {
                assert(neurons@.drop_last() =~= before);
                lemma_id_range_split(first as int, k * w, w);
                assert((k + 1) * w == k * w + w) by (nonlinear_arith);
            }
            k = k + 1;
        }
        Layer { neurons }
    }

    /// The ids of the parameters of every neuron, neuron by neuron.
    pub fn parameters(&self) -> (r: Vec<usize>)
        ensures
            r@ == neurons_params(self.neurons@),
    {
        let mut r: Vec<usize> = Vec::new();
        let mut k: usize = 0;
        while k < self.neurons.len()
            invariant
                k <= self.neurons@.len(),
                r@ == neurons_params(self.neurons@.take(k as int)),
            decreases self.neurons@.len() - k,
        {
            let mut p = self.neurons[k].parameters();
            r.append(&mut p);
            assert(self.neurons@.take(k + 1).drop_last() =~= self.neurons@.take(k as int));
            k = k + 1;
        }
        assert(self.neurons@.take(k as int) =~= self.neurons@);
        r
    }

    /// One output node per neuron, every neuron reading the inputs `x`.
    pub fn forw(&self, g: &mut Graph, x: &Vec<usize>) -> (r: Vec<usize>)
        requires
            old(g).wf(),
            self.params_below(old(g)@.len() as int),
            all_below(x@, old(g)@.len() as int),
            self.takes(x@.len() as int),
        ensures
            built_all(old(g)@, final(g)@, r@, layer_terms(self.neurons@, old(g)@, terms_of(old(g)@, x@))),
    {
        let ghost g0 = g@;
        let ghost xs = terms_of(g0, x@);
        let ghost ts = layer_terms(self.neurons@, g0, xs);
        let mut r: Vec<usize> = Vec::new();
        let mut k: usize = 0;
        while k < self.neurons.len()
            invariant
                g.wf(),
                extends(g0, g@),
                xs == terms_of(g0, x@),
                ts == layer_terms(self.neurons@, g0, xs),
                k <= self.neurons@.len(),
                r@.len() == k,
                self.params_below(g0.len() as int),
                all_below(x@, g0.len() as int),
                self.takes(x@.len() as int),
                forall|j: int| 0 <= j < k ==> #[trigger] r@[j] < g@.len() && term_at(g@, r@[j] as int) == ts[j],
            decreases self.neurons@.len() - k,
        {
            let ghost g1 = g@;
            let ghost before = r@;
            proof {
                lemma_neurons_params_below(self.neurons@, g0.len() as int, k as int);
                lemma_extends_terms(g0, g1, x@);
                lemma_extends_terms(g0, g1, neuron_params(self.neurons@[k as int]));
                lemma_neuron_term_extends(self.neurons@[k as int], g0, g1, xs);
            }
            let o = self.neurons[k].forw(g, x);
            proof {
                lemma_extends_terms(g1, g@, before);
                assert(g0 =~= g@.subrange(0, g0.len() as int));
            }
            r.push(o);
            proof {
                assert forall|j: int| 0 <= j < k + 1 implies #[trigger] r@[j] < g@.len() && term_at(g@, r@[j] as int) == ts[j] by {
                    if j < k {
                        assert(r@[j] == before[j]);
                        assert(terms_of(g1, before)[j] == terms_of(g@, before)[j]);
                    }
                }
            }
            k = k + 1;
        }
        assert(terms_of(g@, r@) =~= ts);
        r
    }

    /// The layer applied to each input row independently.
    pub fn forward(&self, g: &mut Graph, x: &Vec<Vec<usize>>) -> (r: Vec<Vec<usize>>)
        requires
            old(g).wf(),
            self.params_below(old(g)@.len() as int),
            forall|i: int| 0 <= i < x@.len() ==> all_below(#[trigger] x@[i]@, old(g)@.len() as int),
            forall|i: int| 0 <= i < x@.len() ==> self.takes(#[trigger] x@[i]@.len() as int),
        ensures
            final(g).wf(),
            extends(old(g)@, final(g)@),
            r@.len() == x@.len(),
            forall|i: int| 0 <= i < x@.len() ==> built_all(old(g)@, final(g)@, #[trigger] r@[i]@,
                layer_terms(self.neurons@, old(g)@, terms_of(old(g)@, x@[i]@))),
    {
        let ghost g0 = g@;
        let mut r: Vec<Vec<usize>> = Vec::new();
        let mut i: usize = 0;
        while i < x.len()
            invariant
                g.wf(),
                extends(g0, g@),
                i <= x@.len(),
                r@.len() == i,
                self.params_below(g0.len() as int),
                forall|j: int| 0 <= j < x@.len() ==> all_below(#[trigger] x@[j]@, g0.len() as int),
                forall|j: int| 0 <= j < x@.len() ==> self.takes(#[trigger] x@[j]@.len() as int),
                forall|j: int| 0 <= j < i ==> built_all(g0, g@, #[trigger] r@[j]@,
                    layer_terms(self.neurons@, g0, terms_of(g0, x@[j]@))),
            decreases x@.len() - i,
        {
            let ghost g1 = g@;
            let ghost before = r@;
            proof {
                lemma_extends_terms(g0, g1, x@[i as int]@);
                lemma_layer_terms_extends(self.neurons@, g0, g1, terms_of(g0, x@[i as int]@));
                assert(all_below(x@[i as int]@, g1.len() as int));
                assert forall|k: int| 0 <= k < neurons_params(self.neurons@).len() implies
                    #[trigger] neurons_params(self.neurons@)[k] < g1.len() by {}
            }
            let o = self.forw(g, &x[i]);
            proof {
                assert(g0 =~= g@.subrange(0, g0.len() as int));
                assert forall|j: int| 0 <= j < i implies built_all(g0, g@, #[trigger] before[j]@,
                    layer_terms(self.neurons@, g0, terms_of(g0, x@[j]@))) by {
                    lemma_extends_terms(g1, g@, before[j]@);
                    assert forall|k: int| 0 <= k < before[j]@.len() implies #[trigger] before[j]@[k] < g@.len() by {
                        assert(before[j]@[k] < g1.len());
                    }
                }
            }
            r.push(o);
            proof {
                assert forall|j: int| 0 <= j < i + 1 implies built_all(g0, g@, #[trigger] r@[j]@,
                    layer_terms(self.neurons@, g0, terms_of(g0, x@[j]@))) by {
                    if j < i {
                        assert(r@[j] == before[j]);
                    }
                }
            }
            i = i + 1;
        }
        r
    }
}

/// The activation of layer `i` of `n`: none for the last one.
pub open spec fn layer_activation(i: int, n: int, f: ActvFn) -> Option<ActvFn> {
    if i == n - 1 {
        None
    } else {
        Some(f)
    }
}

/// Inputs of layer `i`: the network's inputs for the first layer, the size
/// of the layer before for the others.
pub open spec fn layer_inputs(nin: int, nouts: Seq<u32>, i: int) -> int {
    if i == 0 {
        nin
    } else {
        nouts[i - 1] as int
    }
}

proof fn lemma_param_count_prefix(nin: int, nouts: Seq<u32>, i: int)
    requires
        0 <= i <= nouts.len(),
        nin >= 0,
    ensures
        0 <= mlp_param_count(nin, nouts.take(i)) <= mlp_param_count(nin, nouts),
    decreases nouts.len(),
{
    if i == nouts.len() {
        assert(nouts.take(i) =~= nouts);
        lemma_param_count_nonneg(nin, nouts);
    } else {
        lemma_param_count_prefix(nin, nouts.drop_last(), i);
        assert(nouts.drop_last().take(i) =~= nouts.take(i));
        let prev = if nouts.len() == 1 { nin } else { nouts[nouts.len() - 2] as int };
        assert(nouts.last() * (prev + 1) >= 0) by (nonlinear_arith)
            requires prev >= 0;
    }
}

proof fn lemma_param_count_nonneg(nin: int, nouts: Seq<u32>)
    requires
        nin >= 0,
    ensures
        mlp_param_count(nin, nouts) >= 0,
    decreases nouts.len(),
{
    if nouts.len() > 0 {
        lemma_param_count_nonneg(nin, nouts.drop_last());
        let prev = if nouts.len() == 1 { nin } else { nouts[nouts.len() - 2] as int };
        assert(nouts.last() * (prev + 1) >= 0) by (nonlinear_arith)
            requires prev >= 0;
    }
}

/// Inputs that layer `i` of `ls` reads when the network reads `nin`.
pub open spec fn layer_width(ls: Seq<Layer>, nin: int, i: int) -> int {
    if i == 0 {
        nin
    } else {
        ls[i - 1].neurons@.len() as int
    }
}

impl MultiLayerPerceptron {
    pub open spec fn params_below(&self, n: int) -> bool {
        all_below(layers_params(self.layers@), n)
    }

    /// Each layer takes as many inputs as the one before has neurons, the
    /// first one `nin`.
    pub open spec fn fits(&self, nin: int) -> bool {
        forall|i: int| 0 <= i < self.layers@.len() ==> (#[trigger] self.layers@[i]).takes(layer_width(self.layers@, nin, i))
    }

    /// A network with `nin` inputs and one layer per entry of `nouts`. Every
    /// layer but the last applies `actv_fn`. The parameters take the ids
    /// `0 .. n`, layer by layer, neuron by neuron, weights before bias.
    pub fn new(nin: u32, nouts: Vec<u32>, actv_fn: ActvFn) -> (r: MultiLayerPerceptron)
        requires
            mlp_param_count(nin as int, nouts@) <= usize::MAX,
        ensures
            r.fits(nin as int),
            layers_params(r.layers@) =~= id_range(0, mlp_param_count(nin as int, nouts@)),
            r.layers@.len() == nouts@.len(),
            forall|i: int| 0 <= i < nouts@.len() ==> (#[trigger] r.layers@[i]).neurons@.len() == nouts@[i],
            forall|i: int, k: int| 0 <= i < nouts@.len() && 0 <= k < nouts@[i] ==>
                (#[trigger] r.layers@[i].neurons@[k]).weights@.len() == layer_inputs(nin as int, nouts@, i)
                && r.layers@[i].neurons@[k].actv_fn == layer_activation(i, nouts@.len() as int, actv_fn),
    {
        let n = nouts.len();
        let mut layers: Vec<Layer> = Vec::new();
        let mut first: usize = 0;
        let mut i: usize = 0;
        while i < n
            invariant
                n == nouts@.len(),
                i <= n,
                mlp_param_count(nin as int, nouts@) <= usize::MAX,
                first == mlp_param_count(nin as int, nouts@.take(i as int)),
                layers@.len() == i,
                layers_params(layers@) =~= id_range(0, first as int),
                forall|j: int| 0 <= j < i ==> (#[trigger] layers@[j]).neurons@.len() == nouts@[j],
                forall|j: int, k: int| 0 <= j < i && 0 <= k < nouts@[j] ==>
                    (#[trigger] layers@[j].neurons@[k]).weights@.len() == layer_inputs(nin as int, nouts@, j)
                    && layers@[j].neurons@[k].actv_fn == layer_activation(j, n as int, actv_fn),
            decreases n - i,
        {
            let lin = if i == 0 { nin } else { nouts[i - 1] };
            let lout = nouts[i];
            let nonlin = if i == n - 1 { None } else { Some(actv_fn) };
            proof {
                lemma_param_count_prefix(nin as int, nouts@, i as int + 1);
                let t = nouts@.take(i as int + 1);
                assert(t.drop_last() =~= nouts@.take(i as int));
                assert(t.last() == lout);
                if i > 0 {
                    assert(t[t.len() - 2] == nouts@[i - 1]);
                }
                assert(mlp_param_count(nin as int, t) == first + lout * (lin + 1));
            }
            let layer = Layer::new(first, lin, lout, nonlin);
            let ghost before = layers@;
            let ghost f0 = first;
            layers.push(layer);
            proof {
                assert(layers@.drop_last() =~= before);
                lemma_id_range_split(0, f0 as int, lout * (lin + 1));
            }
            assert(f0 + lout * lin + lout == f0 + lout * (lin + 1)) by (nonlinear_arith);
            assert(lout * lin <= lout * (lin + 1)) by (nonlinear_arith);
            first = first + (lout as usize) * (lin as usize) + lout as usize;
            i = i + 1;
        }
        assert(nouts@.take(n as int) =~= nouts@);
        let r = MultiLayerPerceptron { layers };
        assert forall|i: int| 0 <= i < r.layers@.len() implies (#[trigger] r.layers@[i]).takes(layer_width(r.layers@, nin as int, i)) by {
            assert forall|k: int| 0 <= k < r.layers@[i].neurons@.len() implies
                (#[trigger] r.layers@[i].neurons@[k]).weights@.len() == layer_width(r.layers@, nin as int, i) by {
                assert(r.layers@[i].neurons@[k].weights@.len() == layer_inputs(nin as int, nouts@, i));
                if i > 0 {
                    assert(r.layers@[i - 1].neurons@.len() == nouts@[i - 1]);
                }
            }
        }
        r
    }

    /// The ids of all parameters: layer by layer, neuron by neuron, each
    /// neuron's weights before its bias. The result depends on the network
    /// alone, so optimizer state and saved weights can be aligned with it.
    pub fn parameters(&self) -> (r: Vec<usize>)
        ensures
            r@ == layers_params(self.layers@),
    {
        let mut r: Vec<usize> = Vec::new();
        let mut k: usize = 0;
        while k < self.layers.len()
            invariant
                k <= self.layers@.len(),
                r@ == layers_params(self.layers@.take(k as int)),
            decreases self.layers@.len() - k,
        {
            let mut p = self.layers[k].parameters();
            r.append(&mut p);
            assert(self.layers@.take(k + 1).drop_last() =~= self.layers@.take(k as int));
            k = k + 1;
        }
        assert(self.layers@.take(k as int) =~= self.layers@);
        r
    }

    /// Forward pass of one input row through every layer in turn.
    pub fn forw(&self, g: &mut Graph, x: &Vec<usize>) -> (r: Vec<usize>)
        requires
            old(g).wf(),
            self.params_below(old(g)@.len() as int),
            all_below(x@, old(g)@.len() as int),
            self.fits(x@.len() as int),
        ensures
            built_all(old(g)@, final(g)@, r@, layers_terms(self.layers@, old(g)@, terms_of(old(g)@, x@))),
    {
        let ghost g0 = g@;
        let ghost xs = terms_of(g0, x@);
        let mut cur = x.clone();
        assert(self.layers@.take(0) =~= Seq::<Layer>::empty());
        assert(g0 =~= g0.subrange(0, g0.len() as int));
        let mut k: usize = 0;
        while k < self.layers.len()
            invariant
                xs == terms_of(g0, x@),
                k <= self.layers@.len(),
                self.params_below(g0.len() as int),
                self.fits(x@.len() as int),
                cur@.len() == layer_width(self.layers@, x@.len() as int, k as int),
                built_all(g0, g@, cur@, layers_terms(self.layers@.take(k as int), g0, xs)),
            decreases self.layers@.len() - k,
        {
            let ghost g1 = g@;
            let ghost prev = layers_terms(self.layers@.take(k as int), g0, xs);
            proof {
                lemma_layers_params_below(self.layers@, g0.len() as int, k as int);
                lemma_layer_terms_extends(self.layers@[k as int].neurons@, g0, g1, prev);
                assert forall|j: int| 0 <= j < neurons_params(self.layers@[k as int].neurons@).len() implies
                    #[trigger] neurons_params(self.layers@[k as int].neurons@)[j] < g1.len() by {}
            }
            let next = self.layers[k].forw(g, &cur);
            proof {
                assert(g0 =~= g@.subrange(0, g0.len() as int));
                let t = self.layers@.take(k + 1);
                assert(t.drop_last() =~= self.layers@.take(k as int));
                assert(t.last() == self.layers@[k as int]);
            }
            cur = next;
            k = k + 1;
        }
        assert(self.layers@.take(k as int) =~= self.layers@);
        cur
    }

    /// Forward pass of each input row independently.
    pub fn forward(&self, g: &mut Graph, x: &Vec<Vec<usize>>) -> (r: Vec<Vec<usize>>)
        requires
            old(g).wf(),
            self.params_below(old(g)@.len() as int),
            forall|i: int| 0 <= i < x@.len() ==> all_below(#[trigger] x@[i]@, old(g)@.len() as int),
            forall|i: int| 0 <= i < x@.len() ==> self.fits(#[trigger] x@[i]@.len() as int),
        ensures
            final(g).wf(),
            extends(old(g)@, final(g)@),
            r@.len() == x@.len(),
            forall|i: int| 0 <= i < x@.len() ==> built_all(old(g)@, final(g)@, #[trigger] r@[i]@,
                layers_terms(self.layers@, old(g)@, terms_of(old(g)@, x@[i]@))),
    {
        let ghost g0 = g@;
        let mut r: Vec<Vec<usize>> = Vec::new();
        let mut i: usize = 0;
        assert(g0 =~= g0.subrange(0, g0.len() as int));
        while i < x.len()
            invariant
                g.wf(),
                extends(g0, g@),
                i <= x@.len(),
                r@.len() == i,
                self.params_below(g0.len() as int),
                forall|j: int| 0 <= j < x@.len() ==> all_below(#[trigger] x@[j]@, g0.len() as int),
                forall|j: int| 0 <= j < x@.len() ==> self.fits(#[trigger] x@[j]@.len() as int),
                forall|j: int| 0 <= j < i ==> built_all(g0, g@, #[trigger] r@[j]@,
                    layers_terms(self.layers@, g0, terms_of(g0, x@[j]@))),
            decreases x@.len() - i,
        {
            let ghost g1 = g@;
            let ghost before = r@;
            proof {
                lemma_extends_terms(g0, g1, x@[i as int]@);
                lemma_layers_terms_extends(self.layers@, g0, g1, terms_of(g0, x@[i as int]@));
                assert(all_below(x@[i as int]@, g1.len() as int));
                assert forall|k: int| 0 <= k < layers_params(self.layers@).len() implies
                    #[trigger] layers_params(self.layers@)[k] < g1.len() by {}
            }
            let o = self.forw(g, &x[i]);
            proof {
                assert(g0 =~= g@.subrange(0, g0.len() as int));
                assert forall|j: int| 0 <= j < i implies built_all(g0, g@, #[trigger] before[j]@,
                    layers_terms(self.layers@, g0, terms_of(g0, x@[j]@))) by {
                    lemma_extends_terms(g1, g@, before[j]@);
                    assert forall|k: int| 0 <= k < before[j]@.len() implies #[trigger] before[j]@[k] < g@.len() by {
                        assert(before[j]@[k] < g1.len());
                    }
                }
            }
            r.push(o);
            proof {
                assert forall|j: int| 0 <= j < i + 1 implies built_all(g0, g@, #[trigger] r@[j]@,
                    layers_terms(self.layers@, g0, terms_of(g0, x@[j]@))) by {
                    if j < i {
                        assert(r@[j] == before[j]);
                    }
                }
            }
            i = i + 1;
        }
        r
    }
}

proof fn lemma_layers_terms_extends(ls: Seq<Layer>, g0: Seq<Node>, g1: Seq<Node>, xs: Seq<Term>)
    requires
        extends(g0, g1),
        all_below(layers_params(ls), g0.len() as int),
    ensures
        layers_terms(ls, g0, xs) == layers_terms(ls, g1, xs),
    decreases ls.len(),
{
    if ls.len() > 0 {
        let front = layers_params(ls.drop_last());
        assert forall|j: int| 0 <= j < front.len() implies #[trigger] front[j] < g0.len() by {
            assert(layers_params(ls)[j] == front[j]);
        }
        lemma_layers_terms_extends(ls.drop_last(), g0, g1, xs);
        lemma_layers_params_below(ls, g0.len() as int, ls.len() - 1);
        lemma_layer_terms_extends(ls.last().neurons@, g0, g1, layers_terms(ls.drop_last(), g0, xs));
    }
}

/// The parameter enumeration of a network built by `new` lists each
/// parameter once, parameter `k` at position `k`: optimizer state and saved
/// weights indexed by position refer to the same parameters on every call.
pub proof fn law_parameters_positional(m: &MultiLayerPerceptron, n: int)
    requires
        0 <= n <= usize::MAX,
        layers_params(m.layers@) =~= id_range(0, n),
    ensures
        layers_params(m.layers@).no_duplicates(),
        layers_params(m.layers@).len() == n,
        forall|k: int| 0 <= k < n ==> #[trigger] layers_params(m.layers@)[k] == k,
{
    let ps = layers_params(m.layers@);
    assert forall|k: int| 0 <= k < n implies #[trigger] ps[k] == k by {
        assert(ps[k] == id_range(0, n)[k]);
    }
    assert forall|x: int, y: int| 0 <= x < y < ps.len() implies ps[x] != ps[y] by {
        assert(ps[x] == x && ps[y] == y);
    }
}

} // verus!

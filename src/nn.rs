use vstd::prelude::*;
use crate::graph::{Graph, Op};

verus! {

/// A forward pass was handed a number of inputs other than the one expected.
#[derive(Clone, Copy, Debug, PartialEq, Eq, Structural)]
pub struct ShapeError {
    pub expected: usize,
    pub found: usize,
}

/// `count` leaf operations.
pub open spec fn leaves(count: int) -> Seq<Op> {
    Seq::new(count as nat, |_i: int| Op::Leaf)
}

/// The ids `base, base + 1, ..., base + count - 1`.
pub open spec fn ids_from(base: int, count: int) -> Seq<usize> {
    Seq::new(count as nat, |i: int| (base + i) as usize)
}

/// The node that holds the running sum after `k` terms of a neuron whose
/// nodes start at `base`: the bias at first, then the latest addition.
pub open spec fn sum_node(base: int, b: usize, k: int) -> usize {
    if k == 0 {
        b
    } else {
        (base + 2 * k - 1) as usize
    }
}

/// The operations that add the first `k` weighted inputs to the bias, one
/// product and one sum per input, appended from id `base` on.
pub open spec fn sum_ops(base: int, x: Seq<usize>, w: Seq<usize>, b: usize, k: int) -> Seq<Op>
    decreases k,
{
    if k <= 0 {
        Seq::empty()
    } else {
        sum_ops(base, x, w, b, k - 1) + seq![
            Op::Mul(x[k - 1], w[k - 1]),
            Op::Add(sum_node(base, b, k - 1), (base + 2 * (k - 1)) as usize),
        ]
    }
}

/// The operations of one neuron's forward pass, appended from id `base` on:
/// `tanh(b + x[0] * w[0] + ... + x[n-1] * w[n-1])`, summed left to right.
pub open spec fn neuron_ops(base: int, x: Seq<usize>, w: Seq<usize>, b: usize) -> Seq<Op> {
    sum_ops(base, x, w, b, x.len() as int) + seq![Op::TanH(sum_node(base, b, x.len() as int))]
}

/// All ids of `s` name nodes of a graph of `len` nodes.
pub open spec fn ids_below(s: Seq<usize>, len: int) -> bool {
    forall|k: int| 0 <= k < s.len() ==> #[trigger] s[k] < len
}

/// One neuron: a weight per input and a bias, all nodes of a graph.
pub struct Neuron {
    pub w: Vec<usize>,
    pub b: usize,
}

impl Neuron {
    /// The weights followed by the bias.
    pub open spec fn params(&self) -> Seq<usize> {
        self.w@.push(self.b)
    }

    /// The neuron's parameters are nodes of a graph of `len` nodes.
    pub open spec fn wf(&self, len: int) -> bool {
        ids_below(self.params(), len)
    }

    /// A neuron with `num_inputs` weights: adds `num_inputs + 1` fresh leaves
    /// to the graph, the weights first and then the bias. Their values are
    /// the caller's to set.
    pub fn new(g: &mut Graph, num_inputs: usize) -> (r: Neuron)
        requires
            old(g).wf(),
            old(g)@.len() + num_inputs + 1 <= usize::MAX,
        ensures
            final(g).wf(),
            final(g)@ == old(g)@ + leaves(num_inputs + 1),
            r.params() == ids_from(old(g)@.len() as int, num_inputs + 1),
            r.w@.len() == num_inputs,
    {
        let ghost base = old(g)@.len() as int;
        let mut w: Vec<usize> = Vec::new();
        let mut k: usize = 0;
        while k < num_inputs
            invariant
                g.wf(),
                k <= num_inputs,
                base + num_inputs + 1 <= usize::MAX,
                g@ == old(g)@ + leaves(k as int),
                g@.len() == base + k,
                w@ == ids_from(base, k as int),
            decreases num_inputs - k,
        {
            let id = g.leaf();
            w.push(id);
            k += 1;
            assert(g@ == old(g)@ + leaves(k as int));
            assert(w@ =~= ids_from(base, k as int));
        }
        let b = g.leaf();
        assert(g@ == old(g)@ + leaves(num_inputs + 1));
        let r = Neuron { w, b };
        assert(r.params() == ids_from(base, num_inputs + 1));
        r
    }

    /// The neuron's parameters, weights first, then the bias.
    pub fn parameters(&self) -> (r: Vec<usize>)
        ensures
            r@ == self.params(),
    {
        let mut r = self.w.clone();
        r.push(self.b);
        r
    }

    /// Builds `tanh(b + x[0] * w[0] + ... + x[n-1] * w[n-1])` in the graph
    /// and returns its node; fails, leaving the graph as it was, when the
    /// number of inputs differs from the number of weights.
    pub fn forward(&self, g: &mut Graph, x: &[usize]) -> (r: Result<usize, ShapeError>)
        requires
            old(g).wf(),
            self.wf(old(g)@.len() as int),
            ids_below(x@, old(g)@.len() as int),
            old(g)@.len() + 2 * x@.len() + 1 <= usize::MAX,
        ensures
            final(g).wf(),
            x@.len() == self.w@.len() ==> {
                &&& final(g)@.len() == old(g)@.len() + 2 * x@.len() + 1
                &&& final(g)@[old(g)@.len() + 2 * x@.len() as int] is TanH
                &&& final(g)@ == old(g)@ + neuron_ops(old(g)@.len() as int, x@, self.w@, self.b)
                &&& r == Ok::<usize, ShapeError>((old(g)@.len() + 2 * x@.len()) as usize)
            },
            x@.len() != self.w@.len() ==> {
                &&& final(g)@ == old(g)@
                &&& r == Err::<usize, ShapeError>(ShapeError { expected: self.w@.len() as usize, found: x@.len() as usize })
            },
    {
        if x.len() != self.w.len() {
            return Err(ShapeError { expected: self.w.len(), found: x.len() });
        }
        let ghost base = old(g)@.len() as int;
        let n = x.len();
        assert(self.params()[n as int] == self.b);
        let mut acc = self.b;
        let mut k: usize = 0;
        while k < n
            invariant
                g.wf(),
                k <= n,
                n == x@.len(),
                n == self.w@.len(),
                self.wf(base),
                ids_below(x@, base),
                base + 2 * n + 1 <= usize::MAX,
                g@ == old(g)@ + sum_ops(base, x@, self.w@, self.b, k as int),
                g@.len() == base + 2 * k,
                acc == sum_node(base, self.b, k as int),
                acc < g@.len(),
            decreases n - k,
        {
            assert(self.params()[k as int] == self.w@[k as int]);
            let m = g.mul(x[k], self.w[k]);
            let s = g.add(acc, m);
            acc = s;
            k += 1;
            assert(g@ == old(g)@ + sum_ops(base, x@, self.w@, self.b, k as int));
        }
        let t = g.tanh(acc);
        assert(g@ == old(g)@ + neuron_ops(base, x@, self.w@, self.b));
        Ok(t)
    }
}

/// The parameters of `neurons`, neuron after neuron.
pub open spec fn layer_params(neurons: Seq<Neuron>) -> Seq<usize>
    decreases neurons.len(),
{
    if neurons.len() == 0 {
        Seq::empty()
    } else {
        layer_params(neurons.drop_last()) + neurons.last().params()
    }
}

/// Every neuron has `n` weights.
pub open spec fn takes(neurons: Seq<Neuron>, n: int) -> bool {
    forall|k: int| 0 <= k < neurons.len() ==> (#[trigger] neurons[k]).w@.len() == n
}

/// The graph, and the output nodes, after `neurons` are applied in turn to
/// the inputs `x`, starting from the graph `ops`.
pub open spec fn layer_run(ops: Seq<Op>, neurons: Seq<Neuron>, x: Seq<usize>) -> (Seq<Op>, Seq<usize>)
    decreases neurons.len(),
{
    if neurons.len() == 0 {
        (ops, Seq::empty())
    } else {
        let (o, outs) = layer_run(ops, neurons.drop_last(), x);
        let n = neurons.last();
        (o + neuron_ops(o.len() as int, x, n.w@, n.b), outs.push((o.len() + 2 * x.len()) as usize))
    }
}

proof fn lemma_leaves_concat(a: int, b: int)
    requires
        0 <= a,
        0 <= b,
    ensures
        leaves(a) + leaves(b) == leaves(a + b),
{
    assert(leaves(a) + leaves(b) =~= leaves(a + b));
}

proof fn lemma_ids_concat(base: int, a: int, b: int)
    requires
        0 <= a,
        0 <= b,
    ensures
        ids_from(base, a) + ids_from(base + a, b) == ids_from(base, a + b),
{
    assert(ids_from(base, a) + ids_from(base + a, b) =~= ids_from(base, a + b));
}

/// A layer of neurons that all read the same inputs.
pub struct Layer {
    pub neurons: Vec<Neuron>,
}

impl Layer {
    /// The parameters of the layer are nodes of a graph of `len` nodes.
    pub open spec fn wf(&self, len: int) -> bool {
        forall|k: int| 0 <= k < self.neurons@.len() ==> (#[trigger] self.neurons@[k]).wf(len)
    }

    /// A layer of `num_outputs` neurons with `num_inputs` weights each; adds
    /// their parameters to the graph as fresh leaves, neuron after neuron.
    pub fn new(g: &mut Graph, num_inputs: usize, num_outputs: usize) -> (r: Layer)
        requires
            old(g).wf(),
            old(g)@.len() + num_outputs * (num_inputs + 1) <= usize::MAX,
        ensures
            final(g).wf(),
            final(g)@ == old(g)@ + leaves(num_outputs * (num_inputs + 1)),
            layer_params(r.neurons@) == ids_from(old(g)@.len() as int, num_outputs * (num_inputs + 1)),
            r.neurons@.len() == num_outputs,
            takes(r.neurons@, num_inputs as int),
    {
        let ghost base = old(g)@.len() as int;
        let ghost per = num_inputs + 1;
        let mut neurons: Vec<Neuron> = Vec::new();
        let mut k: usize = 0;
        while k < num_outputs
            invariant
                g.wf(),
                k <= num_outputs,
                per == num_inputs + 1,
                base + num_outputs * per <= usize::MAX,
                g@ == old(g)@ + leaves(k * per),
                g@.len() == base + k * per,
                layer_params(neurons@) == ids_from(base, k * per),
                neurons@.len() == k,
                takes(neurons@, num_inputs as int),
            decreases num_outputs - k,
        {
            proof {
                assert((k + 1) * per == k * per + per) by (nonlinear_arith);
                assert((k + 1) * per <= num_outputs * per) by (nonlinear_arith)
                    requires k + 1 <= num_outputs, per >= 0;
            }
            let n = Neuron::new(g, num_inputs);
            let ghost before = neurons@;
            neurons.push(n);
            proof {
                lemma_leaves_concat(k * per, per);
                lemma_ids_concat(base, k * per, per);
                assert(neurons@.drop_last() == before);
            }
            k += 1;
        }
        Layer { neurons }
    }

    /// The parameters of the layer, neuron after neuron.
    pub fn parameters(&self) -> (r: Vec<usize>)
        ensures
            r@ == layer_params(self.neurons@),
    {
        let mut r: Vec<usize> = Vec::new();
        let mut k: usize = 0;
        while k < self.neurons.len()
            invariant
                k <= self.neurons@.len(),
                r@ == layer_params(self.neurons@.take(k as int)),
            decreases self.neurons@.len() - k,
        {
            let mut p = self.neurons[k].parameters();
            proof {
                assert(self.neurons@.take(k + 1).drop_last() == self.neurons@.take(k as int));
            }
            r.append(&mut p);
            k += 1;
        }
        assert(self.neurons@.take(k as int) == self.neurons@);
        r
    }

    /// Applies every neuron to the same inputs, in order, and returns their
    /// outputs; fails, leaving the graph as it was, when some neuron does not
    /// take as many inputs as given, and names the first such neuron's count.
    pub fn forward(&self, g: &mut Graph, x: &[usize]) -> (r: Result<Vec<usize>, ShapeError>)
        requires
            old(g).wf(),
            self.wf(old(g)@.len() as int),
            ids_below(x@, old(g)@.len() as int),
            old(g)@.len() + self.neurons@.len() * (2 * x@.len() + 1) <= usize::MAX,
        ensures
            final(g).wf(),
            takes(self.neurons@, x@.len() as int) ==> {
                &&& r is Ok
                &&& (final(g)@, r->Ok_0@) == layer_run(old(g)@, self.neurons@, x@)
                &&& final(g)@.len() == old(g)@.len() + self.neurons@.len() * (2 * x@.len() + 1)
                &&& r->Ok_0@.len() == self.neurons@.len()
                &&& forall|k: int| 0 <= k < r->Ok_0@.len()
                    ==> old(g)@.len() <= #[trigger] r->Ok_0@[k] < final(g)@.len() && final(g)@[r->Ok_0@[k] as int] is TanH
            },
            !takes(self.neurons@, x@.len() as int) ==> {
                &&& final(g)@ == old(g)@
                &&& r is Err
                &&& exists|j: int| 0 <= j < self.neurons@.len()
                    && takes(self.neurons@.take(j), x@.len() as int)
                    && (#[trigger] self.neurons@[j]).w@.len() != x@.len()
                    && r->Err_0 == (ShapeError { expected: self.neurons@[j].w@.len() as usize, found: x@.len() as usize })
            },
    {
        let mut j: usize = 0;
        while j < self.neurons.len()
            invariant
                g.wf(),
                g@ == old(g)@,
                j <= self.neurons@.len(),
                takes(self.neurons@.take(j as int), x@.len() as int),
            decreases self.neurons@.len() - j,
        {
            if self.neurons[j].w.len() != x.len() {
                assert(!takes(self.neurons@, x@.len() as int));
                return Err(ShapeError { expected: self.neurons[j].w.len(), found: x.len() });
            }
            assert forall|i: int| 0 <= i < j + 1 implies (#[trigger] self.neurons@.take(j + 1)[i]).w@.len() == x@.len() by {
                if i < j {
                    assert(self.neurons@.take(j + 1)[i] == self.neurons@.take(j as int)[i]);
                }
            }
            j += 1;
        }
        assert(self.neurons@.take(j as int) == self.neurons@);
        let ghost base = old(g)@.len() as int;
        let ghost per = 2 * x@.len() + 1;
        let mut outs: Vec<usize> = Vec::new();
        let mut k: usize = 0;
        while k < self.neurons.len()
            invariant
                g.wf(),
                k <= self.neurons@.len(),
                per == 2 * x@.len() + 1,
                self.wf(base),
                takes(self.neurons@, x@.len() as int),
                ids_below(x@, base),
                base + self.neurons@.len() * per <= usize::MAX,
                (g@, outs@) == layer_run(old(g)@, self.neurons@.take(k as int), x@),
                g@.len() == base + k * per,
                outs@.len() == k,
                forall|m: int| 0 <= m < outs@.len() ==> base <= #[trigger] outs@[m] < g@.len() && g@[outs@[m] as int] is TanH,
            decreases self.neurons@.len() - k,
        {
            proof {
                assert((k + 1) * per == k * per + per) by (nonlinear_arith);
                assert((k + 1) * per <= self.neurons@.len() * per) by (nonlinear_arith)
                    requires k + 1 <= self.neurons@.len(), per >= 0;
                assert(self.neurons@[k as int].wf(base));
                assert forall|m: int| 0 <= m < self.neurons@[k as int].params().len()
                    implies #[trigger] self.neurons@[k as int].params()[m] < g@.len() by {
                    assert(self.neurons@[k as int].params()[m] < base);
                }
                assert forall|m: int| 0 <= m < x@.len() implies #[trigger] x@[m] < g@.len() by {
                    assert(x@[m] < base);
                }
                assert(self.neurons@.take(k + 1).drop_last() == self.neurons@.take(k as int));
            }
            let ghost prev = g@;
            let o = self.neurons[k].forward(g, x);
            match o {
                Ok(id) => {
                    proof {
                        assert forall|m: int| 0 <= m < outs@.len() implies g@[outs@[m] as int] == prev[outs@[m] as int] by {
                            assert(g@ == prev + neuron_ops(prev.len() as int, x@, self.neurons@[k as int].w@, self.neurons@[k as int].b));
                        }
                    }
                    outs.push(id);
                },
                Err(e) => {
                    return Err(e);
                },
            }
            k += 1;
        }
        assert(self.neurons@.take(k as int) == self.neurons@);
        Ok(outs)
    }
}

/// The number of parameters of a perceptron whose layer sizes are `sizes`
/// (the input size first): each neuron of a layer has one weight per input of
/// that layer and a bias.
pub open spec fn param_count(sizes: Seq<usize>) -> int
    decreases sizes.len(),
{
    if sizes.len() < 2 {
        0
    } else {
        param_count(sizes.drop_last()) + sizes.last() * (sizes[sizes.len() - 2] + 1)
    }
}

/// The number of nodes that a forward pass through layers of sizes `sizes`
/// adds to the graph: two per weight and one per neuron.
pub open spec fn forward_count(sizes: Seq<usize>) -> int
    decreases sizes.len(),
{
    if sizes.len() < 2 {
        0
    } else {
        forward_count(sizes.drop_last()) + sizes.last() * (2 * sizes[sizes.len() - 2] + 1)
    }
}

/// The parameters of `layers`, layer after layer.
pub open spec fn mlp_params(layers: Seq<Layer>) -> Seq<usize>
    decreases layers.len(),
{
    if layers.len() == 0 {
        Seq::empty()
    } else {
        mlp_params(layers.drop_last()) + layer_params(layers.last().neurons@)
    }
}

/// Layer `i` of `layers` has `sizes[i + 1]` neurons of `sizes[i]` weights each.
pub open spec fn shaped(layers: Seq<Layer>, sizes: Seq<usize>) -> bool {
    &&& sizes.len() == layers.len() + 1
    &&& forall|i: int| 0 <= i < layers.len() ==> {
        &&& (#[trigger] layers[i]).neurons@.len() == sizes[i + 1]
        &&& takes(layers[i].neurons@, sizes[i] as int)
    }
}

/// The graph, and the output nodes, after `layers` are applied in turn to
/// the inputs `x`, each layer's outputs being the next one's inputs.
pub open spec fn mlp_run(ops: Seq<Op>, layers: Seq<Layer>, x: Seq<usize>) -> (Seq<Op>, Seq<usize>)
    decreases layers.len(),
{
    if layers.len() == 0 {
        (ops, x)
    } else {
        let (o, y) = mlp_run(ops, layers.drop_last(), x);
        layer_run(o, layers.last().neurons@, y)
    }
}

proof fn lemma_counts_grow(sizes: Seq<usize>, i: int, j: int)
    requires
        1 <= i <= j <= sizes.len(),
    ensures
        forward_count(sizes.take(i)) <= forward_count(sizes.take(j)),
    decreases j - i,
{
    if i < j {
        lemma_counts_grow(sizes, i, j - 1);
        let t = sizes.take(j);
        assert(t.drop_last() == sizes.take(j - 1));
        assert(t.last() * (2 * t[t.len() - 2] + 1) >= 0) by (nonlinear_arith);
    }
}

proof fn lemma_layer_wf_grows(layer: Layer, a: int, b: int)
    requires
        layer.wf(a),
        a <= b,
    ensures
        layer.wf(b),
{
    assert forall|k: int| 0 <= k < layer.neurons@.len() implies (#[trigger] layer.neurons@[k]).wf(b) by {
        assert(layer.neurons@[k].wf(a));
        assert forall|m: int| 0 <= m < layer.neurons@[k].params().len()
            implies #[trigger] layer.neurons@[k].params()[m] < b by {
            assert(layer.neurons@[k].params()[m] < a);
        }
    }
}

proof fn lemma_layer_params_below(neurons: Seq<Neuron>, len: int)
    requires
        ids_below(layer_params(neurons), len),
    ensures
        forall|k: int| 0 <= k < neurons.len() ==> (#[trigger] neurons[k]).wf(len),
    decreases neurons.len(),
{
    if neurons.len() > 0 {
        let init = neurons.drop_last();
        let front = layer_params(init);
        let back = neurons.last().params();
        assert(layer_params(neurons) == front + back);
        assert forall|m: int| 0 <= m < front.len() implies #[trigger] front[m] < len by {
            assert(layer_params(neurons)[m] == front[m]);
        }
        lemma_layer_params_below(init, len);
        assert forall|m: int| 0 <= m < back.len() implies #[trigger] back[m] < len by {
            assert(layer_params(neurons)[front.len() + m] == back[m]);
        }
        assert forall|k: int| 0 <= k < neurons.len() implies (#[trigger] neurons[k]).wf(len) by {
            if k < init.len() {
                assert(neurons[k] == init[k]);
            }
        }
    }
}

/// A feed-forward network: layers applied one after the other.
pub struct MultiLayerPerceptron {
    pub layers: Vec<Layer>,
    /// The input size followed by each layer's output size.
    pub sizes: Vec<usize>,
}

impl MultiLayerPerceptron {
    /// The layers match the recorded sizes and their parameters are nodes of
    /// a graph of `len` nodes.
    pub open spec fn wf(&self, len: int) -> bool {
        &&& shaped(self.layers@, self.sizes@)
        &&& forall|i: int| 0 <= i < self.layers@.len() ==> (#[trigger] self.layers@[i]).wf(len)
    }

    /// A network taking `num_inputs` inputs, with one layer per entry of
    /// `layer_sizes` producing that many outputs; adds every parameter to the
    /// graph as a fresh leaf, layer after layer.
    pub fn new(g: &mut Graph, num_inputs: usize, layer_sizes: &[usize]) -> (r: MultiLayerPerceptron)
        requires
            old(g).wf(),
            old(g)@.len() + param_count(seq![num_inputs] + layer_sizes@) <= usize::MAX,
        ensures
            final(g).wf(),
            r.sizes@ == seq![num_inputs] + layer_sizes@,
            r.wf(final(g)@.len() as int),
            final(g)@ == old(g)@ + leaves(param_count(r.sizes@)),
            mlp_params(r.layers@) == ids_from(old(g)@.len() as int, param_count(r.sizes@)),
    {
        let ghost base = old(g)@.len() as int;
        let mut sizes: Vec<usize> = Vec::new();
        sizes.push(num_inputs);
        let mut i: usize = 0;
        while i < layer_sizes.len()
            invariant
                i <= layer_sizes@.len(),
                sizes@ == seq![num_inputs] + layer_sizes@.take(i as int),
            decreases layer_sizes@.len() - i,
        {
            sizes.push(layer_sizes[i]);
            i += 1;
            assert(sizes@ == seq![num_inputs] + layer_sizes@.take(i as int));
        }
        assert(layer_sizes@.take(i as int) == layer_sizes@);
        let mut layers: Vec<Layer> = Vec::new();
        let mut l: usize = 0;
        proof {
            lemma_param_count_step(sizes@, 0);
        }
        while l < layer_sizes.len()
            invariant
                g.wf(),
                sizes@ == seq![num_inputs] + layer_sizes@,
                base + param_count(sizes@) <= usize::MAX,
                l <= layer_sizes@.len(),
                shaped(layers@, sizes@.take(l + 1)),
                forall|k: int| 0 <= k < layers@.len() ==> (#[trigger] layers@[k]).wf(g@.len() as int),
                g@ == old(g)@ + leaves(param_count(sizes@.take(l + 1))),
                g@.len() == base + param_count(sizes@.take(l + 1)),
                mlp_params(layers@) == ids_from(base, param_count(sizes@.take(l + 1))),
            decreases layer_sizes@.len() - l,
        {
            let ghost done = param_count(sizes@.take(l + 1));
            let ghost more = sizes@[l + 1] * (sizes@[l as int] + 1);
            proof {
                lemma_param_count_step(sizes@, l as int);
            }
            let ghost prev_len = g@.len() as int;
            let layer = Layer::new(g, sizes[l], sizes[l + 1]);
            proof {
                lemma_leaves_concat(done, more);
                lemma_ids_concat(base, done, more);
                lemma_layer_params_below(layer.neurons@, g@.len() as int);
                assert forall|k: int| 0 <= k < layers@.len() implies (#[trigger] layers@[k]).wf(g@.len() as int) by {
                    lemma_layer_wf_grows(layers@[k], prev_len, g@.len() as int);
                }
                lemma_shaped_push(layers@, sizes@, l as int, layer);
            }
            let ghost before = layers@;
            layers.push(layer);
            proof {
                assert(layers@.drop_last() == before);
            }
            l += 1;
        }
        assert(sizes@.take(l + 1) == sizes@);
        MultiLayerPerceptron { layers, sizes }
    }

    /// The parameters of the network, layer after layer.
    pub fn parameters(&self) -> (r: Vec<usize>)
        ensures
            r@ == mlp_params(self.layers@),
    {
        let mut r: Vec<usize> = Vec::new();
        let mut k: usize = 0;
        while k < self.layers.len()
            invariant
                k <= self.layers@.len(),
                r@ == mlp_params(self.layers@.take(k as int)),
            decreases self.layers@.len() - k,
        {
            let mut p = self.layers[k].parameters();
            proof {
                assert(self.layers@.take(k + 1).drop_last() == self.layers@.take(k as int));
            }
            r.append(&mut p);
            k += 1;
        }
        assert(self.layers@.take(k as int) == self.layers@);
        r
    }

    /// Feeds the inputs through every layer in order, each layer's outputs
    /// being the next one's inputs, and returns the last layer's outputs;
    /// fails, leaving the graph as it was, when the number of inputs is not
    /// the network's input size.
    pub fn forward(&self, g: &mut Graph, x: &[usize]) -> (r: Result<Vec<usize>, ShapeError>)
        requires
            old(g).wf(),
            self.wf(old(g)@.len() as int),
            ids_below(x@, old(g)@.len() as int),
            old(g)@.len() + forward_count(self.sizes@) <= usize::MAX,
        ensures
            final(g).wf(),
            x@.len() == self.sizes@[0] ==> {
                &&& r is Ok
                &&& (final(g)@, r->Ok_0@) == mlp_run(old(g)@, self.layers@, x@)
                &&& final(g)@.len() == old(g)@.len() + forward_count(self.sizes@)
                &&& r->Ok_0@.len() == self.sizes@.last()
                &&& self.layers@.len() > 0 ==> forall|k: int| 0 <= k < r->Ok_0@.len()
                    ==> final(g)@[#[trigger] r->Ok_0@[k] as int] is TanH
            },
            x@.len() != self.sizes@[0] ==> {
                &&& final(g)@ == old(g)@
                &&& r == Err::<Vec<usize>, ShapeError>(ShapeError { expected: self.sizes@[0], found: x@.len() as usize })
            },
    {
        if x.len() != self.sizes[0] {
            return Err(ShapeError { expected: self.sizes[0], found: x.len() });
        }
        let ghost base = old(g)@.len() as int;
        let ghost sizes = self.sizes@;
        let mut cur = vstd::slice::slice_to_vec(x);
        let mut l: usize = 0;
        proof {
            assert(sizes.take(1).drop_last().len() == 0);
            assert(self.layers@.take(0) == Seq::<Layer>::empty());
        }
        while l < self.layers.len()
            invariant
                g.wf(),
                sizes == self.sizes@,
                self.wf(base),
                base + forward_count(sizes) <= usize::MAX,
                l <= self.layers@.len(),
                (g@, cur@) == mlp_run(old(g)@, self.layers@.take(l as int), x@),
                g@.len() == base + forward_count(sizes.take(l + 1)),
                base <= g@.len(),
                cur@.len() == sizes[l as int],
                ids_below(cur@, g@.len() as int),
                l > 0 ==> forall|k: int| 0 <= k < cur@.len() ==> g@[#[trigger] cur@[k] as int] is TanH,
            decreases self.layers@.len() - l,
        {
            proof {
                lemma_forward_count_step(sizes, l as int);
                lemma_layer_wf_grows(self.layers@[l as int], base, g@.len() as int);
                assert(self.layers@.take(l + 1).drop_last() == self.layers@.take(l as int));
            }
            let next = self.layers[l].forward(g, &cur);
            match next {
                Ok(v) => {
                    cur = v;
                },
                Err(e) => {
                    return Err(e);
                },
            }
            l += 1;
        }
        assert(self.layers@.take(l as int) == self.layers@);
        assert(sizes.take(l + 1) == sizes);
        Ok(cur)
    }
}

proof fn lemma_param_count_step(sizes: Seq<usize>, l: int)
    requires
        0 <= l,
        l + 1 <= sizes.len(),
    ensures
        param_count(sizes.take(l + 1)) >= 0,
        l + 2 <= sizes.len() ==> {
            &&& param_count(sizes.take(l + 2)) == param_count(sizes.take(l + 1)) + sizes[l + 1] * (sizes[l] + 1)
            &&& sizes[l + 1] * (sizes[l] + 1) >= 0
            &&& param_count(sizes.take(l + 2)) <= param_count(sizes)
        },
{
    lemma_param_count_grows(sizes, 1, l + 1);
    assert(sizes.take(1).drop_last().len() == 0);
    if l + 2 <= sizes.len() {
        let t = sizes.take(l + 2);
        assert(t.drop_last() == sizes.take(l + 1));
        assert(sizes[l + 1] * (sizes[l] + 1) >= 0) by (nonlinear_arith);
        lemma_param_count_grows(sizes, l + 2, sizes.len() as int);
        assert(sizes.take(sizes.len() as int) == sizes);
    }
}

proof fn lemma_forward_count_step(sizes: Seq<usize>, l: int)
    requires
        0 <= l,
        l + 2 <= sizes.len(),
    ensures
        forward_count(sizes.take(l + 2)) == forward_count(sizes.take(l + 1)) + sizes[l + 1] * (2 * sizes[l] + 1),
        forward_count(sizes.take(l + 2)) <= forward_count(sizes),
{
    let t = sizes.take(l + 2);
    assert(t.drop_last() == sizes.take(l + 1));
    lemma_counts_grow(sizes, l + 2, sizes.len() as int);
    assert(sizes.take(sizes.len() as int) == sizes);
}

proof fn lemma_shaped_push(layers: Seq<Layer>, sizes: Seq<usize>, l: int, layer: Layer)
    requires
        0 <= l,
        l + 2 <= sizes.len(),
        shaped(layers, sizes.take(l + 1)),
        layer.neurons@.len() == sizes[l + 1],
        takes(layer.neurons@, sizes[l] as int),
    ensures
        shaped(layers.push(layer), sizes.take(l + 2)),
{
    let t = sizes.take(l + 2);
    let ls = layers.push(layer);
    assert forall|i: int| 0 <= i < ls.len() implies {
        &&& (#[trigger] ls[i]).neurons@.len() == t[i + 1]
        &&& takes(ls[i].neurons@, t[i] as int)
    } by {
        if i < layers.len() {
            assert(ls[i] == layers[i]);
            assert(sizes.take(l + 1)[i] == t[i]);
            assert(sizes.take(l + 1)[i + 1] == t[i + 1]);
        }
    }
}

proof fn lemma_param_count_grows(sizes: Seq<usize>, i: int, j: int)
    requires
        1 <= i <= j <= sizes.len(),
    ensures
        param_count(sizes.take(i)) <= param_count(sizes.take(j)),
    decreases j - i,
{
    if i < j {
        lemma_param_count_grows(sizes, i, j - 1);
        let t = sizes.take(j);
        assert(t.drop_last() == sizes.take(j - 1));
        assert(t.last() * (t[t.len() - 2] + 1) >= 0) by (nonlinear_arith);
    }
}

/// A layer of neurons with `n` weights each has `n + 1` parameters per neuron.
pub proof fn lemma_layer_param_count(neurons: Seq<Neuron>, n: int)
    requires
        takes(neurons, n),
    ensures
        layer_params(neurons).len() == neurons.len() * (n + 1),
    decreases neurons.len(),
{
    if neurons.len() > 0 {
        let init = neurons.drop_last();
        assert forall|k: int| 0 <= k < init.len() implies (#[trigger] init[k]).w@.len() == n by {
            assert(init[k] == neurons[k]);
        }
        lemma_layer_param_count(init, n);
        assert(neurons.last().w@.len() == n);
        assert(init.len() * (n + 1) + (n + 1) == neurons.len() * (n + 1)) by (nonlinear_arith)
            requires init.len() + 1 == neurons.len();
    }
}

/// A network whose layers match the sizes `sizes` has, over all its layers,
/// `(sizes[i] + 1) * sizes[i + 1]` parameters for each layer `i`.
pub proof fn lemma_parameter_count(layers: Seq<Layer>, sizes: Seq<usize>)
    requires
        shaped(layers, sizes),
    ensures
        mlp_params(layers).len() == param_count(sizes),
    decreases layers.len(),
{
    if layers.len() > 0 {
        let init = layers.drop_last();
        let sinit = sizes.drop_last();
        assert forall|i: int| 0 <= i < init.len() implies {
            &&& (#[trigger] init[i]).neurons@.len() == sinit[i + 1]
            &&& takes(init[i].neurons@, sinit[i] as int)
        } by {
            assert(init[i] == layers[i]);
        }
        lemma_parameter_count(init, sinit);
        let last = layers.len() - 1;
        assert(layers[last] == layers.last());
        lemma_layer_param_count(layers.last().neurons@, sizes[last] as int);
        assert(sizes.last() == sizes[last + 1]);
        assert(sizes[last + 1] * (sizes[last] + 1) == (sizes[last] + 1) * sizes[last + 1]) by (nonlinear_arith);
    }
}

} // verus!

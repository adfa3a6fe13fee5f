//! The parameter containers: neurons, layers and the multilayer
//! perceptron, composing graph nodes through the operator library and
//! exposing the trainable leaves.

use vstd::prelude::*;
use crate::scalar::Scalar;
use crate::scalar::SCALE;
use crate::scalar::add_s;
use crate::scalar::mul_s;
use crate::scalar::relu_s;
use crate::scalar::tanh_s;
use crate::scalar::unit_or_nan;
use crate::scalar::lemma_tanh_unit;
use crate::value::Graph;
use crate::value::Val;
use crate::value::Value;
use crate::value::Op;
use crate::value::sum_data;

verus! {

/// Relies on rand::random: one pseudo-random draw of the requested
/// type; nothing is assumed of the returned value.
pub assume_specification<T>[ rand::random::<T> ]() -> (r: T)
    where
        rand::distributions::Standard: rand::distributions::Distribution<T>,
;

/// A scalar of the parameter-initialization range: finite, at least
/// minus one and below one.
pub open spec fn unit_range(s: Scalar) -> bool {
    match s {
        Scalar::Finite(v) => -SCALE <= v < SCALE,
        _ => false,
    }
}

/// A pseudo-random scalar in the initialization range.
fn rand_unit() -> (s: Scalar)
    ensures
        unit_range(s),
{
    let bits: u64 = rand::random();
    let m: u64 = bits % (2 * (SCALE as u64));
    let v: i64 = (m as i64) - SCALE;
    Scalar::Finite(v)
}

/// The data held by each listed node.
pub open spec fn data_seq(nodes: Seq<Value>, vs: Seq<Val>) -> Seq<Scalar> {
    vs.map_values(|v: Val| nodes[v.0 as int].data)
}

/// The fixed-point dot product of the listed weights' data with the
/// input data, folded left from zero as the fold node computes it.
pub open spec fn dot_d(nodes: Seq<Value>, ws: Seq<Val>, xd: Seq<Scalar>, k: int) -> Scalar
    decreases k,
{
    if k <= 0 {
        Scalar::Finite(0)
    } else {
        add_s(dot_d(nodes, ws, xd, k - 1), mul_s(nodes[ws[k - 1].0 as int].data, xd[k - 1]))
    }
}

/// The configured activation: rectification, then the tangent, as far
/// as each is switched on.
pub open spec fn act(p: Scalar, use_relu: bool, use_tanh: bool) -> Scalar {
    if use_relu && use_tanh {
        tanh_s(relu_s(p))
    } else if use_relu {
        relu_s(p)
    } else if use_tanh {
        tanh_s(p)
    } else {
        p
    }
}

/// One neuron: as many weight leaves as its fan-in, one bias leaf, and
/// an activation choice.
pub struct Neuron {
    /// The weight leaves, one per input.
    pub weights: Vec<Val>,
    /// The bias leaf.
    pub bias: Val,
    /// Whether the output is rectified.
    pub use_relu: bool,
    /// Whether the output goes through the hyperbolic tangent.
    pub use_tanh: bool,
}

/// Whether `p` is one of the neuron's trainable leaves.
pub open spec fn neuron_has_param(n: Neuron, p: Val) -> bool {
    n.weights@.contains(p) || n.bias == p
}

/// The neuron's output value on the given input data: the dot product
/// plus the bias, through the activation.
pub open spec fn neuron_eval(nodes: Seq<Value>, n: Neuron, xd: Seq<Scalar>) -> Scalar {
    act(
        add_s(dot_d(nodes, n.weights@, xd, n.weights@.len() as int), nodes[n.bias.0 as int].data),
        n.use_relu,
        n.use_tanh,
    )
}

/// The subgraph a neuron's forward pass appends to the arena `g0`,
/// yielding `g1`: one product node per input, the fold node over the
/// products, the bias addition, then the activation node or nodes the
/// flags call for. The result `v` is the last node appended, every
/// appended node carries zero gradient, and the child links run from
/// `v` down to every weight, every input and the bias, so a backward
/// pass from `v` reaches them all.
#[verifier::opaque]
pub open spec fn neuron_forward_shape(
    g0: Seq<Value>,
    g1: Seq<Value>,
    n: Neuron,
    xs: Seq<Val>,
    v: Val,
) -> bool {
    let base = g0.len() as int;
    let w = n.weights@.len() as int;
    let xd = data_seq(g0, xs);
    let relu_extra: int = if n.use_relu { 1 } else { 0 };
    let tanh_extra: int = if n.use_tanh { 1 } else { 0 };
    &&& xs.len() == w
    &&& g1.len() == base + w + 2 + relu_extra + tanh_extra
    &&& forall|j: int| 0 <= j < w ==> {
            &&& (#[trigger] g1[base + j]).operation == Op::Mul
            &&& g1[base + j].previous@ == seq![n.weights@[j], xs[j]]
            &&& g1[base + j].data == mul_s(g0[n.weights@[j].0 as int].data, xd[j])
            &&& g1[base + j].grad == Scalar::Finite(0)
        }
    &&& g1[base + w].operation == Op::Sum
    &&& g1[base + w].previous@.len() == w
    &&& forall|j: int| 0 <= j < w
            ==> (#[trigger] g1[base + w].previous@[j]) == Val((base + j) as usize)
    &&& g1[base + w].data == dot_d(g0, n.weights@, xd, w)
    &&& g1[base + w].grad == Scalar::Finite(0)
    &&& g1[base + w + 1].operation == Op::Add
    &&& g1[base + w + 1].previous@ == seq![Val((base + w) as usize), n.bias]
    &&& g1[base + w + 1].data == add_s(dot_d(g0, n.weights@, xd, w), g0[n.bias.0 as int].data)
    &&& g1[base + w + 1].grad == Scalar::Finite(0)
    &&& (n.use_relu ==> {
            &&& g1[base + w + 2].operation == Op::Relu
            &&& g1[base + w + 2].previous@ == seq![Val((base + w + 1) as usize)]
            &&& g1[base + w + 2].data == relu_s(g1[base + w + 1].data)
            &&& g1[base + w + 2].grad == Scalar::Finite(0)
        })
    &&& (n.use_tanh ==> {
            &&& g1[base + w + 2 + relu_extra].operation == Op::Tanh
            &&& g1[base + w + 2 + relu_extra].previous@
                == seq![Val((base + w + 1 + relu_extra) as usize)]
            &&& g1[base + w + 2 + relu_extra].data == tanh_s(g1[base + w + 1 + relu_extra].data)
            &&& g1[base + w + 2 + relu_extra].grad == Scalar::Finite(0)
        })
    &&& v.0 as int == g1.len() - 1
}

impl Neuron {
    /// The neuron's parameter handles all lie inside the arena.
    pub open spec fn wf_in(&self, nodes: Seq<Value>) -> bool {
        &&& forall|j: int| 0 <= j < self.weights@.len()
                ==> (#[trigger] self.weights@[j]).0 < nodes.len()
        &&& self.bias.0 < nodes.len()
    }

    /// The neuron's fan-in.
    pub open spec fn fan_in(&self) -> nat {
        self.weights@.len()
    }

    /// The activation switches, for stating what composite layers do.
    pub open spec fn activation(&self) -> (bool, bool) {
        (self.use_relu, self.use_tanh)
    }

    /// A fresh neuron: `in_ch` weight leaves and one bias leaf are
    /// appended to the graph, each holding a pseudo-random value in
    /// the initialization range and zero gradient.
    pub fn new(g: &mut Graph, in_ch: u32, use_relu: bool, use_tanh: bool) -> (n: Neuron)
        requires
            old(g).wf(),
        ensures
            final(g).wf(),
            final(g)@.len() == old(g)@.len() + in_ch + 1,
            forall|i: int| 0 <= i < old(g)@.len() ==> final(g)@[i] == old(g)@[i],
            n.wf_in(final(g)@),
            n.fan_in() == in_ch,
            n.activation() == (use_relu, use_tanh),
            forall|i: int| old(g)@.len() <= i < final(g)@.len() ==> {
                &&& (#[trigger] final(g)@[i]).operation == Op::Leaf
                &&& final(g)@[i].grad == Scalar::Finite(0)
                &&& unit_range(final(g)@[i].data)
            },
            forall|j: int| 0 <= j < in_ch
                ==> (#[trigger] n.weights@[j]).0 == old(g)@.len() + j,
            n.bias.0 == old(g)@.len() + in_ch,
            n.weights@.push(n.bias).no_duplicates(),
    {
        let mut weights: Vec<Val> = Vec::new();
        let mut j: usize = 0;
        while j < in_ch as usize
            invariant
                j <= in_ch as usize,
                g.wf(),
                g@.len() == old(g)@.len() + j,
                forall|i: int| 0 <= i < old(g)@.len() ==> g@[i] == old(g)@[i],
                weights@.len() == j,
                forall|t: int| 0 <= t < j
                    ==> (#[trigger] weights@[t]).0 == old(g)@.len() + t,
                forall|i: int| old(g)@.len() <= i < g@.len() ==> {
                    &&& (#[trigger] g@[i]).operation == Op::Leaf
                    &&& g@[i].grad == Scalar::Finite(0)
                    &&& unit_range(g@[i].data)
                },
            decreases in_ch as usize - j,
        {
            let w = g.leaf(rand_unit());
            weights.push(w);
            j = j + 1;
        }
        let bias = g.leaf(rand_unit());
        let n = Neuron { weights, bias, use_relu, use_tanh };
        proof {
            let ps = n.weights@.push(n.bias);
            assert forall|t1: int, t2: int| 0 <= t1 < t2 < ps.len()
                implies ps[t1] != ps[t2] by {
                assert(ps[t1].0 == old(g)@.len() + t1);
                assert(ps[t2].0 == old(g)@.len() + t2);
            }
        }
        n
    }

    /// The weighted sum of the inputs plus the bias, through the
    /// configured activation. Succeeds exactly when the input width
    /// matches the fan-in; existing nodes are untouched.
    pub fn forward(&self, g: &mut Graph, x: &Vec<Val>) -> (r: Option<Val>)
        requires
            old(g).wf(),
            self.wf_in(old(g)@),
            forall|j: int| 0 <= j < x@.len() ==> (#[trigger] x@[j]).0 < old(g)@.len(),
        ensures
            final(g).wf(),
            final(g)@.len() >= old(g)@.len(),
            forall|i: int| 0 <= i < old(g)@.len() ==> final(g)@[i] == old(g)@[i],
            r is Some <==> x@.len() == self.fan_in(),
            r is None ==> final(g)@ == old(g)@,
            r matches Some(v) ==> v.0 < final(g)@.len()
                && final(g)@[v.0 as int].data
                    == neuron_eval(old(g)@, *self, data_seq(old(g)@, x@))
                && neuron_forward_shape(old(g)@, final(g)@, *self, x@, v),
    {
        if x.len() != self.weights.len() {
            return None;
        }
        let ghost base = old(g)@.len() as int;
        let ghost xd = data_seq(old(g)@, x@);
        let n = self.weights.len();
        let mut prods: Vec<Val> = Vec::new();
        let mut k: usize = 0;
        while k < n
            invariant
                k <= n,
                n == self.weights@.len(),
                n == x@.len(),
                g.wf(),
                base == old(g)@.len() as int,
                g@.len() == base + k,
                forall|i: int| 0 <= i < old(g)@.len() ==> g@[i] == old(g)@[i],
                self.wf_in(old(g)@),
                forall|j: int| 0 <= j < x@.len() ==> (#[trigger] x@[j]).0 < old(g)@.len(),
                xd == data_seq(old(g)@, x@),
                prods@.len() == k,
                forall|t: int| 0 <= t < k ==> (#[trigger] prods@[t]) == Val((base + t) as usize),
                forall|t: int| 0 <= t < k ==> {
                    &&& (#[trigger] g@[base + t]).operation == Op::Mul
                    &&& g@[base + t].previous@ == seq![self.weights@[t], x@[t]]
                    &&& g@[base + t].data
                        == mul_s(old(g)@[self.weights@[t].0 as int].data, xd[t])
                    &&& g@[base + t].grad == Scalar::Finite(0)
                },
            decreases n - k,
        {
            let w = self.weights[k];
            let xi = x[k];
            let m = w.mul(g, xi);
            prods.push(m);
            proof {
                assert(xd[k as int] == old(g)@[x@[k as int].0 as int].data);
                assert(m == Val((base + k) as usize));
            }
            k = k + 1;
        }
        let ghost gpre = g@;
        let s = Val::sum(g, &prods);
        proof {
            lemma_sum_is_dot(gpre, old(g)@, prods@, self.weights@, xd, n as int);
            assert(s == Val((base + n) as usize));
        }
        let ghost gsum = g@;
        let pre = s.add(g, self.bias);
        proof {
            assert(pre == Val((base + n + 1) as usize));
        }
        let ghost gadd = g@;
        let mut out = pre;
        if self.use_relu {
            out = out.relu(g);
        }
        let ghost grelu = g@;
        if self.use_tanh {
            out = out.tanh(g);
        }
        proof {
            reveal(neuron_forward_shape);
            let g1 = g@;
            let w = n as int;
            let relu_extra: int = if self.use_relu { 1 } else { 0 };
            let tanh_extra: int = if self.use_tanh { 1 } else { 0 };
            assert(g1.len() == base + w + 2 + relu_extra + tanh_extra);
            assert forall|j: int| 0 <= j < w implies {
                &&& (#[trigger] g1[base + j]).operation == Op::Mul
                &&& g1[base + j].previous@ == seq![self.weights@[j], x@[j]]
                &&& g1[base + j].data
                    == mul_s(old(g)@[self.weights@[j].0 as int].data, xd[j])
                &&& g1[base + j].grad == Scalar::Finite(0)
            } by {
                assert(g1[base + j] == gpre[base + j]);
            }
            assert(g1[base + w] == gsum[base + w]);
            assert(g1[base + w + 1] == gadd[base + w + 1]);
            if self.use_relu {
                assert(g1[base + w + 2] == grelu[base + w + 2]);
                assert(grelu[base + w + 2].data == relu_s(gadd[base + w + 1].data));
            }
            if self.use_tanh {
                assert(g1[base + w + 2 + relu_extra].data
                    == tanh_s(g1[base + w + 1 + relu_extra].data));
            }
            assert(neuron_forward_shape(old(g)@, g1, *self, x@, out));
        }
        Some(out)
    }

    /// All trainable leaves, weights first, bias last.
    pub fn parameters(&self) -> (ps: Vec<Val>)
        ensures
            ps@ == self.weights@.push(self.bias),
    {
        let mut ps: Vec<Val> = Vec::new();
        let n = self.weights.len();
        let mut k: usize = 0;
        while k < n
            invariant
                k <= n,
                n == self.weights@.len(),
                ps@ == self.weights@.take(k as int),
            decreases n - k,
        {
            ps.push(self.weights[k]);
            proof {
                assert(ps@ =~= self.weights@.take((k + 1) as int));
            }
            k = k + 1;
        }
        proof {
            assert(ps@ =~= self.weights@);
        }
        ps.push(self.bias);
        ps
    }

    /// Reset every owned leaf's gradient to exactly zero, whatever it
    /// held; no other node changes.
    pub fn zero_grad(&self, g: &mut Graph)
        requires
            old(g).wf(),
            self.wf_in(old(g)@),
        ensures
            final(g).wf(),
            final(g)@.len() == old(g)@.len(),
            forall|i: int| 0 <= i < old(g)@.len() ==> {
                &&& (#[trigger] final(g)@[i]).data == old(g)@[i].data
                &&& final(g)@[i].operation == old(g)@[i].operation
                &&& final(g)@[i].previous == old(g)@[i].previous
            },
            forall|i: usize| (i as int) < old(g)@.len()
                ==> (#[trigger] final(g)@[i as int]).grad == (if neuron_has_param(*self, Val(i)) {
                    Scalar::Finite(0)
                } else {
                    old(g)@[i as int].grad
                }),
    {
        let n = self.weights.len();
        let mut k: usize = 0;
        while k < n
            invariant
                k <= n,
                n == self.weights@.len(),
                g.wf(),
                self.wf_in(g@),
                g@.len() == old(g)@.len(),
                forall|i: int| 0 <= i < old(g)@.len() ==> {
                    &&& (#[trigger] g@[i]).data == old(g)@[i].data
                    &&& g@[i].operation == old(g)@[i].operation
                    &&& g@[i].previous == old(g)@[i].previous
                },
                self.wf_in(old(g)@),
                forall|i: usize| (i as int) < old(g)@.len()
                    ==> (#[trigger] g@[i as int]).grad
                        == (if self.weights@.take(k as int).contains(Val(i)) {
                            Scalar::Finite(0)
                        } else {
                            old(g)@[i as int].grad
                        }),
            decreases n - k,
        {
            let w = self.weights[k];
            let ghost gk = g@;
            g.set_grad(w, Scalar::Finite(0));
            proof {
                assert forall|i: usize| (i as int) < old(g)@.len()
                    implies (#[trigger] g@[i as int]).grad
                        == (if self.weights@.take((k + 1) as int).contains(Val(i)) {
                            Scalar::Finite(0)
                        } else {
                            old(g)@[i as int].grad
                        }) by {
                    let pre = self.weights@.take(k as int);
                    let post = self.weights@.take((k + 1) as int);
                    assert(post =~= pre.push(self.weights@[k as int]));
                    assert(gk[i as int].grad == (if pre.contains(Val(i)) {
                        Scalar::Finite(0)
                    } else {
                        old(g)@[i as int].grad
                    }));
                    if post.contains(Val(i)) {
                        if Val(i) != self.weights@[k as int] {
                            let u = choose|u: int| 0 <= u < post.len() && post[u] == Val(i);
                            assert(pre[u] == Val(i));
                            assert(pre.contains(Val(i)));
                            assert(i != w.0);
                        }
                    } else {
                        assert(!pre.contains(Val(i)));
                        assert(post[k as int] == self.weights@[k as int]);
                        assert(post.contains(self.weights@[k as int]));
                        assert(Val(i) != self.weights@[k as int]);
                        assert(i != w.0);
                    }
                }
            }
            k = k + 1;
        }
        g.set_grad(self.bias, Scalar::Finite(0));
        proof {
            assert forall|i: usize| (i as int) < old(g)@.len()
                implies (#[trigger] g@[i as int]).grad
                    == (if neuron_has_param(*self, Val(i)) {
                        Scalar::Finite(0)
                    } else {
                        old(g)@[i as int].grad
                    }) by {
                assert(self.weights@.take(n as int) =~= self.weights@);
            }
        }
    }
}

/// The dot product reads only the weights' nodes, so it is unchanged
/// when the arena merely grows.
proof fn lemma_dot_stable(n1: Seq<Value>, n2: Seq<Value>, ws: Seq<Val>, xd: Seq<Scalar>, k: int)
    requires
        0 <= k <= ws.len(),
        n1.len() <= n2.len(),
        forall|t: int| 0 <= t < ws.len() ==> (#[trigger] ws[t]).0 < n1.len(),
        forall|i: int| 0 <= i < n1.len() ==> (#[trigger] n2[i]).data == n1[i].data,
    ensures
        dot_d(n2, ws, xd, k) == dot_d(n1, ws, xd, k),
    decreases k,
{
    if k > 0 {
        lemma_dot_stable(n1, n2, ws, xd, k - 1);
    }
}

/// A neuron's output value is unchanged when the arena merely grows.
proof fn lemma_neuron_eval_stable(n1: Seq<Value>, n2: Seq<Value>, n: Neuron, xd: Seq<Scalar>)
    requires
        n.wf_in(n1),
        n1.len() <= n2.len(),
        forall|i: int| 0 <= i < n1.len() ==> (#[trigger] n2[i]).data == n1[i].data,
    ensures
        neuron_eval(n2, n, xd) == neuron_eval(n1, n, xd),
{
    lemma_dot_stable(n1, n2, n.weights@, xd, n.weights@.len() as int);
}

/// The fold node over the product nodes computes exactly the dot
/// product of the weights' data with the input data.
proof fn lemma_sum_is_dot(
    cur: Seq<Value>,
    base: Seq<Value>,
    prods: Seq<Val>,
    ws: Seq<Val>,
    xd: Seq<Scalar>,
    k: int,
)
    requires
        0 <= k <= prods.len(),
        k <= ws.len(),
        forall|t: int| 0 <= t < prods.len() ==> (#[trigger] prods[t]).0 < cur.len(),
        forall|t: int| 0 <= t < ws.len() ==> (#[trigger] ws[t]).0 < base.len(),
        base.len() <= cur.len(),
        forall|i: int| 0 <= i < base.len() ==> (#[trigger] cur[i]).data == base[i].data,
        forall|t: int| 0 <= t < prods.len() ==> (#[trigger] cur[prods[t].0 as int]).data
            == mul_s(base[ws[t].0 as int].data, xd[t]),
    ensures
        sum_data(cur, prods, k) == dot_d(base, ws, xd, k),
    decreases k,
{
    if k > 0 {
        lemma_sum_is_dot(cur, base, prods, ws, xd, k - 1);
    }
}

/// A layer: several neurons sharing one input width.
pub struct Layer {
    /// The neurons, in output order.
    pub neurons: Vec<Neuron>,
}

/// Whether `p` is a parameter of one of the layer's neurons.
pub open spec fn layer_has_param(l: Layer, p: Val) -> bool {
    exists|j: int| 0 <= j < l.neurons@.len() && neuron_has_param(#[trigger] l.neurons@[j], p)
}

/// The data of the first `k` neurons' outputs on the given input data.
pub open spec fn layer_eval(nodes: Seq<Value>, neurons: Seq<Neuron>, xd: Seq<Scalar>, k: int)
    -> Seq<Scalar>
    decreases k,
{
    if k <= 0 {
        Seq::empty()
    } else {
        layer_eval(nodes, neurons, xd, k - 1).push(neuron_eval(nodes, neurons[k - 1], xd))
    }
}

/// The trainable leaves of the first `k` neurons, in neuron order,
/// weights before bias within each neuron.
pub open spec fn layer_params(neurons: Seq<Neuron>, k: int) -> Seq<Val>
    decreases k,
{
    if k <= 0 {
        Seq::empty()
    } else {
        layer_params(neurons, k - 1) + neurons[k - 1].weights@.push(neurons[k - 1].bias)
    }
}

/// The parameters of the first `k` neurons read only those neurons.
proof fn lemma_layer_params_prefix(n1: Seq<Neuron>, n2: Seq<Neuron>, k: int)
    requires
        0 <= k,
        forall|u: int| 0 <= u < k ==> n1[u] == n2[u],
    ensures
        layer_params(n1, k) == layer_params(n2, k),
    decreases k,
{
    if k > 0 {
        lemma_layer_params_prefix(n1, n2, k - 1);
    }
}

/// Joining two duplicate-free handle lists split by an index bound
/// yields a duplicate-free list, and membership splits.
proof fn lemma_concat_fresh(a: Seq<Val>, b: Seq<Val>, bound: int)
    requires
        a.no_duplicates(),
        b.no_duplicates(),
        forall|i: int| 0 <= i < a.len() ==> (#[trigger] a[i]).0 < bound,
        forall|i: int| 0 <= i < b.len() ==> (#[trigger] b[i]).0 >= bound,
    ensures
        (a + b).no_duplicates(),
        forall|p: Val| #[trigger] (a + b).contains(p) ==> a.contains(p) || b.contains(p),
{
    assert forall|t1: int, t2: int| 0 <= t1 < t2 < (a + b).len()
        implies (a + b)[t1] != (a + b)[t2] by {
        if t2 < a.len() {
            assert((a + b)[t1] == a[t1]);
            assert((a + b)[t2] == a[t2]);
        } else if t1 >= a.len() {
            assert((a + b)[t1] == b[t1 - a.len()]);
            assert((a + b)[t2] == b[t2 - a.len()]);
        } else {
            assert((a + b)[t1] == a[t1]);
            assert((a + b)[t2] == b[t2 - a.len()]);
        }
    }
    assert forall|p: Val| (a + b).contains(p) implies a.contains(p) || b.contains(p) by {
        let i = choose|i: int| 0 <= i < (a + b).len() && (a + b)[i] == p;
        if i < a.len() {
            assert(a[i] == p);
        } else {
            assert(b[i - a.len()] == p);
        }
    }
}

/// Each position of the layer's output is the matching neuron's value.
proof fn lemma_layer_eval_index(nodes: Seq<Value>, neurons: Seq<Neuron>, xd: Seq<Scalar>, k: int, t: int)
    requires
        0 <= t < k,
    ensures
        layer_eval(nodes, neurons, xd, k).len() == k,
        layer_eval(nodes, neurons, xd, k)[t] == neuron_eval(nodes, neurons[t], xd),
    decreases k,
{
    if k > 0 {
        if t < k - 1 {
            lemma_layer_eval_index(nodes, neurons, xd, k - 1, t);
        } else {
            lemma_layer_eval_len(nodes, neurons, xd, k - 1);
        }
    }
}

/// The layer's output has one entry per neuron.
proof fn lemma_layer_eval_len(nodes: Seq<Value>, neurons: Seq<Neuron>, xd: Seq<Scalar>, k: int)
    requires
        0 <= k,
    ensures
        layer_eval(nodes, neurons, xd, k).len() == k,
    decreases k,
{
    if k > 0 {
        lemma_layer_eval_len(nodes, neurons, xd, k - 1);
    }
}

/// A layer's output values are unchanged when the arena merely grows.
proof fn lemma_layer_eval_stable(n1: Seq<Value>, n2: Seq<Value>, l: Layer, xd: Seq<Scalar>, k: int)
    requires
        0 <= k <= l.neurons@.len(),
        l.wf_in(n1),
        n1.len() <= n2.len(),
        forall|i: int| 0 <= i < n1.len() ==> (#[trigger] n2[i]).data == n1[i].data,
    ensures
        layer_eval(n2, l.neurons@, xd, k) == layer_eval(n1, l.neurons@, xd, k),
    decreases k,
{
    if k > 0 {
        lemma_layer_eval_stable(n1, n2, l, xd, k - 1);
        assert(l.neurons@[k - 1].wf_in(n1));
        lemma_neuron_eval_stable(n1, n2, l.neurons@[k - 1], xd);
    }
}

/// How many nodes one neuron's forward block appends.
pub open spec fn neuron_block_len(n: Neuron) -> int {
    n.weights@.len() + 2
        + (if n.use_relu { 1int } else { 0int })
        + (if n.use_tanh { 1int } else { 0int })
}

/// Where neuron `t`'s forward block starts, the blocks being laid out
/// in neuron order from the end of the prior arena.
pub open spec fn block_start(base: int, neurons: Seq<Neuron>, t: int) -> int
    decreases t,
{
    if t <= 0 {
        base
    } else {
        block_start(base, neurons, t - 1) + neuron_block_len(neurons[t - 1])
    }
}

/// Block starts never decrease.
proof fn lemma_block_start_mono(base: int, neurons: Seq<Neuron>, t1: int, t2: int)
    requires
        0 <= t1 <= t2,
    ensures
        block_start(base, neurons, t1) <= block_start(base, neurons, t2),
    decreases t2,
{
    if t1 < t2 {
        lemma_block_start_mono(base, neurons, t1, t2 - 1);
    }
}

/// Block starts read only the neurons before `t`.
proof fn lemma_block_start_prefix(base: int, n1: Seq<Neuron>, n2: Seq<Neuron>, t: int)
    requires
        0 <= t,
        forall|u: int| 0 <= u < t ==> n1[u] == n2[u],
    ensures
        block_start(base, n1, t) == block_start(base, n2, t),
    decreases t,
{
    if t > 0 {
        lemma_block_start_prefix(base, n1, n2, t - 1);
    }
}

/// The subgraph a layer's forward pass appends: one block per neuron,
/// in neuron order, each of the shape `neuron_forward_shape` over the
/// arena prefix its predecessors left, all sharing one input vector.
#[verifier::opaque]
pub open spec fn layer_forward_shape(
    g0: Seq<Value>,
    g1: Seq<Value>,
    neurons: Seq<Neuron>,
    xs: Seq<Val>,
    outs: Seq<Val>,
) -> bool {
    &&& outs.len() == neurons.len()
    &&& g1.len() == block_start(g0.len() as int, neurons, neurons.len() as int)
    &&& g1.take(g0.len() as int) == g0
    &&& forall|t: int| #![trigger neurons[t]] 0 <= t < neurons.len()
            ==> neuron_forward_shape(
                g1.take(block_start(g0.len() as int, neurons, t)),
                g1.take(block_start(g0.len() as int, neurons, t + 1)),
                neurons[t],
                xs,
                outs[t],
            )
}

impl Layer {
    /// Every neuron's parameter handles lie inside the arena.
    pub open spec fn wf_in(&self, nodes: Seq<Value>) -> bool {
        forall|j: int| 0 <= j < self.neurons@.len()
            ==> (#[trigger] self.neurons@[j]).wf_in(nodes)
    }

    /// The layer consumes inputs of width `w`.
    pub open spec fn accepts(&self, w: int) -> bool {
        forall|j: int| 0 <= j < self.neurons@.len()
            ==> (#[trigger] self.neurons@[j]).fan_in() == w
    }

    /// The number of outputs.
    pub open spec fn fan_out(&self) -> nat {
        self.neurons@.len()
    }

    /// Whether every neuron's fan-in matches the given input width;
    /// reads only, the arena is untouched.
    pub fn accepts_width(&self, w: usize) -> (b: bool)
        ensures
            b == self.accepts(w as int),
    {
        let n = self.neurons.len();
        let mut j: usize = 0;
        while j < n
            invariant
                j <= n,
                n == self.neurons@.len(),
                forall|t: int| 0 <= t < j
                    ==> (#[trigger] self.neurons@[t]).fan_in() == w,
            decreases n - j,
        {
            if self.neurons[j].weights.len() != w {
                proof {
                    assert(self.neurons@[j as int].fan_in() != w);
                }
                return false;
            }
            j = j + 1;
        }
        true
    }

    /// A fresh layer of `out_ch` neurons, each with fan-in `in_ch` and
    /// the given activation, with pseudo-randomly initialized leaves.
    pub fn new(g: &mut Graph, in_ch: u32, out_ch: u32, use_relu: bool, use_tanh: bool) -> (l: Layer)
        requires
            old(g).wf(),
        ensures
            final(g).wf(),
            final(g)@.len() >= old(g)@.len(),
            forall|i: int| 0 <= i < old(g)@.len() ==> final(g)@[i] == old(g)@[i],
            l.wf_in(final(g)@),
            l.fan_out() == out_ch,
            l.accepts(in_ch as int),
            forall|j: int| 0 <= j < l.neurons@.len()
                ==> (#[trigger] l.neurons@[j]).activation() == (use_relu, use_tanh),
            layer_params(l.neurons@, l.neurons@.len() as int).no_duplicates(),
            forall|p: Val| #[trigger] layer_params(l.neurons@, l.neurons@.len() as int)
                .contains(p) ==> old(g)@.len() <= p.0 < final(g)@.len(),
    {
        let mut neurons: Vec<Neuron> = Vec::new();
        let mut j: usize = 0;
        while j < out_ch as usize
            invariant
                j <= out_ch as usize,
                g.wf(),
                g@.len() >= old(g)@.len(),
                forall|i: int| 0 <= i < old(g)@.len() ==> g@[i] == old(g)@[i],
                neurons@.len() == j,
                forall|t: int| 0 <= t < j ==> (#[trigger] neurons@[t]).wf_in(g@),
                forall|t: int| 0 <= t < j ==> (#[trigger] neurons@[t]).fan_in() == in_ch,
                forall|t: int| 0 <= t < j
                    ==> (#[trigger] neurons@[t]).activation() == (use_relu, use_tanh),
                layer_params(neurons@, j as int).no_duplicates(),
                forall|p: Val| #[trigger] layer_params(neurons@, j as int).contains(p)
                    ==> old(g)@.len() <= p.0 < g@.len(),
            decreases out_ch as usize - j,
        {
            let ghost gj = g@;
            let ghost neurons0 = neurons@;
            let n = Neuron::new(g, in_ch, use_relu, use_tanh);
            neurons.push(n);
            proof {
                let np = n.weights@.push(n.bias);
                assert forall|i: int| 0 <= i < np.len()
                    implies gj.len() <= (#[trigger] np[i]).0 < g@.len() by {
                    if i < n.weights@.len() {
                        assert(np[i] == n.weights@[i]);
                    } else {
                        assert(np[i] == n.bias);
                    }
                }
                lemma_layer_params_prefix(neurons0, neurons@, j as int);
                assert(layer_params(neurons@, (j + 1) as int)
                    == layer_params(neurons@, j as int) + np);
                let a = layer_params(neurons@, j as int);
                assert forall|i: int| 0 <= i < a.len()
                    implies (#[trigger] a[i]).0 < gj.len() by {
                    assert(a.contains(a[i]));
                }
                lemma_concat_fresh(a, np, gj.len() as int);
            }
            j = j + 1;
        }
        Layer { neurons }
    }

    /// Each neuron applied to the same input vector. Succeeds exactly
    /// when the input width matches every neuron's fan-in; existing
    /// nodes are untouched.
    #[verifier::rlimit(100)]
    pub fn forward(&self, g: &mut Graph, x: &Vec<Val>) -> (r: Option<Vec<Val>>)
        requires
            old(g).wf(),
            self.wf_in(old(g)@),
            forall|j: int| 0 <= j < x@.len() ==> (#[trigger] x@[j]).0 < old(g)@.len(),
        ensures
            final(g).wf(),
            final(g)@.len() >= old(g)@.len(),
            forall|i: int| 0 <= i < old(g)@.len() ==> final(g)@[i] == old(g)@[i],
            r is Some <==> self.accepts(x@.len() as int),
            r is None ==> final(g)@ == old(g)@,
            r matches Some(outs) ==> {
                &&& outs@.len() == self.fan_out()
                &&& forall|t: int| 0 <= t < outs@.len()
                        ==> (#[trigger] outs@[t]).0 < final(g)@.len()
                &&& data_seq(final(g)@, outs@)
                    == layer_eval(old(g)@, self.neurons@, data_seq(old(g)@, x@),
                        self.neurons@.len() as int)
                &&& layer_forward_shape(old(g)@, final(g)@, self.neurons@, x@, outs@)
            },
    {
        if !self.accepts_width(x.len()) {
            return None;
        }
        let ghost xd = data_seq(old(g)@, x@);
        let n = self.neurons.len();
        let mut outs: Vec<Val> = Vec::new();
        proof {
            assert(g@.take(old(g)@.len() as int) =~= old(g)@);
            assert(layer_forward_shape(old(g)@, g@, self.neurons@.take(0), x@, outs@)) by {
                reveal(layer_forward_shape);
            }
        }
        let mut k: usize = 0;
        while k < n
            invariant
                k <= n,
                n == self.neurons@.len(),
                g.wf(),
                g@.len() >= old(g)@.len(),
                forall|i: int| 0 <= i < old(g)@.len() ==> g@[i] == old(g)@[i],
                self.wf_in(old(g)@),
                self.accepts(x@.len() as int),
                forall|j: int| 0 <= j < x@.len() ==> (#[trigger] x@[j]).0 < old(g)@.len(),
                xd == data_seq(old(g)@, x@),
                outs@.len() == k,
                forall|t: int| 0 <= t < k ==> (#[trigger] outs@[t]).0 < g@.len(),
                forall|t: int| 0 <= t < k ==> (#[trigger] g@[outs@[t].0 as int]).data
                    == neuron_eval(old(g)@, self.neurons@[t], xd),
                layer_forward_shape(old(g)@, g@, self.neurons@.take(k as int), x@, outs@),
            decreases n - k,
        {
            let ghost gk = g@;
            let ghost outs0 = outs@;
            let nr = &self.neurons[k];
            let out = nr.forward(g, x);
            match out {
                Option::None => {
                    proof {
                        assert(self.neurons@[k as int].fan_in() == x@.len());
                        assert(false);
                    }
                    return None;
                },
                Option::Some(v) => {
                    proof {
                        lemma_neuron_eval_stable(old(g)@, gk, self.neurons@[k as int],
                            data_seq(gk, x@));
                        assert(data_seq(gk, x@) =~= xd);
                    }
                    outs.push(v);
                    proof {
                        let base = old(g)@.len() as int;
                        let ns0 = self.neurons@.take(k as int);
                        let ns = self.neurons@.take((k + 1) as int);
                        assert forall|u: int| 0 <= u < k + 1
                            implies ns[u] == self.neurons@[u] by {}
                        assert forall|u: int| 0 <= u < k
                            implies ns0[u] == self.neurons@[u] by {}
                        // boundaries agree between the k-step and (k+1)-step layouts
                        assert forall|t: int| 0 <= t <= k + 1 implies
                            block_start(base, ns, t)
                                == block_start(base, self.neurons@, t) by {
                            lemma_block_start_prefix(base, ns, self.neurons@, t);
                        }
                        assert forall|t: int| 0 <= t <= k implies
                            block_start(base, ns0, t)
                                == block_start(base, self.neurons@, t) by {
                            lemma_block_start_prefix(base, ns0, self.neurons@, t);
                        }
                        reveal(layer_forward_shape);
                        assert(gk.len() == block_start(base, self.neurons@, k as int));
                        assert(g@.len() == gk.len()
                            + neuron_block_len(self.neurons@[k as int])) by {
                            reveal(neuron_forward_shape);
                        }
                        assert(g@.len() == block_start(base, self.neurons@, k + 1));
                        // earlier blocks are untouched by the new appends
                        assert(g@.take(gk.len() as int) =~= gk);
                        assert forall|t: int| #![trigger ns[t]] 0 <= t < k + 1 implies
                            neuron_forward_shape(
                                g@.take(block_start(base, ns, t)),
                                g@.take(block_start(base, ns, t + 1)),
                                ns[t],
                                x@,
                                outs@[t],
                            ) by {
                            lemma_block_start_mono(base, self.neurons@, 0, t);
                            lemma_block_start_mono(base, self.neurons@, t, t + 1);
                            lemma_block_start_mono(base, self.neurons@, t + 1, k + 1);
                            if t < k {
                                lemma_block_start_mono(base, self.neurons@, t + 1, k as int);
                                assert(neuron_forward_shape(
                                    gk.take(block_start(base, ns0, t)),
                                    gk.take(block_start(base, ns0, t + 1)),
                                    ns0[t],
                                    x@,
                                    outs0[t],
                                ));
                                assert(g@.take(block_start(base, self.neurons@, t))
                                    =~= gk.take(block_start(base, self.neurons@, t)));
                                assert(g@.take(block_start(base, self.neurons@, t + 1))
                                    =~= gk.take(block_start(base, self.neurons@, t + 1)));
                                assert(outs@[t] == outs0[t]);
                            } else {
                                assert(g@.take(block_start(base, self.neurons@, t))
                                    =~= gk);
                                assert(g@.take(block_start(base, self.neurons@, t + 1))
                                    =~= g@);
                                assert(neuron_forward_shape(gk, g@,
                                    self.neurons@[k as int], x@, v));
                                assert(outs@[t] == v);
                            }
                        }
                        assert(g@.take(base) =~= gk.take(base));
                        assert(layer_forward_shape(old(g)@, g@, ns, x@, outs@));
                    }
                },
            }
            k = k + 1;
        }
        proof {
            assert(self.neurons@.take(n as int) =~= self.neurons@);
        }
        proof {
            assert forall|t: int| 0 <= t < n
                implies data_seq(g@, outs@)[t]
                    == layer_eval(old(g)@, self.neurons@, xd, n as int)[t] by {
                lemma_layer_eval_index(old(g)@, self.neurons@, xd, n as int, t);
            }
            lemma_layer_eval_len(old(g)@, self.neurons@, xd, n as int);
            assert(data_seq(g@, outs@)
                =~= layer_eval(old(g)@, self.neurons@, xd, n as int));
        }
        Some(outs)
    }

    /// All trainable leaves, in neuron order.
    pub fn parameters(&self) -> (ps: Vec<Val>)
        ensures
            ps@ == layer_params(self.neurons@, self.neurons@.len() as int),
    {
        let n = self.neurons.len();
        let mut ps: Vec<Val> = Vec::new();
        let mut k: usize = 0;
        while k < n
            invariant
                k <= n,
                n == self.neurons@.len(),
                ps@ == layer_params(self.neurons@, k as int),
            decreases n - k,
        {
            let mut nps = self.neurons[k].parameters();
            ps.append(&mut nps);
            k = k + 1;
        }
        ps
    }

    /// Reset every parameter leaf's gradient of every neuron to zero;
    /// no other node changes.
    pub fn zero_grad(&self, g: &mut Graph)
        requires
            old(g).wf(),
            self.wf_in(old(g)@),
        ensures
            final(g).wf(),
            final(g)@.len() == old(g)@.len(),
            forall|i: int| 0 <= i < old(g)@.len() ==> {
                &&& (#[trigger] final(g)@[i]).data == old(g)@[i].data
                &&& final(g)@[i].operation == old(g)@[i].operation
                &&& final(g)@[i].previous == old(g)@[i].previous
            },
            forall|i: usize| (i as int) < old(g)@.len()
                ==> (#[trigger] final(g)@[i as int]).grad == (if layer_has_param(*self, Val(i)) {
                    Scalar::Finite(0)
                } else {
                    old(g)@[i as int].grad
                }),
    {
        let n = self.neurons.len();
        let mut k: usize = 0;
        while k < n
            invariant
                k <= n,
                n == self.neurons@.len(),
                g.wf(),
                self.wf_in(old(g)@),
                self.wf_in(g@),
                g@.len() == old(g)@.len(),
                forall|i: int| 0 <= i < old(g)@.len() ==> {
                    &&& (#[trigger] g@[i]).data == old(g)@[i].data
                    &&& g@[i].operation == old(g)@[i].operation
                    &&& g@[i].previous == old(g)@[i].previous
                },
                forall|i: usize| (i as int) < old(g)@.len()
                    ==> (#[trigger] g@[i as int]).grad
                        == (if (exists|t: int| 0 <= t < k
                                && neuron_has_param(#[trigger] self.neurons@[t], Val(i))) {
                            Scalar::Finite(0)
                        } else {
                            old(g)@[i as int].grad
                        }),
            decreases n - k,
        {
            let ghost gk = g@;
            self.neurons[k].zero_grad(g);
            proof {
                assert forall|i: usize| (i as int) < old(g)@.len()
                    implies (#[trigger] g@[i as int]).grad
                        == (if (exists|t: int| 0 <= t < k + 1
                                && neuron_has_param(#[trigger] self.neurons@[t], Val(i))) {
                            Scalar::Finite(0)
                        } else {
                            old(g)@[i as int].grad
                        }) by {
                    if neuron_has_param(self.neurons@[k as int], Val(i)) {
                        assert(exists|t: int| 0 <= t < k + 1
                            && neuron_has_param(#[trigger] self.neurons@[t], Val(i)));
                    } else {
                        assert(g@[i as int].grad == gk[i as int].grad);
                        if exists|t: int| 0 <= t < k
                                && neuron_has_param(#[trigger] self.neurons@[t], Val(i)) {
                            let t = choose|t: int| 0 <= t < k
                                && neuron_has_param(#[trigger] self.neurons@[t], Val(i));
                            assert(exists|u: int| 0 <= u < k + 1
                                && neuron_has_param(#[trigger] self.neurons@[u], Val(i)));
                        } else {
                            assert(forall|t: int| 0 <= t < k + 1
                                ==> !neuron_has_param(#[trigger] self.neurons@[t], Val(i)));
                        }
                    }
                }
            }
            k = k + 1;
        }
    }
}


/// The multilayer perceptron: an ordered stack of layers, each
/// consuming the previous layer's outputs. Hidden layers share one
/// rectification choice; the final layer applies the hyperbolic
/// tangent, bounding the output to the unit range.
pub struct MLP {
    /// The layers, input side first.
    pub layers: Vec<Layer>,
}

/// Whether `p` is a parameter of one of the network's layers.
pub open spec fn mlp_has_param(m: MLP, p: Val) -> bool {
    exists|j: int| 0 <= j < m.layers@.len() && layer_has_param(#[trigger] m.layers@[j], p)
}

/// Whether the stack from layer `k` on consumes inputs of width `w`.
pub open spec fn mlp_accepts_from(layers: Seq<Layer>, k: int, w: int) -> bool
    decreases layers.len() - k,
{
    if k < 0 || k >= layers.len() {
        true
    } else {
        layers[k].accepts(w) && mlp_accepts_from(layers, k + 1, layers[k].fan_out() as int)
    }
}

/// The data after threading `xd` through layers `k` and on.
pub open spec fn mlp_eval_from(nodes: Seq<Value>, layers: Seq<Layer>, k: int, xd: Seq<Scalar>)
    -> Seq<Scalar>
    decreases layers.len() - k,
{
    if k < 0 || k >= layers.len() {
        xd
    } else {
        mlp_eval_from(nodes, layers, k + 1,
            layer_eval(nodes, layers[k].neurons@, xd, layers[k].neurons@.len() as int))
    }
}

/// The trainable leaves of the first `k` layers, in layer order.
pub open spec fn mlp_params(layers: Seq<Layer>, k: int) -> Seq<Val>
    decreases k,
{
    if k <= 0 {
        Seq::empty()
    } else {
        mlp_params(layers, k - 1)
            + layer_params(layers[k - 1].neurons@, layers[k - 1].neurons@.len() as int)
    }
}

/// The parameters of the first `k` layers read only those layers.
proof fn lemma_mlp_params_prefix(l1: Seq<Layer>, l2: Seq<Layer>, k: int)
    requires
        0 <= k,
        forall|u: int| 0 <= u < k ==> l1[u] == l2[u],
    ensures
        mlp_params(l1, k) == mlp_params(l2, k),
    decreases k,
{
    if k > 0 {
        lemma_mlp_params_prefix(l1, l2, k - 1);
    }
}

/// A chain of per-layer width facts yields acceptance of the stack.
proof fn lemma_accepts_chain(layers: Seq<Layer>, outs: Seq<u32>, w0: int, k: int)
    requires
        0 <= k <= layers.len(),
        layers.len() == outs.len(),
        forall|t: int| 0 <= t < layers.len() ==> (#[trigger] layers[t]).fan_out() == outs[t],
        forall|t: int| 0 <= t < layers.len()
            ==> (#[trigger] layers[t]).accepts(if t == 0 { w0 } else { outs[t - 1] as int }),
    ensures
        mlp_accepts_from(layers, k, if k == 0 { w0 } else { outs[k - 1] as int }),
    decreases layers.len() - k,
{
    if k < layers.len() {
        lemma_accepts_chain(layers, outs, w0, k + 1);
    }
}

/// Block starts shift with the base.
proof fn lemma_block_start_offset(b: int, neurons: Seq<Neuron>, t: int)
    requires
        0 <= t,
    ensures
        block_start(b, neurons, t) == b + block_start(0, neurons, t),
    decreases t,
{
    if t > 0 {
        lemma_block_start_offset(b, neurons, t - 1);
    }
}

/// How many nodes one layer's forward pass appends.
pub open spec fn layer_region_len(l: Layer) -> int {
    block_start(0, l.neurons@, l.neurons@.len() as int)
}

/// Where layer `t`'s region starts, the regions being laid out in
/// layer order from the end of the prior arena.
pub open spec fn region_start(base: int, layers: Seq<Layer>, t: int) -> int
    decreases t,
{
    if t <= 0 {
        base
    } else {
        region_start(base, layers, t - 1) + layer_region_len(layers[t - 1])
    }
}

/// Region starts never decrease.
proof fn lemma_region_start_mono(base: int, layers: Seq<Layer>, t1: int, t2: int)
    requires
        0 <= t1 <= t2,
    ensures
        region_start(base, layers, t1) <= region_start(base, layers, t2),
    decreases t2,
{
    if t1 < t2 {
        lemma_region_start_mono(base, layers, t1, t2 - 1);
        lemma_block_start_mono(0, layers[t2 - 1].neurons@, 0,
            layers[t2 - 1].neurons@.len() as int);
    }
}

/// The handles a layer's blocks leave as outputs: each neuron block
/// ends at its result node.
pub open spec fn layer_block_outs(base: int, neurons: Seq<Neuron>) -> Seq<Val> {
    Seq::new(neurons.len(), |u: int| Val((block_start(base, neurons, u + 1) - 1) as usize))
}

/// The input vector layer `t` consumes: the caller's inputs for the
/// first layer, the previous layer's outputs after that.
pub open spec fn stage_inputs(base: int, layers: Seq<Layer>, xs: Seq<Val>, t: int) -> Seq<Val> {
    if t <= 0 {
        xs
    } else {
        layer_block_outs(region_start(base, layers, t - 1), layers[t - 1].neurons@)
    }
}

/// A layer shape pins its outputs: they are the block ends.
proof fn lemma_layer_outs_canonical(
    g0: Seq<Value>,
    g1: Seq<Value>,
    neurons: Seq<Neuron>,
    xs: Seq<Val>,
    outs: Seq<Val>,
)
    requires
        layer_forward_shape(g0, g1, neurons, xs, outs),
    ensures
        outs == layer_block_outs(g0.len() as int, neurons),
{
    reveal(layer_forward_shape);
    let base = g0.len() as int;
    assert forall|u: int| 0 <= u < neurons.len()
        implies outs[u] == Val((block_start(base, neurons, u + 1) - 1) as usize) by {
        assert(neurons[u] == neurons[u]);
        lemma_block_start_mono(base, neurons, 0, u + 1);
        lemma_block_start_mono(base, neurons, u + 1, neurons.len() as int);
        assert(neuron_forward_shape(
            g1.take(block_start(base, neurons, u)),
            g1.take(block_start(base, neurons, u + 1)),
            neurons[u],
            xs,
            outs[u],
        ));
        assert(outs[u].0 as int == g1.take(block_start(base, neurons, u + 1)).len() - 1) by {
            reveal(neuron_forward_shape);
        }
    }
    assert(outs =~= layer_block_outs(base, neurons));
}

/// The subgraph the network's forward pass appends: one region per
/// layer, in layer order, each of the layer shape over the arena
/// prefix the earlier layers left, consuming the previous stage's
/// outputs; the returned handles are the final stage's outputs.
pub open spec fn mlp_forward_shape(
    g0: Seq<Value>,
    g1: Seq<Value>,
    layers: Seq<Layer>,
    xs: Seq<Val>,
    outs: Seq<Val>,
) -> bool {
    let base = g0.len() as int;
    &&& g1.len() == region_start(base, layers, layers.len() as int)
    &&& g1.take(base) == g0
    &&& forall|t: int| #![trigger layers[t]] 0 <= t < layers.len()
            ==> layer_forward_shape(
                g1.take(region_start(base, layers, t)),
                g1.take(region_start(base, layers, t + 1)),
                layers[t].neurons@,
                stage_inputs(base, layers, xs, t),
                layer_block_outs(region_start(base, layers, t), layers[t].neurons@),
            )
    &&& outs == stage_inputs(base, layers, xs, layers.len() as int)
}

impl MLP {
    /// Every layer's parameter handles lie inside the arena.
    pub open spec fn wf_in(&self, nodes: Seq<Value>) -> bool {
        forall|j: int| 0 <= j < self.layers@.len()
            ==> (#[trigger] self.layers@[j]).wf_in(nodes)
    }

    /// A fresh network: one layer per entry of `out_ch`, the first
    /// consuming `in_ch` inputs and each further one its predecessor's
    /// outputs. Hidden layers rectify when `use_relu` is set; the final
    /// layer applies the hyperbolic tangent.
    pub fn new(g: &mut Graph, in_ch: u32, out_ch: &Vec<u32>, use_relu: bool) -> (m: MLP)
        requires
            old(g).wf(),
        ensures
            final(g).wf(),
            final(g)@.len() >= old(g)@.len(),
            forall|i: int| 0 <= i < old(g)@.len() ==> final(g)@[i] == old(g)@[i],
            m.wf_in(final(g)@),
            m.layers@.len() == out_ch@.len(),
            mlp_accepts_from(m.layers@, 0, in_ch as int),
            forall|j: int| 0 <= j < m.layers@.len()
                ==> (#[trigger] m.layers@[j]).fan_out() == out_ch@[j],
            forall|j: int, u: int|
                0 <= j < m.layers@.len() - 1 && 0 <= u < m.layers@[j].neurons@.len()
                    ==> (#[trigger] m.layers@[j].neurons@[u]).activation() == (use_relu, false),
            forall|u: int|
                m.layers@.len() > 0
                    && 0 <= u < m.layers@[m.layers@.len() - 1].neurons@.len()
                    ==> (#[trigger] m.layers@[m.layers@.len() - 1].neurons@[u]).activation()
                        == (false, true),
            mlp_params(m.layers@, m.layers@.len() as int).no_duplicates(),
            forall|p: Val| #[trigger] mlp_params(m.layers@, m.layers@.len() as int)
                .contains(p) ==> old(g)@.len() <= p.0 < final(g)@.len(),
    {
        let sz = out_ch.len();
        let mut layers: Vec<Layer> = Vec::new();
        let mut cur_in: u32 = in_ch;
        let mut i: usize = 0;
        while i < sz
            invariant
                i <= sz,
                sz == out_ch@.len(),
                g.wf(),
                g@.len() >= old(g)@.len(),
                forall|t: int| 0 <= t < old(g)@.len() ==> g@[t] == old(g)@[t],
                layers@.len() == i,
                forall|t: int| 0 <= t < i ==> (#[trigger] layers@[t]).wf_in(g@),
                forall|t: int| 0 <= t < i ==> (#[trigger] layers@[t]).fan_out() == out_ch@[t],
                forall|t: int| 0 <= t < i ==> (#[trigger] layers@[t]).accepts(
                    if t == 0 { in_ch as int } else { out_ch@[t - 1] as int }),
                cur_in as int == (if i == 0 { in_ch as int } else { out_ch@[i - 1] as int }),
                forall|t: int, u: int| 0 <= t < i && 0 <= u < layers@[t].neurons@.len()
                    ==> (#[trigger] layers@[t].neurons@[u]).activation()
                        == (if t == sz - 1 { (false, true) } else { (use_relu, false) }),
                mlp_params(layers@, i as int).no_duplicates(),
                forall|p: Val| #[trigger] mlp_params(layers@, i as int).contains(p)
                    ==> old(g)@.len() <= p.0 < g@.len(),
            decreases sz - i,
        {
            let ghost gi = g@;
            let ghost layers0 = layers@;
            let last = i == sz - 1;
            let l = if last {
                Layer::new(g, cur_in, out_ch[i], false, true)
            } else {
                Layer::new(g, cur_in, out_ch[i], use_relu, false)
            };
            layers.push(l);
            proof {
                let lp = layer_params(l.neurons@, l.neurons@.len() as int);
                lemma_mlp_params_prefix(layers0, layers@, i as int);
                assert(mlp_params(layers@, (i + 1) as int)
                    == mlp_params(layers@, i as int) + lp);
                let a = mlp_params(layers@, i as int);
                assert forall|t: int| 0 <= t < a.len()
                    implies (#[trigger] a[t]).0 < gi.len() by {
                    assert(a.contains(a[t]));
                }
                assert forall|t: int| 0 <= t < lp.len()
                    implies (#[trigger] lp[t]).0 >= gi.len() by {
                    assert(lp.contains(lp[t]));
                }
                lemma_concat_fresh(a, lp, gi.len() as int);
            }
            cur_in = out_ch[i];
            i = i + 1;
        }
        proof {
            lemma_accepts_chain(layers@, out_ch@, in_ch as int, 0);
        }
        MLP { layers }
    }

    /// Whether an input of width `w` threads through the whole stack;
    /// reads only, the arena is untouched.
    pub fn accepts_input(&self, w: usize) -> (b: bool)
        ensures
            b == mlp_accepts_from(self.layers@, 0, w as int),
    {
        let sz = self.layers.len();
        let mut wk: usize = w;
        let mut k: usize = 0;
        while k < sz
            invariant
                k <= sz,
                sz == self.layers@.len(),
                mlp_accepts_from(self.layers@, 0, w as int)
                    <==> mlp_accepts_from(self.layers@, k as int, wk as int),
            decreases sz - k,
        {
            if !self.layers[k].accepts_width(wk) {
                proof {
                    assert(!mlp_accepts_from(self.layers@, k as int, wk as int));
                }
                return false;
            }
            wk = self.layers[k].neurons.len();
            k = k + 1;
        }
        true
    }

    /// The input vector threaded through every layer in order.
    /// Succeeds exactly when the widths chain from the input's; the
    /// outputs' data is the composed evaluation of the stack, and the
    /// appended subgraph is the layers' regions in order.
    #[verifier::rlimit(100)]
    pub fn forward(&self, g: &mut Graph, x: &Vec<Val>) -> (r: Option<Vec<Val>>)
        requires
            old(g).wf(),
            self.wf_in(old(g)@),
            forall|j: int| 0 <= j < x@.len() ==> (#[trigger] x@[j]).0 < old(g)@.len(),
        ensures
            final(g).wf(),
            final(g)@.len() >= old(g)@.len(),
            forall|i: int| 0 <= i < old(g)@.len() ==> final(g)@[i] == old(g)@[i],
            r is Some <==> mlp_accepts_from(self.layers@, 0, x@.len() as int),
            r is None ==> final(g)@ == old(g)@,
            r matches Some(outs) ==> {
                &&& forall|t: int| 0 <= t < outs@.len()
                        ==> (#[trigger] outs@[t]).0 < final(g)@.len()
                &&& data_seq(final(g)@, outs@)
                    == mlp_eval_from(old(g)@, self.layers@, 0, data_seq(old(g)@, x@))
                &&& mlp_forward_shape(old(g)@, final(g)@, self.layers@, x@, outs@)
            },
    {
        if !self.accepts_input(x.len()) {
            return None;
        }
        let ghost xd0 = data_seq(old(g)@, x@);
        let sz = self.layers.len();
        let mut cur: Vec<Val> = Vec::new();
        let nx = x.len();
        let mut t: usize = 0;
        while t < nx
            invariant
                t <= nx,
                nx == x@.len(),
                cur@ == x@.take(t as int),
            decreases nx - t,
        {
            cur.push(x[t]);
            proof {
                assert(cur@ =~= x@.take((t + 1) as int));
            }
            t = t + 1;
        }
        proof {
            assert(cur@ =~= x@);
        }
        let mut k: usize = 0;
        while k < sz
            invariant
                k <= sz,
                sz == self.layers@.len(),
                g.wf(),
                g@.len() >= old(g)@.len(),
                forall|i: int| 0 <= i < old(g)@.len() ==> g@[i] == old(g)@[i],
                self.wf_in(old(g)@),
                xd0 == data_seq(old(g)@, x@),
                forall|u: int| 0 <= u < cur@.len() ==> (#[trigger] cur@[u]).0 < g@.len(),
                mlp_accepts_from(self.layers@, 0, x@.len() as int),
                mlp_accepts_from(self.layers@, 0, x@.len() as int)
                    <==> mlp_accepts_from(self.layers@, k as int, cur@.len() as int),
                mlp_eval_from(old(g)@, self.layers@, 0, xd0)
                    == mlp_eval_from(old(g)@, self.layers@, k as int, data_seq(g@, cur@)),
                g@.len() == region_start(old(g)@.len() as int, self.layers@, k as int),
                cur@ == stage_inputs(old(g)@.len() as int, self.layers@, x@, k as int),
                forall|t: int| #![trigger self.layers@[t]] 0 <= t < k
                    ==> layer_forward_shape(
                        g@.take(region_start(old(g)@.len() as int, self.layers@, t)),
                        g@.take(region_start(old(g)@.len() as int, self.layers@, t + 1)),
                        self.layers@[t].neurons@,
                        stage_inputs(old(g)@.len() as int, self.layers@, x@, t),
                        layer_block_outs(
                            region_start(old(g)@.len() as int, self.layers@, t),
                            self.layers@[t].neurons@,
                        ),
                    ),
            decreases sz - k,
        {
            let ghost gk = g@;
            let ghost dk = data_seq(gk, cur@);
            proof {
                assert(self.layers@[k as int].wf_in(old(g)@));
                assert forall|j: int| 0 <= j < self.layers@[k as int].neurons@.len()
                    implies (#[trigger] self.layers@[k as int].neurons@[j]).wf_in(gk) by {
                    assert(self.layers@[k as int].neurons@[j].wf_in(old(g)@));
                }
            }
            let l = &self.layers[k];
            let res = l.forward(g, &cur);
            match res {
                Option::None => {
                    proof {
                        assert(!mlp_accepts_from(self.layers@, k as int, cur@.len() as int));
                        assert(false);
                    }
                    return None;
                },
                Option::Some(outs) => {
                    proof {
                        let base = old(g)@.len() as int;
                        let cur0 = cur@;
                        assert(self.layers@[k as int].accepts(cur@.len() as int));
                        lemma_layer_eval_stable(old(g)@, gk, self.layers@[k as int], dk,
                            self.layers@[k as int].neurons@.len() as int);
                        assert(data_seq(g@, outs@)
                            == layer_eval(old(g)@, self.layers@[k as int].neurons@, dk,
                                self.layers@[k as int].neurons@.len() as int));
                        assert(mlp_eval_from(old(g)@, self.layers@, k as int, dk)
                            == mlp_eval_from(old(g)@, self.layers@, k + 1, data_seq(g@, outs@)));
                        lemma_layer_eval_len(old(g)@, self.layers@[k as int].neurons@, dk,
                            self.layers@[k as int].neurons@.len() as int);
                        assert(outs@.len() == self.layers@[k as int].fan_out());
                        // the region layout extends by this layer's region
                        let lk = self.layers@[k as int];
                        assert(layer_forward_shape(gk, g@, lk.neurons@, cur0, outs@));
                        lemma_layer_outs_canonical(gk, g@, lk.neurons@, cur0, outs@);
                        lemma_block_start_offset(gk.len() as int, lk.neurons@,
                            lk.neurons@.len() as int);
                        assert(g@.len() == gk.len() + layer_region_len(lk)) by {
                            reveal(layer_forward_shape);
                        }
                        assert(g@.len() == region_start(base, self.layers@, k + 1));
                        assert(outs@ == stage_inputs(base, self.layers@, x@, k + 1));
                        // earlier regions are untouched by the new appends
                        assert(g@.take(gk.len() as int) =~= gk);
                        assert forall|t: int| #![trigger self.layers@[t]] 0 <= t < k + 1
                            implies layer_forward_shape(
                                g@.take(region_start(base, self.layers@, t)),
                                g@.take(region_start(base, self.layers@, t + 1)),
                                self.layers@[t].neurons@,
                                stage_inputs(base, self.layers@, x@, t),
                                layer_block_outs(
                                    region_start(base, self.layers@, t),
                                    self.layers@[t].neurons@,
                                ),
                            ) by {
                            lemma_region_start_mono(base, self.layers@, 0, t);
                            lemma_region_start_mono(base, self.layers@, t, t + 1);
                            lemma_region_start_mono(base, self.layers@, t + 1, k + 1);
                            if t < k {
                                lemma_region_start_mono(base, self.layers@, t + 1, k as int);
                                assert(g@.take(region_start(base, self.layers@, t))
                                    =~= gk.take(region_start(base, self.layers@, t)));
                                assert(g@.take(region_start(base, self.layers@, t + 1))
                                    =~= gk.take(region_start(base, self.layers@, t + 1)));
                            } else {
                                assert(g@.take(region_start(base, self.layers@, t)) =~= gk);
                                assert(g@.take(region_start(base, self.layers@, t + 1)) =~= g@);
                            }
                        }
                    }
                    cur = outs;
                },
            }
            k = k + 1;
        }
        proof {
            assert(mlp_eval_from(old(g)@, self.layers@, sz as int, data_seq(g@, cur@))
                == data_seq(g@, cur@));
            assert(g@.take(old(g)@.len() as int) =~= old(g)@);
            assert(mlp_forward_shape(old(g)@, g@, self.layers@, x@, cur@));
        }
        Some(cur)
    }

    /// All trainable leaves, in layer order.
    pub fn parameters(&self) -> (ps: Vec<Val>)
        ensures
            ps@ == mlp_params(self.layers@, self.layers@.len() as int),
    {
        let n = self.layers.len();
        let mut ps: Vec<Val> = Vec::new();
        let mut k: usize = 0;
        while k < n
            invariant
                k <= n,
                n == self.layers@.len(),
                ps@ == mlp_params(self.layers@, k as int),
            decreases n - k,
        {
            let mut lps = self.layers[k].parameters();
            ps.append(&mut lps);
            k = k + 1;
        }
        ps
    }

    /// Reset every parameter leaf's gradient across all layers to
    /// exactly zero, whatever each held; no other node changes.
    pub fn zero_grad(&self, g: &mut Graph)
        requires
            old(g).wf(),
            self.wf_in(old(g)@),
        ensures
            final(g).wf(),
            final(g)@.len() == old(g)@.len(),
            forall|i: int| 0 <= i < old(g)@.len() ==> {
                &&& (#[trigger] final(g)@[i]).data == old(g)@[i].data
                &&& final(g)@[i].operation == old(g)@[i].operation
                &&& final(g)@[i].previous == old(g)@[i].previous
            },
            forall|i: usize| (i as int) < old(g)@.len()
                ==> (#[trigger] final(g)@[i as int]).grad == (if mlp_has_param(*self, Val(i)) {
                    Scalar::Finite(0)
                } else {
                    old(g)@[i as int].grad
                }),
    {
        let n = self.layers.len();
        let mut k: usize = 0;
        while k < n
            invariant
                k <= n,
                n == self.layers@.len(),
                g.wf(),
                self.wf_in(old(g)@),
                self.wf_in(g@),
                g@.len() == old(g)@.len(),
                forall|i: int| 0 <= i < old(g)@.len() ==> {
                    &&& (#[trigger] g@[i]).data == old(g)@[i].data
                    &&& g@[i].operation == old(g)@[i].operation
                    &&& g@[i].previous == old(g)@[i].previous
                },
                forall|i: usize| (i as int) < old(g)@.len()
                    ==> (#[trigger] g@[i as int]).grad
                        == (if (exists|t: int| 0 <= t < k
                                && layer_has_param(#[trigger] self.layers@[t], Val(i))) {
                            Scalar::Finite(0)
                        } else {
                            old(g)@[i as int].grad
                        }),
            decreases n - k,
        {
            let ghost gk = g@;
            self.layers[k].zero_grad(g);
            proof {
                assert forall|i: usize| (i as int) < old(g)@.len()
                    implies (#[trigger] g@[i as int]).grad
                        == (if (exists|t: int| 0 <= t < k + 1
                                && layer_has_param(#[trigger] self.layers@[t], Val(i))) {
                            Scalar::Finite(0)
                        } else {
                            old(g)@[i as int].grad
                        }) by {
                    if layer_has_param(self.layers@[k as int], Val(i)) {
                        assert(exists|t: int| 0 <= t < k + 1
                            && layer_has_param(#[trigger] self.layers@[t], Val(i)));
                    } else {
                        assert(g@[i as int].grad == gk[i as int].grad);
                        if exists|t: int| 0 <= t < k
                                && layer_has_param(#[trigger] self.layers@[t], Val(i)) {
                            let t = choose|t: int| 0 <= t < k
                                && layer_has_param(#[trigger] self.layers@[t], Val(i));
                            assert(exists|u: int| 0 <= u < k + 1
                                && layer_has_param(#[trigger] self.layers@[u], Val(i)));
                        } else {
                            assert(forall|t: int| 0 <= t < k + 1
                                ==> !layer_has_param(#[trigger] self.layers@[t], Val(i)));
                        }
                    }
                }
            }
            k = k + 1;
        }
    }
}

/// The stack's evaluation from stage `k` onward ends at the final
/// layer, whose tangent activation bounds each entry.
proof fn lemma_mlp_eval_last(nodes: Seq<Value>, layers: Seq<Layer>, k: int, xd: Seq<Scalar>, t: int)
    requires
        layers.len() > 0,
        0 <= k < layers.len(),
        forall|u: int| 0 <= u < layers[layers.len() - 1].neurons@.len()
            ==> (#[trigger] layers[layers.len() - 1].neurons@[u]).use_tanh,
        0 <= t < mlp_eval_from(nodes, layers, k, xd).len(),
    ensures
        unit_or_nan(mlp_eval_from(nodes, layers, k, xd)[t]),
    decreases layers.len() - k,
{
    if k == layers.len() - 1 {
        let nlast = layers[layers.len() - 1].neurons@;
        let res = layer_eval(nodes, nlast, xd, nlast.len() as int);
        assert(mlp_eval_from(nodes, layers, k + 1, res) == res);
        assert(mlp_eval_from(nodes, layers, k, xd)
            == mlp_eval_from(nodes, layers, k + 1, res));
        assert(mlp_eval_from(nodes, layers, k, xd) == res);
        lemma_layer_eval_len(nodes, nlast, xd, nlast.len() as int);
        lemma_layer_eval_index(nodes, nlast, xd, nlast.len() as int, t);
        let nr = nlast[t];
        let pre = add_s(
            dot_d(nodes, nr.weights@, xd, nr.weights@.len() as int),
            nodes[nr.bias.0 as int].data,
        );
        lemma_tanh_unit(relu_s(pre));
        lemma_tanh_unit(pre);
    } else {
        lemma_mlp_eval_last(
            nodes,
            layers,
            k + 1,
            layer_eval(nodes, layers[k].neurons@, xd, layers[k].neurons@.len() as int),
            t,
        );
    }
}

/// The classification bound: with the final layer applying the
/// hyperbolic tangent, every entry of the network's evaluation lies in
/// the closed unit interval, except where the arithmetic itself was
/// undefined, in which case the entry is `Nan`.
pub proof fn lemma_mlp_output_bounded(
    nodes: Seq<Value>,
    layers: Seq<Layer>,
    xd: Seq<Scalar>,
    t: int,
)
    requires
        layers.len() > 0,
        forall|u: int| 0 <= u < layers[layers.len() - 1].neurons@.len()
            ==> (#[trigger] layers[layers.len() - 1].neurons@[u]).use_tanh,
        0 <= t < mlp_eval_from(nodes, layers, 0, xd).len(),
    ensures
        unit_or_nan(mlp_eval_from(nodes, layers, 0, xd)[t]),
{
    lemma_mlp_eval_last(nodes, layers, 0, xd, t);
}

} // verus!

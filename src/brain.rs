//! The network: its parameters, how they are made, and how the network is
//! evaluated layer by layer.
//!
//! A network has `width` neurons in each of `depth` layers, the first being
//! the input. Between two layers stand `width * width` connections: neuron `i`
//! of the next layer owns the block of `width` connections that starts at
//! `l * width² + i * width` (for the transition out of layer `l`). Each of them
//! adds `prev[i] * weight + bias` to that neuron's sum, so a neuron reads only
//! the neuron of the same index in the layer before. The sum of a neuron
//! starts from zero at the first transition and, at each later one, from that
//! neuron's own bounded value in the layer before: the sums carry over from
//! layer to layer. The sum is saturated to the `i64` range and then bounded.
use crate::draw::draw_between;
use crate::fixed::{abs, bound, lemma_bound_range, mul_fixed, scale_mul, sigmoid, ONE};
use vstd::prelude::*;

verus! {

/// Neurons in each layer of the network that the visualisation shows.
pub const LAYER_SIZE: usize = 5;

/// Layers of that network, the input layer included.
pub const LAYER_COUNT: usize = 3;

/// The parameters of one connection, in fixed point.
#[derive(Clone, Copy, Debug)]
pub struct Synapse {
    pub weight: i64,
    pub bias: i64,
}

impl Synapse {
    /// Both parameters lie within `[-1.0, 1.0]`.
    pub open spec fn in_unit_range(self) -> bool {
        &&& -ONE <= self.weight <= ONE
        &&& -ONE <= self.bias <= ONE
    }
}

/// The number of connections of a network of `depth` layers of `width`.
pub open spec fn synapse_count(width: nat, depth: nat) -> int {
    width * width * (depth - 1)
}

/// `v` saturated to the range of `i64`.
pub open spec fn clamp_i64(v: int) -> int {
    if v < i64::MIN {
        i64::MIN as int
    } else if v > i64::MAX {
        i64::MAX as int
    } else {
        v
    }
}

/// What the `k` connections from `start` on add to a neuron whose input is `x`.
pub open spec fn block_sum(params: Seq<Synapse>, start: int, k: nat, x: int) -> int
    decreases k,
{
    if k == 0 {
        0
    } else {
        let s = params[start + k - 1];
        block_sum(params, start, (k - 1) as nat, x) + scale_mul(x, s.weight as int) + s.bias
    }
}

/// A sequence of fixed-point values as integers.
pub open spec fn ints(s: Seq<i64>) -> Seq<int> {
    s.map_values(|v: i64| v as int)
}

/// The contents of each row of `r`.
pub open spec fn rows(r: Seq<Vec<i64>>) -> Seq<Seq<i64>> {
    r.map_values(|v: Vec<i64>| v@)
}

/// `v` saturated to the range of `i64`.
fn saturate(v: i128) -> (r: i64)
    ensures
        r == clamp_i64(v as int),
{
    if v < i64::MIN as i128 {
        i64::MIN
    } else if v > i64::MAX as i128 {
        i64::MAX
    } else {
        v as i64
    }
}

/// A feed-forward network with fixed topology.
pub struct Brain {
    layer_size: usize,
    layer_count: usize,
    synapses: Vec<Synapse>,
}

impl Brain {
    /// Neurons in each layer.
    pub closed spec fn width(&self) -> nat {
        self.layer_size as nat
    }

    /// Layers, the input layer included.
    pub closed spec fn depth(&self) -> nat {
        self.layer_count as nat
    }

    /// The connections, block after block.
    pub closed spec fn params(&self) -> Seq<Synapse> {
        self.synapses@
    }

    /// Positive dimensions, one connection for each place of the topology,
    /// and every parameter within `[-1.0, 1.0]`.
    pub open spec fn wf(&self) -> bool {
        &&& self.width() >= 1
        &&& self.depth() >= 1
        &&& self.params().len() == synapse_count(self.width(), self.depth())
        &&& forall|k: int|
            0 <= k < self.params().len() ==> (#[trigger] self.params()[k]).in_unit_range()
    }

    /// Neuron `i` of the layer that follows `prev`, the layer of index `l`.
    pub open spec fn next_activation(&self, prev: Seq<int>, l: nat, i: int) -> int {
        let n = self.width() as int;
        let carried = if l == 0 {
            0
        } else {
            prev[i]
        };
        bound(clamp_i64(carried + block_sum(self.params(), l * (n * n) + i * n, n as nat, prev[i])))
    }

    /// Layer `l` of the evaluation on `input`.
    pub open spec fn layer(&self, input: Seq<i64>, l: nat) -> Seq<int>
        decreases l,
    {
        if l == 0 {
            ints(input)
        } else {
            let prev = self.layer(input, (l - 1) as nat);
            Seq::new(self.width(), |i: int| self.next_activation(prev, (l - 1) as nat, i))
        }
    }

    /// `r` holds, in order, every layer of the evaluation on `input`.
    pub open spec fn evaluates_to(&self, input: Seq<i64>, r: Seq<Seq<i64>>) -> bool {
        &&& r.len() == self.depth()
        &&& forall|l: int| 0 <= l < r.len() ==> ints(#[trigger] r[l]) == self.layer(input, l as nat)
    }

    /// Each layer has `width` values; past the input they lie inside `(-ONE, ONE)`.
    pub proof fn lemma_layer_shape(&self, input: Seq<i64>, l: nat)
        requires
            input.len() == self.width(),
        ensures
            self.layer(input, l).len() == self.width(),
            l >= 1 ==> forall|i: int|
                0 <= i < self.width() ==> -ONE < #[trigger] self.layer(input, l)[i] < ONE,
    {
        if l >= 1 {
            let prev = self.layer(input, (l - 1) as nat);
            assert forall|i: int| 0 <= i < self.width() implies -ONE < #[trigger] self.layer(
                input,
                l,
            )[i] < ONE by {
                let n = self.width() as int;
                let carried = if l - 1 == 0 {
                    0
                } else {
                    prev[i]
                };
                lemma_bound_range(
                    clamp_i64(
                        carried + block_sum(
                            self.params(),
                            (l - 1) * (n * n) + i * n,
                            n as nat,
                            prev[i],
                        ),
                    ),
                );
            }
        }
    }

    /// Evaluation is deterministic: two results of evaluating one network on
    /// one input are equal.
    pub proof fn lemma_evaluation_deterministic(
        &self,
        input: Seq<i64>,
        r1: Seq<Seq<i64>>,
        r2: Seq<Seq<i64>>,
    )
        requires
            self.evaluates_to(input, r1),
            self.evaluates_to(input, r2),
        ensures
            r1 == r2,
    {
        assert forall|l: int| 0 <= l < r1.len() implies r1[l] == r2[l] by {
            assert(ints(r1[l]) == ints(r2[l]));
            assert(r1[l].len() == ints(r1[l]).len());
            assert(r2[l].len() == ints(r2[l]).len());
            assert forall|i: int| 0 <= i < r1[l].len() implies r1[l][i] == r2[l][i] by {
                assert(ints(r1[l])[i] == ints(r2[l])[i]);
            }
            assert(r1[l] =~= r2[l]);
        }
        assert(r1 =~= r2);
    }

    /// The block of `n` connections of neuron `i` on the transition out of
    /// layer `l` lies within the connections, and the sizes fit.
    proof fn lemma_block_in_range(n: int, c: int, l: int, i: int, len: int)
        requires
            1 <= n,
            0 <= l,
            l + 1 < c,
            0 <= i < n,
            len == n * n * (c - 1),
            len <= usize::MAX,
        ensures
            n <= 0x1_0000_0000,
            n * n <= len,
            0 <= l * (n * n),
            0 <= i * n,
            l * (n * n) + i * n + n <= len,
    {
        assert(n * n <= n * n * (c - 1)) by (nonlinear_arith)
            requires
                1 <= n,
                2 <= c,
        ;
        if n > 0x1_0000_0000 {
            assert(n * n > 0x1_0000_0000 * 0x1_0000_0000) by (nonlinear_arith)
                requires
                    n > 0x1_0000_0000,
            ;
        }
        assert(i * n + n <= n * n) by (nonlinear_arith)
            requires
                0 <= i < n,
        ;
        assert((l + 1) * (n * n) <= (c - 1) * (n * n)) by (nonlinear_arith)
            requires
                0 <= l,
                l + 1 <= c - 1,
                1 <= n,
        ;
        assert(n * n * (c - 1) == (c - 1) * (n * n)) by (nonlinear_arith);
        assert((l + 1) * (n * n) == l * (n * n) + n * n) by (nonlinear_arith);
        assert(0 <= l * (n * n)) by (nonlinear_arith)
            requires
                0 <= l,
        ;
        assert(0 <= i * n) by (nonlinear_arith)
            requires
                0 <= i,
                0 <= n,
        ;
    }

    /// Evaluates the network on `input`: the first layer is `input` itself,
    /// each later one is computed from the layer before, and every layer is
    /// returned.
    pub fn compute_network(&self, input: Vec<i64>) -> (r: Vec<Vec<i64>>)
        requires
            self.wf(),
            input@.len() == self.width(),
        ensures
            self.evaluates_to(input@, rows(r@)),
            r@.len() == self.depth(),
            forall|l: int| 0 <= l < r@.len() ==> (#[trigger] r@[l])@.len() == self.width(),
            r@[0]@ == input@,
            forall|l: int, i: int|
                1 <= l < r@.len() && 0 <= i < self.width() ==> -ONE < #[trigger] r@[l]@[i] < ONE,
    {
        let n = self.layer_size;
        let total: usize = self.synapses.len();
        let ghost input0 = input@;
        let mut layers: Vec<Vec<i64>> = Vec::new();
        layers.push(input);
        assert(ints(layers@[0]@) =~= self.layer(input0, 0));
        let mut layer: usize = 0;
        while layer + 1 < self.layer_count
            invariant
                self.wf(),
                n == self.width(),
                total == self.params().len(),
                input0.len() == n,
                layers@.len() == layer + 1,
                layer + 1 <= self.depth(),
                forall|l: int|
                    0 <= l < layers@.len() ==> ints(#[trigger] layers@[l]@) == self.layer(
                        input0,
                        l as nat,
                    ),
            decreases self.layer_count - layer,
        {
            let ghost prev = self.layer(input0, layer as nat);
            proof {
                self.lemma_layer_shape(input0, layer as nat);
                assert(ints(layers@[layer as int]@) == prev);
                Self::lemma_block_in_range(
                    n as int,
                    self.layer_count as int,
                    layer as int,
                    0,
                    total as int,
                );
            }
            let base: usize = layer * (n * n);
            let mut next: Vec<i64> = Vec::new();
            let mut i: usize = 0;
            while i < n
                invariant
                    self.wf(),
                    n == self.width(),
                    total == self.params().len(),
                    layers@.len() == layer + 1,
                    layer + 1 < self.depth(),
                    base == layer * (n * n),
                    ints(layers@[layer as int]@) == prev,
                    prev.len() == n,
                    i <= n,
                    next@.len() == i,
                    forall|k: int|
                        0 <= k < i ==> #[trigger] next@[k] == self.next_activation(
                            prev,
                            layer as nat,
                            k,
                        ),
                decreases n - i,
            {
                proof {
                    Self::lemma_block_in_range(
                        n as int,
                        self.layer_count as int,
                        layer as int,
                        i as int,
                        total as int,
                    );
                }
                let x: i64 = layers[layer][i];
                assert(x == prev[i as int]);
                let start: usize = base + i * n;
                // The sum starts from this neuron's value in the layer before,
                // except at the first transition.
                let mut acc: i128 = if layer == 0 {
                    0
                } else {
                    x as i128
                };
                let ghost carried = acc as int;
                let mut k: usize = 0;
                while k < n
                    invariant
                        self.wf(),
                        n == self.width(),
                        n <= 0x1_0000_0000,
                        total == self.params().len(),
                        start + n <= total,
                        k <= n,
                        abs(carried) <= 0x8000_0000_0000_0000,
                        acc == carried + block_sum(self.params(), start as int, k as nat, x as int),
                        abs(acc as int) <= 0x8000_0000_0000_0000 + k * 0x8000_0000_0001_0000,
                    decreases n - k,
                {
                    let s: Synapse = self.synapses[start + k];
                    assert(s == self.params()[start + k]);
                    assert(s.in_unit_range());
                    let t: i128 = mul_fixed(x, s.weight);
                    acc = acc + t + s.bias as i128;
                    k += 1;
                }
                let v: i64 = sigmoid(saturate(acc));
                next.push(v);
                i += 1;
            }
            proof {
                assert(ints(next@) =~= self.layer(input0, (layer + 1) as nat));
            }
            layers.push(next);
            layer += 1;
        }
        proof {
            assert(rows(layers@).len() == self.depth());
            assert forall|l: int| 0 <= l < rows(layers@).len() implies ints(
                #[trigger] rows(layers@)[l],
            ) == self.layer(input0, l as nat) by {
                assert(rows(layers@)[l] == layers@[l]@);
            }
            assert forall|l: int| 0 <= l < layers@.len() implies (#[trigger] layers@[l])@.len()
                == self.width() by {
                self.lemma_layer_shape(input0, l as nat);
                assert(ints(layers@[l]@).len() == layers@[l]@.len());
            }
            assert forall|l: int, i: int|
                1 <= l < layers@.len() && 0 <= i < self.width() implies -ONE
                < #[trigger] layers@[l]@[i] < ONE by {
                self.lemma_layer_shape(input0, l as nat);
                assert(ints(layers@[l]@)[i] == layers@[l]@[i]);
            }
            assert(layers@[0]@ =~= input0) by {
                assert forall|i: int| 0 <= i < input0.len() implies layers@[0]@[i] == input0[i] by {
                    assert(ints(layers@[0]@)[i] == ints(input0)[i]);
                }
            }
        }
        layers
    }

    /// The network that the visualisation shows: `LAYER_COUNT` layers of
    /// `LAYER_SIZE` neurons, with every parameter drawn uniformly from
    /// `[-1.0, 1.0]`.
    pub fn new() -> (b: Brain)
        ensures
            b.wf(),
            b.width() == LAYER_SIZE,
            b.depth() == LAYER_COUNT,
            forall|k: int| 0 <= k < b.params().len() ==> (#[trigger] b.params()[k]).in_unit_range(),
    {
        Brain::random(LAYER_SIZE, LAYER_COUNT)
    }

    /// A network of `layer_count` layers of `layer_size` neurons, with every
    /// parameter drawn uniformly from `[-1.0, 1.0]`: for each connection in
    /// turn a weight, then a bias, handed to `from_draws`.
    pub fn random(layer_size: usize, layer_count: usize) -> (b: Brain)
        requires
            layer_size >= 1,
            layer_count >= 1,
            2 * synapse_count(layer_size as nat, layer_count as nat) <= usize::MAX,
        ensures
            b.wf(),
            b.width() == layer_size,
            b.depth() == layer_count,
            forall|k: int| 0 <= k < b.params().len() ==> (#[trigger] b.params()[k]).in_unit_range(),
    {
        proof {
            let n = layer_size as int;
            let c = layer_count as int;
            assert((c - 1) * n <= n * n * (c - 1)) by (nonlinear_arith)
                requires
                    1 <= n,
                    1 <= c,
            ;
            assert((c - 1) * n * n == n * n * (c - 1)) by (nonlinear_arith);
        }
        let num: usize = (layer_count - 1) * layer_size * layer_size;
        let mut rng = rand::thread_rng();
        let mut draws: Vec<i64> = Vec::new();
        let mut j: usize = 0;
        while j < num
            invariant
                j <= num,
                2 * num <= usize::MAX,
                draws@.len() == 2 * j,
                forall|i: int| 0 <= i < draws@.len() ==> -ONE <= #[trigger] draws@[i] <= ONE,
            decreases num - j,
        {
            let weight: i64 = draw_between(&mut rng, -ONE, ONE);
            draws.push(weight);
            let bias: i64 = draw_between(&mut rng, -ONE, ONE);
            draws.push(bias);
            j += 1;
        }
        Brain::from_draws(layer_size, layer_count, &draws)
    }

    /// The network of `layer_count` layers of `layer_size` neurons built from
    /// a run of draws: connection `k` takes draw `2k` as its weight and draw
    /// `2k + 1` as its bias.
    pub fn from_draws(layer_size: usize, layer_count: usize, draws: &Vec<i64>) -> (b: Brain)
        requires
            layer_size >= 1,
            layer_count >= 1,
            draws@.len() == 2 * synapse_count(layer_size as nat, layer_count as nat),
            forall|i: int| 0 <= i < draws@.len() ==> -ONE <= #[trigger] draws@[i] <= ONE,
        ensures
            b.wf(),
            b.width() == layer_size,
            b.depth() == layer_count,
            forall|k: int|
                0 <= k < b.params().len() ==> (#[trigger] b.params()[k]).weight == draws@[2 * k]
                    && b.params()[k].bias == draws@[2 * k + 1],
    {
        let len: usize = draws.len();
        proof {
            let n = layer_size as int;
            let c = layer_count as int;
            assert((c - 1) * n <= n * n * (c - 1)) by (nonlinear_arith)
                requires
                    1 <= n,
                    1 <= c,
            ;
            assert((c - 1) * n * n == n * n * (c - 1)) by (nonlinear_arith);
        }
        let num: usize = (layer_count - 1) * layer_size * layer_size;
        let mut synapses: Vec<Synapse> = Vec::new();
        let mut j: usize = 0;
        while j < num
            invariant
                j <= num,
                len == draws@.len() == 2 * num,
                synapses@.len() == j,
                forall|i: int| 0 <= i < draws@.len() ==> -ONE <= #[trigger] draws@[i] <= ONE,
                forall|k: int|
                    0 <= k < j ==> (#[trigger] synapses@[k]).weight == draws@[2 * k]
                        && synapses@[k].bias == draws@[2 * k + 1],
            decreases num - j,
        {
            let weight: i64 = draws[2 * j];
            let bias: i64 = draws[2 * j + 1];
            synapses.push(Synapse { weight, bias });
            j += 1;
        }
        let b = Brain { layer_size, layer_count, synapses };
        proof {
            assert forall|k: int| 0 <= k < b.params().len() implies (#[trigger] b.params()[k]).in_unit_range() by {
                assert(-ONE <= draws@[2 * k] <= ONE);
                assert(-ONE <= draws@[2 * k + 1] <= ONE);
            }
        }
        b
    }

    /// The network of `layer_count` layers of `layer_size` neurons with the
    /// given connections, block after block; `None` where a dimension is zero,
    /// the number of connections does not fit the topology, or a parameter
    /// lies outside `[-1.0, 1.0]`.
    pub fn from_synapses(layer_size: usize, layer_count: usize, synapses: Vec<Synapse>) -> (r:
        Option<Brain>)
        ensures
            r is Some <==> {
                &&& layer_size >= 1
                &&& layer_count >= 1
                &&& synapses@.len() == synapse_count(layer_size as nat, layer_count as nat)
                &&& forall|k: int|
                    0 <= k < synapses@.len() ==> (#[trigger] synapses@[k]).in_unit_range()
            },
            r matches Some(b) ==> {
                &&& b.wf()
                &&& b.width() == layer_size
                &&& b.depth() == layer_count
                &&& b.params() == synapses@
            },
    {
        if layer_size == 0 || layer_count == 0 {
            return None;
        }
        let ghost want = synapse_count(layer_size as nat, layer_count as nat);
        proof {
            let n = layer_size as int;
            let c = layer_count as int;
            assert((c - 1) * n * n == n * n * (c - 1)) by (nonlinear_arith);
            assert(0 <= (c - 1) * n) by (nonlinear_arith)
                requires
                    1 <= n,
                    1 <= c,
            ;
            assert((c - 1) * n <= (c - 1) * n * n) by (nonlinear_arith)
                requires
                    1 <= n,
                    1 <= c,
            ;
        }
        let len: usize = synapses.len();
        let num: usize = match (layer_count - 1).checked_mul(layer_size) {
            Some(m) => match m.checked_mul(layer_size) {
                Some(t) => t,
                None => {
                    return None;
                },
            },
            None => {
                return None;
            },
        };
        if len != num {
            return None;
        }
        let mut j: usize = 0;
        while j < synapses.len()
            invariant
                j <= synapses@.len(),
                forall|k: int| 0 <= k < j ==> (#[trigger] synapses@[k]).in_unit_range(),
            decreases synapses@.len() - j,
        {
            let s: Synapse = synapses[j];
            if s.weight < -ONE || s.weight > ONE || s.bias < -ONE || s.bias > ONE {
                return None;
            }
            j += 1;
        }
        Some(Brain { layer_size, layer_count, synapses })
    }

    /// Neurons in each layer.
    pub fn layer_size(&self) -> (r: usize)
        ensures
            r == self.width(),
    {
        self.layer_size
    }

    /// Layers, the input layer included.
    pub fn layer_count(&self) -> (r: usize)
        ensures
            r == self.depth(),
    {
        self.layer_count
    }

    /// The connections, block after block.
    pub fn synapses(&self) -> (r: &Vec<Synapse>)
        ensures
            r@ == self.params(),
    {
        &self.synapses
    }
}

} // verus!

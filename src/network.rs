use vstd::prelude::*;

use crate::graph::Graph;

verus! {

/// The parameters of one neuron, as node indices of a graph: one weight per
/// input of its layer, and a bias.
pub struct Neuron {
    pub weights: Vec<usize>,
    pub bias: usize,
}

/// A layer of a feedforward network past the input layer.
pub struct Layer {
    pub neurons: Vec<Neuron>,
}

/// A neuron's parameters in order: its weights, then its bias.
pub open spec fn neuron_params(n: Neuron) -> Seq<usize> {
    n.weights@.push(n.bias)
}

/// The parameters of a sequence of neurons, one neuron after another.
pub open spec fn layer_params(ns: Seq<Neuron>) -> Seq<usize>
    decreases ns.len(),
{
    if ns.len() == 0 {
        seq![]
    } else {
        layer_params(ns.drop_last()) + neuron_params(ns.last())
    }
}

/// The parameters of a network, one layer after another.
pub open spec fn network_params(ls: Seq<Layer>) -> Seq<usize>
    decreases ls.len(),
{
    if ls.len() == 0 {
        seq![]
    } else {
        network_params(ls.drop_last()) + layer_params(ls.last().neurons@)
    }
}

/// The layers have the widths that `shape` gives: `shape[0]` inputs, then
/// layer `i` has `shape[i + 1]` neurons of `shape[i]` weights each.
pub open spec fn shaped(ls: Seq<Layer>, shape: Seq<usize>) -> bool {
    &&& ls.len() + 1 == shape.len()
    &&& forall|i: int| 0 <= i < ls.len() ==> (#[trigger] ls[i]).neurons@.len() == shape[i + 1]
    &&& forall|i: int, k: int|
        0 <= i < ls.len() && 0 <= k < ls[i].neurons@.len() ==> (
        #[trigger] ls[i].neurons@[k]).weights@.len() == shape[i]
}

/// How many parameters a network of this shape has: each layer past the
/// first has, for every neuron, one weight per neuron of the layer before
/// and one bias.
pub open spec fn param_total(shape: Seq<usize>) -> int
    decreases shape.len(),
{
    if shape.len() < 2 {
        0
    } else {
        param_total(shape.drop_last()) + shape.last() * (shape[shape.len() - 2] + 1)
    }
}

/// The indices in `ids` are those that follow `start` one by one.
pub open spec fn consecutive(ids: Seq<usize>, start: int) -> bool {
    forall|k: int| 0 <= k < ids.len() ==> ids[k] == start + k
}

/// `after` is `before` with one new leaf for each of `vals`, in order.
pub open spec fn extended_by<T: Copy>(before: Graph<T>, after: Graph<T>, vals: Seq<T>) -> bool {
    &&& after.wf()
    &&& after.zero() == before.zero()
    &&& after.values() == before.values() + vals
    &&& after.grads() == before.grads() + Seq::new(vals.len(), |k: int| before.zero())
    &&& after.parent_lists() == before.parent_lists() + Seq::new(
        vals.len(),
        |k: int| Seq::<(T, usize)>::empty(),
    )
}

proof fn lemma_param_total_step(shape: Seq<usize>, i: int)
    requires
        1 <= i < shape.len(),
    ensures
        param_total(shape.take(i + 1)) == param_total(shape.take(i)) + shape[i] * (shape[i - 1]
            + 1),
{
    assert(shape.take(i + 1).drop_last() =~= shape.take(i));
}

proof fn lemma_param_total_mono(shape: Seq<usize>, i: int)
    requires
        0 <= i <= shape.len(),
    ensures
        0 <= param_total(shape.take(i)) <= param_total(shape),
    decreases shape.len() - i,
{
    lemma_param_total_nonneg(shape.take(i));
    if i == shape.len() {
        assert(shape.take(i) =~= shape);
        lemma_param_total_nonneg(shape);
    } else {
        lemma_param_total_mono(shape, i + 1);
        if i == 0 {
            assert(shape.take(0).len() == 0);
            assert(shape.take(1).len() == 1);
        } else {
            lemma_param_total_step(shape, i);
            let a = shape[i] as int;
            let b = shape[i - 1] as int;
            assert(a * (b + 1) >= 0) by (nonlinear_arith)
                requires
                    a >= 0,
                    b >= 0,
            ;
        }
    }
}

proof fn lemma_param_total_nonneg(shape: Seq<usize>)
    ensures
        param_total(shape) >= 0,
    decreases shape.len(),
{
    if shape.len() >= 2 {
        lemma_param_total_nonneg(shape.drop_last());
        let a = shape.last() as int;
        let b = shape[shape.len() - 2] as int;
        assert(a * (b + 1) >= 0) by (nonlinear_arith)
            requires
                a >= 0,
                b >= 0,
        ;
    }
}

proof fn lemma_extended_leaf<T: Copy>(
    a: Graph<T>,
    b: Graph<T>,
    c: Graph<T>,
    vals: Seq<T>,
    x: T,
)
    requires
        extended_by(a, b, vals),
        c.wf(),
        c.zero() == b.zero(),
        c.values() == b.values().push(x),
        c.grads() == b.grads().push(b.zero()),
        c.parent_lists() == b.parent_lists().push(seq![]),
    ensures
        extended_by(a, c, vals.push(x)),
{
    assert(c.values() =~= a.values() + vals.push(x));
    assert(c.grads() =~= a.grads() + Seq::new(vals.push(x).len(), |k: int| a.zero()));
    assert(c.parent_lists() =~= a.parent_lists() + Seq::new(
        vals.push(x).len(),
        |k: int| Seq::<(T, usize)>::empty(),
    ));
}

proof fn lemma_extended_trans<T: Copy>(
    a: Graph<T>,
    b: Graph<T>,
    c: Graph<T>,
    v1: Seq<T>,
    v2: Seq<T>,
)
    requires
        extended_by(a, b, v1),
        extended_by(b, c, v2),
    ensures
        extended_by(a, c, v1 + v2),
{
    assert(c.values() =~= a.values() + (v1 + v2));
    assert(c.grads() =~= a.grads() + Seq::new((v1 + v2).len(), |k: int| a.zero()));
    assert(c.parent_lists() =~= a.parent_lists() + Seq::new(
        (v1 + v2).len(),
        |k: int| Seq::<(T, usize)>::empty(),
    ));
}

/// Adds one neuron of `width` weights: new leaves holding
/// `init[start..start + width + 1]`, the last of them the bias.
fn new_neuron<T: Copy>(g: &mut Graph<T>, width: usize, init: &Vec<T>, start: usize) -> (n: Neuron)
    requires
        old(g).wf(),
        start + width < init@.len(),
    ensures
        extended_by(*old(g), *final(g), init@.subrange(start as int, start + width + 1)),
        n.weights@.len() == width,
        consecutive(neuron_params(n), old(g).len() as int),
{
    let total = init.len();
    let mut weights: Vec<usize> = Vec::new();
    let mut j: usize = 0;
    proof {
        assert(g.values() =~= old(g).values() + init@.subrange(start as int, start as int));
        assert(g.grads() =~= old(g).grads() + Seq::new(0, |k: int| old(g).zero()));
        assert(g.parent_lists() =~= old(g).parent_lists() + Seq::new(
            0,
            |k: int| Seq::<(T, usize)>::empty(),
        ));
    }
    while j < width
        invariant
            j <= width,
            total == init@.len(),
            start + width < init@.len(),
            extended_by(*old(g), *g, init@.subrange(start as int, start + j)),
            weights@.len() == j,
            consecutive(weights@, old(g).len() as int),
        decreases width - j,
    {
        let ghost prev = *g;
        let x = init[start + j];
        let id = g.leaf(x);
        weights.push(id);
        proof {
            lemma_extended_leaf(*old(g), prev, *g, init@.subrange(start as int, start + j), x);
            assert(init@.subrange(start as int, start + j).push(x) =~= init@.subrange(
                start as int,
                start + j + 1,
            ));
        }
        j = j + 1;
    }
    let ghost prev = *g;
    let x = init[start + width];
    let bias = g.leaf(x);
    proof {
        lemma_extended_leaf(*old(g), prev, *g, init@.subrange(start as int, start + width), x);
        assert(init@.subrange(start as int, start + width).push(x) =~= init@.subrange(
            start as int,
            start + width + 1,
        ));
    }
    Neuron { weights, bias }
}

proof fn lemma_consecutive_concat(a: Seq<usize>, b: Seq<usize>, start: int)
    requires
        consecutive(a, start),
        consecutive(b, start + a.len()),
    ensures
        consecutive(a + b, start),
{
    assert forall|k: int| 0 <= k < (a + b).len() implies (a + b)[k] == start + k by {
        if k >= a.len() {
            assert((a + b)[k] == b[k - a.len()]);
        }
    }
}

proof fn lemma_next_block(k: int, count: int, width: int)
    requires
        0 <= k < count,
        0 <= width,
    ensures
        (k + 1) * (width + 1) == k * (width + 1) + width + 1,
        (k + 1) * (width + 1) <= count * (width + 1),
{
    assert((k + 1) * (width + 1) == k * (width + 1) + width + 1) by (nonlinear_arith);
    assert((k + 1) * (width + 1) <= count * (width + 1)) by (nonlinear_arith)
        requires
            k + 1 <= count,
            0 <= width,
    ;
}

/// Adds a layer of `count` neurons of `width` weights each, taking their
/// initial values from `init` at `start` on, neuron after neuron.
fn new_layer<T: Copy>(
    g: &mut Graph<T>,
    count: usize,
    width: usize,
    init: &Vec<T>,
    start: usize,
) -> (l: Layer)
    requires
        old(g).wf(),
        start + count * (width + 1) <= init@.len(),
    ensures
        extended_by(*old(g), *final(g), init@.subrange(start as int, start + count * (width + 1))),
        l.neurons@.len() == count,
        forall|k: int| 0 <= k < count ==> (#[trigger] l.neurons@[k]).weights@.len() == width,
        consecutive(layer_params(l.neurons@), old(g).len() as int),
        layer_params(l.neurons@).len() == count * (width + 1),
{
    let total = init.len();
    let mut neurons: Vec<Neuron> = Vec::new();
    let mut k: usize = 0;
    let mut c: usize = start;
    proof {
        assert(g.values() =~= old(g).values() + init@.subrange(start as int, start as int));
        assert(g.grads() =~= old(g).grads() + Seq::new(0, |k: int| old(g).zero()));
        assert(g.parent_lists() =~= old(g).parent_lists() + Seq::new(
            0,
            |k: int| Seq::<(T, usize)>::empty(),
        ));
        assert(0 * (width + 1) == 0);
    }
    while k < count
        invariant
            k <= count,
            total == init@.len(),
            start + count * (width + 1) <= init@.len(),
            c == start + k * (width + 1),
            extended_by(*old(g), *g, init@.subrange(start as int, c as int)),
            neurons@.len() == k,
            forall|i: int| 0 <= i < k ==> (#[trigger] neurons@[i]).weights@.len() == width,
            consecutive(layer_params(neurons@), old(g).len() as int),
            layer_params(neurons@).len() == k * (width + 1),
        decreases count - k,
    {
        proof {
            lemma_next_block(k as int, count as int, width as int);
        }
        let ghost prev = *g;
        let n = new_neuron(g, width, init, c);
        proof {
            let a = init@.subrange(start as int, c as int);
            let b = init@.subrange(c as int, c + width + 1);
            lemma_extended_trans(*old(g), prev, *g, a, b);
            assert(a + b =~= init@.subrange(start as int, c + width + 1));
            assert(neurons@.push(n).drop_last() =~= neurons@);
            lemma_consecutive_concat(layer_params(neurons@), neuron_params(n), old(g).len() as int);
        }
        neurons.push(n);
        c = c + width + 1;
        k = k + 1;
    }
    Layer { neurons }
}

/// Adds the parameters of a network of the given shape to `g`, as new
/// leaves holding the values of `init` in order: layer after layer, and in
/// each layer neuron after neuron, a neuron's weights before its bias.
pub fn build_layers<T: Copy>(g: &mut Graph<T>, shape: &Vec<usize>, init: &Vec<T>) -> (layers: Vec<
    Layer,
>)
    requires
        old(g).wf(),
        shape@.len() >= 1,
        init@.len() == param_total(shape@),
    ensures
        extended_by(*old(g), *final(g), init@),
        shaped(layers@, shape@),
        consecutive(network_params(layers@), old(g).len() as int),
        network_params(layers@).len() == init@.len(),
{
    let base = g.size();
    let mut layers: Vec<Layer> = Vec::new();
    let mut i: usize = 1;
    let mut c: usize = 0;
    proof {
        assert(g.values() =~= old(g).values() + init@.subrange(0, 0));
        assert(g.grads() =~= old(g).grads() + Seq::new(0, |k: int| old(g).zero()));
        assert(g.parent_lists() =~= old(g).parent_lists() + Seq::new(
            0,
            |k: int| Seq::<(T, usize)>::empty(),
        ));
        assert(shape@.take(1).len() == 1);
    }
    while i < shape.len()
        invariant
            1 <= i <= shape@.len(),
            base == old(g).len(),
            init@.len() == param_total(shape@),
            c == param_total(shape@.take(i as int)),
            extended_by(*old(g), *g, init@.subrange(0, c as int)),
            layers@.len() + 1 == i,
            forall|j: int| 0 <= j < layers@.len() ==> (#[trigger] layers@[j]).neurons@.len() == shape@[j + 1],
            forall|j: int, k: int|
                0 <= j < layers@.len() && 0 <= k < layers@[j].neurons@.len() ==> (
                #[trigger] layers@[j].neurons@[k]).weights@.len() == shape@[j],
            consecutive(network_params(layers@), base as int),
            network_params(layers@).len() == c,
        decreases shape@.len() - i,
    {
        proof {
            lemma_param_total_step(shape@, i as int);
            lemma_param_total_mono(shape@, i + 1);
        }
        let ghost prev = *g;
        let layer = new_layer(g, shape[i], shape[i - 1], init, c);
        let next = g.size() - base;
        proof {
            let a = init@.subrange(0, c as int);
            let b = init@.subrange(c as int, next as int);
            lemma_extended_trans(*old(g), prev, *g, a, b);
            assert(a + b =~= init@.subrange(0, next as int));
            assert(layers@.push(layer).drop_last() =~= layers@);
            lemma_consecutive_concat(network_params(layers@), layer_params(layer.neurons@), base as int);
        }
        layers.push(layer);
        c = next;
        i = i + 1;
    }
    proof {
        assert(shape@.take(i as int) =~= shape@);
        assert(init@.subrange(0, c as int) =~= init@);
    }
    layers
}

/// The number of parameters of a network of the given shape, or `None`
/// when it does not fit in a `usize`.
pub fn param_count(shape: &Vec<usize>) -> (r: Option<usize>)
    ensures
        r.is_some() <==> param_total(shape@) <= usize::MAX,
        r.is_some() ==> r.unwrap() == param_total(shape@),
{
    if shape.len() < 2 {
        return Some(0);
    }
    let mut total: usize = 0;
    let mut i: usize = 1;
    proof {
        assert(shape@.take(1).len() == 1);
    }
    while i < shape.len()
        invariant
            1 <= i <= shape@.len(),
            total == param_total(shape@.take(i as int)),
        decreases shape@.len() - i,
    {
        proof {
            lemma_param_total_step(shape@, i as int);
            lemma_param_total_mono(shape@, i + 1);
            lemma_param_total_mono(shape@, i as int);
        }
        let n = shape[i];
        let w = shape[i - 1];
        let nw = match n.checked_mul(w) {
            Some(x) => x,
            None => {
                proof {
                    assert(n * (w + 1) == n * w + n) by (nonlinear_arith);
                }
                return None;
            },
        };
        let block = match nw.checked_add(n) {
            Some(x) => x,
            None => {
                proof {
                    assert(n * (w + 1) == n * w + n) by (nonlinear_arith);
                }
                return None;
            },
        };
        proof {
            assert(n * (w + 1) == n * w + n) by (nonlinear_arith);
        }
        total = match total.checked_add(block) {
            Some(x) => x,
            None => {
                return None;
            },
        };
        i = i + 1;
    }
    proof {
        assert(shape@.take(i as int) =~= shape@);
    }
    Some(total)
}

/// Every parameter of the network, in order: layer after layer, neuron
/// after neuron, each neuron's weights and then its bias.
pub fn params(layers: &Vec<Layer>) -> (r: Vec<usize>)
    ensures
        r@ == network_params(layers@),
{
    let mut out: Vec<usize> = Vec::new();
    let mut i: usize = 0;
    while i < layers.len()
        invariant
            i <= layers@.len(),
            out@ == network_params(layers@.take(i as int)),
        decreases layers@.len() - i,
    {
        let ns = &layers[i].neurons;
        let ghost before = out@;
        let mut k: usize = 0;
        while k < ns.len()
            invariant
                k <= ns@.len(),
                out@ == before + layer_params(ns@.take(k as int)),
            decreases ns@.len() - k,
        {
            let n = &ns[k];
            let ghost mid = out@;
            let mut j: usize = 0;
            while j < n.weights.len()
                invariant
                    j <= n.weights@.len(),
                    out@ == mid + n.weights@.take(j as int),
                decreases n.weights@.len() - j,
            {
                out.push(n.weights[j]);
                proof {
                    assert(n.weights@.take(j as int).push(n.weights@[j as int]) =~= n.weights@.take(
                        j + 1,
                    ));
                }
                j = j + 1;
            }
            out.push(n.bias);
            proof {
                assert(ns@.take(k + 1).drop_last() =~= ns@.take(k as int));
                assert(n.weights@.take(j as int) =~= n.weights@);
                assert(out@ =~= before + layer_params(ns@.take(k + 1)));
            }
            k = k + 1;
        }
        proof {
            assert(layers@.take(i + 1).drop_last() =~= layers@.take(i as int));
            assert(ns@.take(k as int) =~= ns@);
            assert(out@ =~= network_params(layers@.take(i + 1)));
        }
        i = i + 1;
    }
    proof {
        assert(layers@.take(i as int) =~= layers@);
    }
    out
}

/// The full shape of a network: its input width, the widths of its hidden
/// layers, and its output width.
pub fn full_shape(inputs: usize, hidden: &Vec<usize>, outputs: usize) -> (r: Vec<usize>)
    ensures
        r@ == seq![inputs] + hidden@ + seq![outputs],
{
    let mut r: Vec<usize> = Vec::new();
    r.push(inputs);
    let mut i: usize = 0;
    while i < hidden.len()
        invariant
            i <= hidden@.len(),
            r@ == seq![inputs] + hidden@.take(i as int),
        decreases hidden@.len() - i,
    {
        r.push(hidden[i]);
        proof {
            assert(hidden@.take(i as int).push(hidden@[i as int]) =~= hidden@.take(i + 1));
        }
        i = i + 1;
    }
    r.push(outputs);
    proof {
        assert(hidden@.take(i as int) =~= hidden@);
    }
    r
}

} // verus!

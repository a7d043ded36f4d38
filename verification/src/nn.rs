//! Support for a model whose parameters are leaves of the graph.

use vstd::prelude::*;
use crate::double::ZERO;
use crate::value::{Graph, Node, Prev};

verus! {

/// The shape of one layer of a feed-forward network.
#[derive(Clone, Copy, Debug, PartialEq, Eq, Structural)]
pub struct LayerShape {
    /// The number of inputs of each neuron.
    pub n_inputs: usize,
    /// The number of neurons.
    pub n_outputs: usize,
    /// Whether the neurons end in a rectifier.
    pub non_lin: bool,
}

/// The shape of layer `i` of a network with `n_inputs` inputs and layers of
/// the widths `n_outputs`: a layer takes what the layer before it puts out,
/// and every layer but the last ends in a rectifier.
pub open spec fn layer_shape(n_inputs: usize, n_outputs: Seq<usize>, i: int) -> LayerShape {
    LayerShape {
        n_inputs: if i == 0 {
            n_inputs
        } else {
            n_outputs[i - 1]
        },
        n_outputs: n_outputs[i],
        non_lin: i != n_outputs.len() - 1,
    }
}

/// The shapes of the layers of a network with `n_inputs` inputs and layers
/// of the widths `n_outputs`, first layer first.
pub fn layer_shapes(n_inputs: usize, n_outputs: &Vec<usize>) -> (shapes: Vec<LayerShape>)
    ensures
        shapes@.len() == n_outputs@.len(),
        forall|i: int|
            0 <= i < shapes@.len() ==> #[trigger] shapes@[i] == layer_shape(n_inputs, n_outputs@, i),
{
    let mut shapes: Vec<LayerShape> = Vec::new();
    let mut width: usize = n_inputs;
    let mut i: usize = 0;
    while i < n_outputs.len()
        invariant
            i <= n_outputs@.len(),
            shapes@.len() == i,
            width == if i == 0 {
                n_inputs
            } else {
                n_outputs@[i - 1]
            },
            forall|j: int| 0 <= j < i ==> #[trigger] shapes@[j] == layer_shape(n_inputs, n_outputs@, j),
        decreases n_outputs@.len() - i,
    {
        let next = n_outputs[i];
        shapes.push(LayerShape { n_inputs: width, n_outputs: next, non_lin: i + 1 != n_outputs.len() });
        width = next;
        i += 1;
    }
    shapes
}

/// Whether `parameters` lists node `i`.
pub open spec fn lists(parameters: Seq<Prev>, i: int) -> bool {
    exists|k: int| 0 <= k < parameters.len() && (#[trigger] parameters[k]).id == i
}

/// Sets the gradient of every listed node to zero, as is done between two
/// training steps. Nothing else changes.
pub fn zero_grad(g: &mut Graph, parameters: &Vec<Prev>)
    requires
        old(g).wf(),
        forall|k: int| 0 <= k < parameters@.len() ==> (#[trigger] parameters@[k]).id < old(g)@.len(),
    ensures
        final(g).wf(),
        final(g)@.len() == old(g)@.len(),
        forall|i: int|
            0 <= i < old(g)@.len() ==> #[trigger] final(g)@[i] == if lists(parameters@, i) {
                Node { grad: ZERO, ..old(g)@[i] }
            } else {
                old(g)@[i]
            },
{
    let mut k: usize = 0;
    while k < parameters.len()
        invariant
            k <= parameters@.len(),
            g.wf(),
            g@.len() == old(g)@.len(),
            forall|j: int| 0 <= j < parameters@.len() ==> (#[trigger] parameters@[j]).id < old(g)@.len(),
            forall|i: int|
                0 <= i < old(g)@.len() ==> #[trigger] g@[i] == if lists(parameters@.take(k as int), i) {
                    Node { grad: ZERO, ..old(g)@[i] }
                } else {
                    old(g)@[i]
                },
        decreases parameters@.len() - k,
    {
        let ghost before = g@;
        let ghost done = parameters@.take(k as int);
        let p = parameters[k];
        p.value().set_grad(g, ZERO);
        k += 1;
        proof {
            let now = parameters@.take(k as int);
            assert(now =~= done.push(p));
            assert forall|i: int| 0 <= i < old(g)@.len() implies #[trigger] g@[i] == if lists(now, i) {
                Node { grad: ZERO, ..old(g)@[i] }
            } else {
                old(g)@[i]
            } by {
                if lists(done, i) {
                    let j = choose|j: int| 0 <= j < done.len() && (#[trigger] done[j]).id == i;
                    assert(now[j].id == i);
                }
                if i == p.id {
                    assert(now[done.len() as int].id == i);
                }
                if lists(now, i) && i != p.id {
                    let j = choose|j: int| 0 <= j < now.len() && (#[trigger] now[j]).id == i;
                    assert(done[j].id == i);
                }
            }
        }
    }
    assert(parameters@.take(k as int) =~= parameters@);
}

} // verus!

//! A forward-only network described by the widths of its dense layers.

use vstd::prelude::*;

verus! {

/// The shape of one dense layer: how many values it takes and how many it gives.
#[derive(Clone, Copy, Debug, PartialEq, Eq, Structural)]
pub struct Layer {
    pub inputs: usize,
    pub outputs: usize,
}

impl Layer {
    /// A dense layer from `inputs` values to `outputs` values.
    pub fn new_dense(inputs: usize, outputs: usize) -> (layer: Layer)
        ensures
            layer.inputs == inputs,
            layer.outputs == outputs,
    {
        Layer { inputs, outputs }
    }
}

/// An ordered stack of dense layer shapes.
pub struct NeuralNet {
    layers: Vec<Layer>,
}

/// The layer shapes that a list of widths describes: one layer for each
/// adjacent pair of widths, each width converted to `usize` as `as` does.
pub open spec fn shapes_of(format: Seq<i32>) -> Seq<Layer> {
    if format.len() == 0 {
        Seq::empty()
    } else {
        Seq::new(
            (format.len() - 1) as nat,
            |k: int| (Layer { inputs: format[k] as usize, outputs: format[k + 1] as usize }),
        )
    }
}

impl View for NeuralNet {
    type V = Seq<Layer>;

    closed spec fn view(&self) -> Seq<Layer> {
        self.layers@
    }
}

impl NeuralNet {
    /// Builds the network whose k-th layer maps `format[k]` values to
    /// `format[k + 1]` values. Fewer than two widths give no layer.
    pub fn from_format(format: &[i32]) -> (net: NeuralNet)
        ensures
            net@ == shapes_of(format@),
    {
        let mut layers: Vec<Layer> = Vec::new();
        let mut input_shape: i32 = 1;
        let mut i: usize = 0;
        while i < format.len()
            invariant
                i <= format.len(),
                i == 0 ==> layers@.len() == 0,
                i > 0 ==> layers@.len() == i - 1 && input_shape == format@[i - 1],
                forall|k: int|
                    0 <= k < layers@.len() ==> #[trigger] layers@[k] == (Layer {
                        inputs: format@[k] as usize,
                        outputs: format@[k + 1] as usize,
                    }),
            decreases format.len() - i,
        {
            if i > 0 {
                layers.push(Layer::new_dense(input_shape as usize, format[i] as usize));
            }
            input_shape = format[i];
            i += 1;
        }
        proof {
            assert(layers@ =~= shapes_of(format@));
        }
        NeuralNet { layers }
    }

    /// Wraps the given layers, in order.
    pub fn create(layers: Vec<Layer>) -> (net: NeuralNet)
        ensures
            net@ == layers@,
    {
        NeuralNet { layers }
    }

    /// The layers, first to last.
    pub fn layers(&self) -> (layers: &Vec<Layer>)
        ensures
            layers@ == self@,
    {
        &self.layers
    }
}

} // verus!

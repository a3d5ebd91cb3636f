//! A network: layers in order, each feeding the next.

use crate::layer::{has_shape, rows, NetLayer};
use vstd::prelude::*;

verus! {

/// Why an operation on a network was refused.
#[derive(Clone, Copy, Debug, PartialEq, Eq, Structural)]
pub enum NetError {
    /// A layer's input width differs from the output width of the layer before it.
    ShapeMismatch,
    /// The network has no layer.
    EmptyNetwork,
    /// There is no training sample.
    EmptyTrainingSet,
    /// An input or a target has the wrong length.
    LengthMismatch,
}

/// Each layer gives as many values as the next one takes.
pub open spec fn chained<L: NetLayer>(layers: Seq<L>) -> bool {
    forall|i: int|
        0 <= i < layers.len() - 1 ==> (#[trigger] layers[i]).spec_format().1 == layers[i
            + 1].spec_format().0
}

/// Whether `layer` may follow `layers`.
pub open spec fn accepts<L: NetLayer>(layers: Seq<L>, layer: L) -> bool {
    layers.len() == 0 || layers.last().spec_format().1 == layer.spec_format().0
}

/// Two networks of the same length whose layers have the same formats.
pub open spec fn same_formats<L: NetLayer>(a: Seq<L>, b: Seq<L>) -> bool {
    &&& a.len() == b.len()
    &&& forall|i: int| 0 <= i < a.len() ==> (#[trigger] a[i]).spec_format() == b[i].spec_format()
}

/// Two networks whose layers, index by index, have the same weights.
pub open spec fn same_weights<L: NetLayer>(a: Seq<L>, b: Seq<L>) -> bool {
    &&& a.len() == b.len()
    &&& forall|i: int| 0 <= i < a.len() ==> (#[trigger] a[i]).spec_weights() == b[i].spec_weights()
}

/// Two networks whose layers, index by index, cache the same outputs.
pub open spec fn same_caches<L: NetLayer>(a: Seq<L>, b: Seq<L>) -> bool {
    &&& a.len() == b.len()
    &&& forall|i: int|
        0 <= i < a.len() ==> (#[trigger] a[i]).spec_last_result() == b[i].spec_last_result()
}

/// Two networks whose layers, index by index, cache the same deltas.
pub open spec fn same_errors<L: NetLayer>(a: Seq<L>, b: Seq<L>) -> bool {
    &&& a.len() == b.len()
    &&& forall|i: int| 0 <= i < a.len() ==> (#[trigger] a[i]).spec_errors() == b[i].spec_errors()
}

/// Two layers that compute the same output from every input.
pub open spec fn same_function<L: NetLayer>(a: L, b: L) -> bool {
    forall|x: Seq<L::Scalar>| #[trigger] a.spec_foward(x) == b.spec_foward(x)
}

/// Two networks whose layers, index by index, compute the same.
pub open spec fn same_functions<L: NetLayer>(a: Seq<L>, b: Seq<L>) -> bool {
    &&& a.len() == b.len()
    &&& forall|i: int| 0 <= i < a.len() ==> same_function(#[trigger] a[i], b[i])
}

/// The output of the last of `layers` when `inputs` enters the first.
pub open spec fn forward_through<L: NetLayer>(layers: Seq<L>, inputs: Seq<L::Scalar>) -> Seq<
    L::Scalar,
>
    decreases layers.len(),
{
    if layers.len() == 0 {
        inputs
    } else {
        layers.last().spec_foward(forward_through(layers.drop_last(), inputs))
    }
}

/// The layers after a caching forward pass on `inputs`.
pub open spec fn cached_through<L: NetLayer>(layers: Seq<L>, inputs: Seq<L::Scalar>) -> Seq<L> {
    Seq::new(
        layers.len(),
        |i: int| layers[i].spec_cached(forward_through(layers.take(i), inputs)),
    )
}

/// Layer `i` after a backward pass against `expected`: the last layer takes
/// its delta from `expected`, every other one from the layer after it.
pub open spec fn delta_at<L: NetLayer>(layers: Seq<L>, expected: Seq<L::Scalar>, i: int) -> L
    decreases layers.len() - i,
{
    if i + 1 >= layers.len() {
        layers[i].spec_output_delta(expected)
    } else {
        let next = delta_at(layers, expected, i + 1);
        layers[i].spec_delta(next.spec_weights(), next.spec_errors())
    }
}

/// The layers after a backward pass against `expected`.
pub open spec fn deltas_through<L: NetLayer>(layers: Seq<L>, expected: Seq<L::Scalar>) -> Seq<L> {
    Seq::new(layers.len(), |i: int| delta_at(layers, expected, i))
}

/// The layers after the update pass: the first layer is left as it is,
/// every other one is updated with the cached output of the layer before it.
pub open spec fn updated_through<L: NetLayer>(layers: Seq<L>, l_rate: L::Scalar) -> Seq<L> {
    Seq::new(
        layers.len(),
        |i: int|
            if i == 0 {
                layers[0]
            } else {
                layers[i].spec_updated(layers[i - 1].spec_last_result(), l_rate)
            },
    )
}

/// The layers after one learning step: forward with caching, backward, update.
pub open spec fn learned<L: NetLayer>(
    layers: Seq<L>,
    inputs: Seq<L::Scalar>,
    expected: Seq<L::Scalar>,
    l_rate: L::Scalar,
) -> Seq<L> {
    updated_through(deltas_through(cached_through(layers, inputs), expected), l_rate)
}

/// The index of the sample that epoch `epoch` learns from, of `count` samples.
pub open spec fn sample_of(epoch: int, count: int) -> int {
    epoch % count
}

/// The layers after a first learning step on sample 0 and then `epochs`
/// steps, of which step `i` learns from sample `i` modulo the number of samples.
pub open spec fn trained<L: NetLayer>(
    layers: Seq<L>,
    samples: Seq<Seq<L::Scalar>>,
    targets: Seq<Seq<L::Scalar>>,
    l_rate: L::Scalar,
    epochs: nat,
) -> Seq<L>
    decreases epochs,
{
    if epochs == 0 {
        learned(layers, samples[0], targets[0], l_rate)
    } else {
        let k = sample_of(epochs - 1, samples.len() as int);
        learned(
            trained(layers, samples, targets, l_rate, (epochs - 1) as nat),
            samples[k],
            targets[k],
            l_rate,
        )
    }
}

/// Why a network refuses a sample of the given lengths, if it does.
pub open spec fn sample_fault<L: NetLayer>(layers: Seq<L>, inputs: nat, expected: nat) -> Option<
    NetError,
> {
    if layers.len() == 0 {
        Some(NetError::EmptyNetwork)
    } else if inputs != layers[0].spec_format().0 || expected != layers.last().spec_format().1 {
        Some(NetError::LengthMismatch)
    } else {
        None
    }
}

/// Why a network refuses an input of the given length, if it does.
pub open spec fn input_fault<L: NetLayer>(layers: Seq<L>, inputs: nat) -> Option<NetError> {
    if layers.len() == 0 {
        Some(NetError::EmptyNetwork)
    } else if inputs != layers[0].spec_format().0 {
        Some(NetError::LengthMismatch)
    } else {
        None
    }
}

/// What inference on `layers` returns for `inputs`: the fault, if there is
/// one, and else the output of the chain, which is as wide as the last layer.
pub open spec fn foward_outcome<L: NetLayer>(
    layers: Seq<L>,
    inputs: Seq<L::Scalar>,
    r: Result<Vec<L::Scalar>, NetError>,
) -> bool {
    match r {
        Ok(out) => {
            &&& input_fault(layers, inputs.len()) is None
            &&& out@ == forward_through(layers, inputs)
            &&& out@.len() == layers.last().spec_format().1
        },
        Err(e) => input_fault(layers, inputs.len()) == Some(e),
    }
}

/// Why a network refuses a training set, if it does. Sample 0 is needed
/// before any layer is, so a set without samples is named first.
pub open spec fn training_fault<L: NetLayer>(
    layers: Seq<L>,
    samples: Seq<Seq<L::Scalar>>,
    targets: Seq<Seq<L::Scalar>>,
) -> Option<NetError> {
    if samples.len() == 0 {
        Some(NetError::EmptyTrainingSet)
    } else if layers.len() == 0 {
        Some(NetError::EmptyNetwork)
    } else if samples.len() != targets.len() || exists|k: int|
        0 <= k < samples.len() && sample_fault(layers, samples[k].len(), targets[k].len())
            is Some {
        Some(NetError::LengthMismatch)
    } else {
        None
    }
}

/// An ordered sequence of layers in which each feeds the next.
pub struct ArtificialNetwork<L: NetLayer> {
    layers: Vec<L>,
}

impl<L: NetLayer> View for ArtificialNetwork<L> {
    type V = Seq<L>;

    closed spec fn view(&self) -> Seq<L> {
        self.layers@
    }
}

impl<L: NetLayer> ArtificialNetwork<L> {
    /// The invariant of a network: adjacent layers fit.
    pub open spec fn wf(&self) -> bool {
        chained(self@)
    }

    /// A network without layers.
    pub fn new() -> (net: Self)
        ensures
            net@.len() == 0,
            net.wf(),
    {
        ArtificialNetwork { layers: Vec::new() }
    }

    /// The layers, first to last.
    pub fn layers(&self) -> (layers: &Vec<L>)
        ensures
            layers@ == self@,
    {
        &self.layers
    }

    /// Whether `new_layer` may be appended: always to an empty network, else
    /// when it takes as many values as the last layer gives.
    pub fn verify_new_layer(&self, new_layer: &L) -> (ok: bool)
        ensures
            ok == accepts(self@, *new_layer),
    {
        let layer_len: usize = self.layers.len();
        if layer_len > 0 {
            let last_layer_format = self.layers[layer_len - 1].format();
            last_layer_format.1 == new_layer.format().0
        } else {
            true
        }
    }

    /// Appends `layer` if it fits; otherwise the network is left as it was.
    pub fn add_layer(&mut self, layer: L) -> (r: Result<(), NetError>)
        requires
            old(self).wf(),
        ensures
            final(self).wf(),
            accepts(old(self)@, layer) ==> r is Ok && final(self)@ == old(self)@.push(layer),
            !accepts(old(self)@, layer) ==> r == Err::<(), NetError>(NetError::ShapeMismatch)
                && final(self)@ == old(self)@,
    {
        if self.verify_new_layer(&layer) {
            self.layers.push(layer);
            Ok(())
        } else {
            Err(NetError::ShapeMismatch)
        }
    }

    /// Pure inference: `inputs` goes through every layer in order.
    pub fn foward(&self, inputs: &Vec<L::Scalar>) -> (r: Result<Vec<L::Scalar>, NetError>)
        requires
            self.wf(),
        ensures
            foward_outcome(self@, inputs@, r),
    {
        let n: usize = self.layers.len();
        if n == 0 {
            return Err(NetError::EmptyNetwork);
        }
        if inputs.len() != self.layers[0].format().0 {
            return Err(NetError::LengthMismatch);
        }
        proof {
            assert(self.layers@.take(1).drop_last() =~= Seq::<L>::empty());
            assert(forward_through(self.layers@.take(1).drop_last(), inputs@) == inputs@);
        }
        let mut cur: Vec<L::Scalar> = self.layers[0].foward(inputs);
        let mut i: usize = 1;
        while i < n
            invariant
                1 <= i <= n,
                n == self.layers@.len(),
                chained(self.layers@),
                cur@ == forward_through(self.layers@.take(i as int), inputs@),
                cur@.len() == self.layers@[i - 1].spec_format().1,
            decreases n - i,
        {
            proof {
                assert(self.layers@.take(i + 1).drop_last() =~= self.layers@.take(i as int));
            }
            cur = self.layers[i].foward(&cur);
            i += 1;
        }
        proof {
            assert(self.layers@.take(n as int) =~= self.layers@);
        }
        Ok(cur)
    }

    /// The forward pass of a learning step: as `foward`, and every layer
    /// caches the output that it gave in this pass. Weights, deltas and
    /// what each layer computes stay.
    fn foward_mut(&mut self, inputs: &Vec<L::Scalar>) -> (r: Vec<L::Scalar>)
        requires
            old(self).wf(),
            input_fault(old(self)@, inputs@.len()) is None,
        ensures
            final(self)@ == cached_through(old(self)@, inputs@),
            same_formats(final(self)@, old(self)@),
            same_weights(final(self)@, old(self)@),
            same_errors(final(self)@, old(self)@),
            same_functions(final(self)@, old(self)@),
            forall|j: int|
                0 <= j < old(self)@.len() ==> (#[trigger] final(self)@[j]).spec_last_result()
                    == forward_through(old(self)@.take(j + 1), inputs@),
            r@ == forward_through(old(self)@, inputs@),
    {
        let n: usize = self.layers.len();
        let ghost before = self.layers@;
        proof {
            assert(before.take(1).drop_last() =~= Seq::<L>::empty());
            assert(before.take(0) =~= Seq::<L>::empty());
            assert(forward_through(before.take(0), inputs@) == inputs@);
        }
        let mut cur: Vec<L::Scalar> = self.layers[0].foward_mut(inputs);
        let mut i: usize = 1;
        while i < n
            invariant
                1 <= i <= n,
                n == self.layers@.len(),
                n == before.len(),
                chained(before),
                forall|j: int|
                    0 <= j < i ==> #[trigger] self.layers@[j] == before[j].spec_cached(
                        forward_through(before.take(j), inputs@),
                    ),
                forall|j: int| i <= j < n ==> #[trigger] self.layers@[j] == before[j],
                same_formats(self.layers@, before),
                same_weights(self.layers@, before),
                same_errors(self.layers@, before),
                same_functions(self.layers@, before),
                forall|j: int|
                    0 <= j < i ==> (#[trigger] self.layers@[j]).spec_last_result()
                        == forward_through(before.take(j + 1), inputs@),
                cur@ == forward_through(before.take(i as int), inputs@),
                cur@.len() == before[i - 1].spec_format().1,
            decreases n - i,
        {
            proof {
                assert(before.take(i + 1).drop_last() =~= before.take(i as int));
            }
            let next = self.layers[i].foward_mut(&cur);
            cur = next;
            i += 1;
        }
        proof {
            assert(before.take(n as int) =~= before);
            assert(self.layers@ =~= cached_through(before, inputs@));
        }
        cur
    }

    /// The backward pass of a learning step: the last layer takes its delta
    /// from `expected`, then each layer before it, last to first, from the
    /// weights and the delta of the layer after it. Weights, cached outputs
    /// and what each layer computes stay.
    fn backward(&mut self, expected: &Vec<L::Scalar>)
        requires
            old(self).wf(),
            old(self)@.len() > 0,
            expected@.len() == old(self)@.last().spec_format().1,
        ensures
            final(self)@ == deltas_through(old(self)@, expected@),
            same_formats(final(self)@, old(self)@),
            same_weights(final(self)@, old(self)@),
            same_functions(final(self)@, old(self)@),
            forall|j: int|
                0 <= j < old(self)@.len() ==> (#[trigger] final(self)@[j]).spec_last_result()
                    == old(self)@[j].spec_last_result(),
    {
        let size: usize = self.layers.len();
        let ghost before = self.layers@;
        let mut delta: Vec<L::Scalar> = self.layers[size - 1].backward_output(expected);
        let mut ll_ws: Vec<Vec<L::Scalar>> = self.layers[size - 1].get_weights();
        let mut i: usize = size - 1;
        while i > 0
            invariant
                0 <= i < size,
                size == self.layers@.len(),
                size == before.len(),
                chained(before),
                forall|j: int|
                    i <= j < size ==> #[trigger] self.layers@[j] == delta_at(
                        before,
                        expected@,
                        j,
                    ),
                forall|j: int| 0 <= j < i ==> #[trigger] self.layers@[j] == before[j],
                same_formats(self.layers@, before),
                same_weights(self.layers@, before),
                same_functions(self.layers@, before),
                forall|j: int|
                    0 <= j < size ==> (#[trigger] self.layers@[j]).spec_last_result()
                        == before[j].spec_last_result(),
                delta@ == self.layers@[i as int].spec_errors(),
                rows(&ll_ws) == self.layers@[i as int].spec_weights(),
                has_shape(
                    rows(&ll_ws),
                    before[i as int].spec_format().1 as int,
                    before[i as int].spec_format().0 as int,
                ),
                delta@.len() == before[i as int].spec_format().1,
            decreases i,
        {
            i -= 1;
            let next = self.layers[i].backward(&ll_ws, &delta);
            delta = next;
            ll_ws = self.layers[i].get_weights();
        }
        proof {
            assert(self.layers@ =~= deltas_through(before, expected@));
        }
    }

    /// The update pass of a learning step: every layer but the first is
    /// updated with the cached output of the layer before it. The first
    /// layer is never updated. Cached outputs and deltas stay.
    fn update(&mut self, l_rate: L::Scalar)
        requires
            old(self).wf(),
        ensures
            final(self)@ == updated_through(old(self)@, l_rate),
            same_formats(final(self)@, old(self)@),
            same_caches(final(self)@, old(self)@),
            same_errors(final(self)@, old(self)@),
            old(self)@.len() > 0 ==> final(self)@[0] == old(self)@[0],
    {
        let n: usize = self.layers.len();
        let ghost before = self.layers@;
        let mut i: usize = 1;
        while i < n
            invariant
                1 <= i,
                n == self.layers@.len(),
                n == before.len(),
                chained(before),
                forall|j: int|
                    0 <= j < i && j < n ==> #[trigger] self.layers@[j] == updated_through(
                        before,
                        l_rate,
                    )[j],
                forall|j: int| i <= j < n ==> #[trigger] self.layers@[j] == before[j],
                same_formats(self.layers@, before),
                same_caches(self.layers@, before),
                same_errors(self.layers@, before),
            decreases n - i,
        {
            let previous_layer_result = self.layers[i - 1].get_last_result();
            self.layers[i].update_layer(&previous_layer_result, l_rate);
            i += 1;
        }
        proof {
            assert(self.layers@ =~= updated_through(before, l_rate));
        }
    }

    /// One learning step on one sample: forward with caching, backward,
    /// update, then a fresh forward pass, whose output is returned.
    ///
    /// Afterwards every layer caches the output that it gave in the forward
    /// pass, before any update, and the delta of the backward pass. The
    /// first layer is never updated: its weights are as before and it
    /// computes the same from every input. A refused sample leaves the
    /// network untouched.
    pub fn learn(&mut self, inputs: &Vec<L::Scalar>, expected: &Vec<L::Scalar>, l_rate: L::Scalar)
        -> (r: Result<Vec<L::Scalar>, NetError>)
        requires
            old(self).wf(),
        ensures
            final(self).wf(),
            same_formats(final(self)@, old(self)@),
            match r {
                Ok(out) => {
                    &&& sample_fault(old(self)@, inputs@.len(), expected@.len()) is None
                    &&& final(self)@ == learned(old(self)@, inputs@, expected@, l_rate)
                    &&& final(self)@[0].spec_weights() == old(self)@[0].spec_weights()
                    &&& forall|x: Seq<L::Scalar>| #[trigger]
                        final(self)@[0].spec_foward(x) == old(self)@[0].spec_foward(x)
                    &&& forall|j: int|
                        0 <= j < old(self)@.len() ==> (#[trigger] final(self)@[j]).spec_last_result()
                            == forward_through(old(self)@.take(j + 1), inputs@)
                    &&& forall|j: int|
                        0 <= j < old(self)@.len() ==> (#[trigger] final(self)@[j]).spec_errors()
                            == delta_at(
                            cached_through(old(self)@, inputs@),
                            expected@,
                            j,
                        ).spec_errors()
                    &&& out@ == forward_through(final(self)@, inputs@)
                    &&& out@.len() == final(self)@.last().spec_format().1
                },
                Err(e) => {
                    &&& sample_fault(old(self)@, inputs@.len(), expected@.len()) == Some(e)
                    &&& final(self)@ == old(self)@
                },
            },
    {
        let n: usize = self.layers.len();
        if n == 0 {
            return Err(NetError::EmptyNetwork);
        }
        if inputs.len() != self.layers[0].format().0 || expected.len() != self.layers[n
            - 1].format().1 {
            return Err(NetError::LengthMismatch);
        }
        let ghost before = self.layers@;
        self.foward_mut(inputs);
        let ghost cached = self.layers@;
        self.backward(expected);
        let ghost back = self.layers@;
        self.update(l_rate);
        proof {
            assert(same_function(self.layers@[0], before[0])) by {
                assert(same_function(cached[0], before[0]));
                assert(same_function(back[0], cached[0]));
            }
            assert forall|j: int| 0 <= j < n implies (#[trigger] self.layers@[j]).spec_errors()
                == delta_at(cached, expected@, j).spec_errors() by {
                assert(back[j] == delta_at(cached, expected@, j));
                assert(self.layers@[j].spec_errors() == back[j].spec_errors());
            }
            assert forall|j: int| 0 <= j < n implies (#[trigger] self.layers@[j]).spec_last_result()
                == forward_through(before.take(j + 1), inputs@) by {
                assert(self.layers@[j].spec_last_result() == back[j].spec_last_result());
                assert(back[j].spec_last_result() == cached[j].spec_last_result());
            }
        }
        self.foward(inputs)
    }

    /// Online training: one learning step on sample 0, then `epochs` steps,
    /// of which step `i` learns from sample `i` modulo the number of
    /// samples. Returns the output of the first step and the output of each
    /// of the `epochs` steps, in order. The first layer is never updated. A
    /// refused training set leaves the network untouched.
    pub fn train(
        &mut self,
        inputs: &Vec<Vec<L::Scalar>>,
        expected: &Vec<Vec<L::Scalar>>,
        l_rate: L::Scalar,
        epochs: usize,
    ) -> (r: Result<(Vec<L::Scalar>, Vec<Vec<L::Scalar>>), NetError>)
        requires
            old(self).wf(),
        ensures
            final(self).wf(),
            same_formats(final(self)@, old(self)@),
            match r {
                Ok((first, steps)) => {
                    &&& training_fault(old(self)@, rows(inputs), rows(expected)) is None
                    &&& final(self)@ == trained(
                        old(self)@,
                        rows(inputs),
                        rows(expected),
                        l_rate,
                        epochs as nat,
                    )
                    &&& final(self)@[0].spec_weights() == old(self)@[0].spec_weights()
                    &&& forall|x: Seq<L::Scalar>| #[trigger]
                        final(self)@[0].spec_foward(x) == old(self)@[0].spec_foward(x)
                    &&& first@ == forward_through(
                        trained(old(self)@, rows(inputs), rows(expected), l_rate, 0),
                        inputs@[0]@,
                    )
                    &&& steps@.len() == epochs
                    &&& forall|i: int|
                        0 <= i < epochs ==> (#[trigger] steps@[i])@ == forward_through(
                            trained(
                                old(self)@,
                                rows(inputs),
                                rows(expected),
                                l_rate,
                                (i + 1) as nat,
                            ),
                            inputs@[sample_of(i, inputs@.len() as int)]@,
                        )
                },
                Err(e) => {
                    &&& training_fault(old(self)@, rows(inputs), rows(expected)) == Some(e)
                    &&& final(self)@ == old(self)@
                },
            },
    {
        let ghost before = self.layers@;
        let ghost samples = rows(inputs);
        let ghost targets = rows(expected);
        let train_data_size: usize = inputs.len();
        if train_data_size == 0 {
            return Err(NetError::EmptyTrainingSet);
        }
        let n: usize = self.layers.len();
        if n == 0 {
            return Err(NetError::EmptyNetwork);
        }
        if expected.len() != train_data_size {
            return Err(NetError::LengthMismatch);
        }
        let input_width: usize = self.layers[0].format().0;
        let output_width: usize = self.layers[n - 1].format().1;
        let mut k: usize = 0;
        while k < train_data_size
            invariant
                k <= train_data_size,
                train_data_size == inputs@.len(),
                train_data_size == expected@.len(),
                samples == rows(inputs),
                targets == rows(expected),
                self.layers@ == before,
                chained(before),
                before.len() > 0,
                input_width == before[0].spec_format().0,
                output_width == before.last().spec_format().1,
                forall|j: int|
                    0 <= j < k ==> sample_fault(
                        before,
                        (#[trigger] samples[j]).len(),
                        targets[j].len(),
                    ) is None,
            decreases train_data_size - k,
        {
            if inputs[k].len() != input_width || expected[k].len() != output_width {
                proof {
                    assert(sample_fault(before, samples[k as int].len(), targets[k as int].len())
                        is Some);
                }
                return Err(NetError::LengthMismatch);
            }
            k += 1;
        }
        proof {
            assert(sample_fault(before, samples[0].len(), targets[0].len()) is None);
        }
        let first = match self.learn(&inputs[0], &expected[0], l_rate) {
            Ok(out) => out,
            Err(e) => {
                return Err(e);
            },
        };
        let mut steps: Vec<Vec<L::Scalar>> = Vec::new();
        let mut i: usize = 0;
        while i < epochs
            invariant
                i <= epochs,
                train_data_size == inputs@.len(),
                train_data_size == expected@.len(),
                train_data_size > 0,
                samples == rows(inputs),
                targets == rows(expected),
                before.len() > 0,
                chained(self.layers@),
                same_formats(self.layers@, before),
                self.layers@ == trained(before, samples, targets, l_rate, i as nat),
                self.layers@[0].spec_weights() == before[0].spec_weights(),
                same_function(self.layers@[0], before[0]),
                forall|j: int|
                    0 <= j < train_data_size ==> sample_fault(
                        before,
                        (#[trigger] samples[j]).len(),
                        targets[j].len(),
                    ) is None,
                steps@.len() == i,
                forall|j: int|
                    0 <= j < i ==> (#[trigger] steps@[j])@ == forward_through(
                        trained(before, samples, targets, l_rate, (j + 1) as nat),
                        inputs@[sample_of(j, train_data_size as int)]@,
                    ),
            decreases epochs - i,
        {
            let k: usize = sample_index(i, train_data_size);
            proof {
                assert(sample_fault(before, samples[k as int].len(), targets[k as int].len())
                    is None);
            }
            let ghost earlier = self.layers@;
            match self.learn(&inputs[k], &expected[k], l_rate) {
                Ok(out) => {
                    steps.push(out);
                },
                Err(e) => {
                    return Err(e);
                },
            }
            proof {
                assert(same_function(self.layers@[0], earlier[0]));
            }
            i += 1;
        }
        Ok((first, steps))
    }
}

/// The index of the sample that epoch `epoch` learns from, of `count`
/// samples: `epoch` modulo `count`.
pub fn sample_index(epoch: usize, count: usize) -> (r: usize)
    requires
        count > 0,
    ensures
        r == sample_of(epoch as int, count as int),
        r < count,
{
    epoch % count
}

/// Inference is a function of the network and the input alone: whatever
/// two calls of `foward` on the same layers and the same input return, they
/// return the same, be it an output or a fault.
pub proof fn lemma_foward_deterministic<L: NetLayer>(
    layers: Seq<L>,
    inputs: Seq<L::Scalar>,
    first: Result<Vec<L::Scalar>, NetError>,
    second: Result<Vec<L::Scalar>, NetError>,
)
    requires
        foward_outcome(layers, inputs, first),
        foward_outcome(layers, inputs, second),
    ensures
        first is Ok <==> second is Ok,
        first is Ok ==> first.unwrap()@ == second.unwrap()@,
        first is Err ==> first->Err_0 == second->Err_0,
{
}

/// Inference sees of each layer only what it computes: two networks whose
/// layers, index by index, compute the same give the same output for every
/// input, whatever the layers cached or held before.
pub proof fn lemma_forward_through_same_functions<L: NetLayer>(
    a: Seq<L>,
    b: Seq<L>,
    inputs: Seq<L::Scalar>,
)
    requires
        same_functions(a, b),
    ensures
        forward_through(a, inputs) == forward_through(b, inputs),
    decreases a.len(),
{
    if a.len() > 0 {
        assert forall|i: int| 0 <= i < a.drop_last().len() implies same_function(
            #[trigger] a.drop_last()[i],
            b.drop_last()[i],
        ) by {
            assert(same_function(a[i], b[i]));
        }
        lemma_forward_through_same_functions(a.drop_last(), b.drop_last(), inputs);
        assert(same_function(a[a.len() - 1], b[a.len() - 1]));
    }
}

/// A layer is accepted exactly when the longer network is chained again:
/// a network grown by `add_layer` alone never holds two layers that do not fit.
pub proof fn lemma_accepted_keeps_chained<L: NetLayer>(layers: Seq<L>, layer: L)
    requires
        chained(layers),
    ensures
        accepts(layers, layer) <==> chained(layers.push(layer)),
{
    let longer = layers.push(layer);
    if accepts(layers, layer) {
        assert forall|i: int| 0 <= i < longer.len() - 1 implies (#[trigger] longer[i]).spec_format().1
            == longer[i + 1].spec_format().0 by {
            if i < layers.len() - 1 {
                assert(layers[i].spec_format().1 == layers[i + 1].spec_format().0);
            }
        }
    }
    if chained(longer) && layers.len() > 0 {
        let i = layers.len() - 1;
        assert(longer[i].spec_format().1 == longer[i + 1].spec_format().0);
    }
}

/// Inference composes: what a network with one more layer computes is what
/// that layer computes from the output of the network before it.
pub proof fn lemma_forward_through_push<L: NetLayer>(
    layers: Seq<L>,
    layer: L,
    inputs: Seq<L::Scalar>,
)
    ensures
        forward_through(layers.push(layer), inputs) == layer.spec_foward(
            forward_through(layers, inputs),
        ),
{
    assert(layers.push(layer).drop_last() =~= layers);
}

/// The update pass never reaches the first layer: it comes out as it went
/// in, while every later layer is updated with the cached output of the
/// layer before it.
pub proof fn lemma_first_layer_not_updated<L: NetLayer>(layers: Seq<L>, l_rate: L::Scalar, i: int)
    requires
        0 <= i < layers.len(),
    ensures
        updated_through(layers, l_rate).len() == layers.len(),
        i == 0 ==> updated_through(layers, l_rate)[i] == layers[i],
        i > 0 ==> updated_through(layers, l_rate)[i] == layers[i].spec_updated(
            layers[i - 1].spec_last_result(),
            l_rate,
        ),
{
}

/// Sampling is cyclic: the step of epoch `epoch` learns from the sample
/// whose index is `epoch` modulo the number of samples. That index is
/// `epoch` itself during the first round and comes back every round.
pub proof fn lemma_cyclic_sampling<L: NetLayer>(
    layers: Seq<L>,
    samples: Seq<Seq<L::Scalar>>,
    targets: Seq<Seq<L::Scalar>>,
    l_rate: L::Scalar,
    epoch: nat,
)
    requires
        samples.len() > 0,
    ensures
        0 <= sample_of(epoch as int, samples.len() as int) < samples.len(),
        epoch < samples.len() ==> sample_of(epoch as int, samples.len() as int) == epoch,
        sample_of((epoch + samples.len()) as int, samples.len() as int) == sample_of(
            epoch as int,
            samples.len() as int,
        ),
        trained(layers, samples, targets, l_rate, epoch + 1) == learned(
            trained(layers, samples, targets, l_rate, epoch),
            samples[sample_of(epoch as int, samples.len() as int)],
            targets[sample_of(epoch as int, samples.len() as int)],
            l_rate,
        ),
{
    let n = samples.len() as int;
    let e = epoch as int;
    assert(0 <= e % n < n && (e < n ==> e % n == e) && (e + n) % n == e % n)
        by (nonlinear_arith)
        requires
            n > 0,
            e >= 0,
    ;
}

} // verus!

//! The operations that every kind of layer offers to a network.

use vstd::prelude::*;

verus! {

/// A matrix held as a vector of rows, seen as a sequence of sequences.
pub open spec fn rows<T>(m: &Vec<Vec<T>>) -> Seq<Seq<T>> {
    m@.map_values(|r: Vec<T>| r@)
}

/// Whether `m` has `height` rows of `width` entries each.
pub open spec fn has_shape<T>(m: Seq<Seq<T>>, height: int, width: int) -> bool {
    &&& m.len() == height
    &&& forall|i: int| 0 <= i < m.len() ==> (#[trigger] m[i]).len() == width
}

/// A layer of a feedforward network over some scalar type.
///
/// The spec functions are the layer's mathematical model. The contracts of
/// the executable methods are obligations on every implementation; a
/// network is verified against them, so what is proved of a network holds
/// for layers that keep them. Each spec function has a default that says
/// nothing of the layer: a verified implementation replaces it with its own
/// model, and generic code never learns what it is.
///
/// The derivative of the activation is taken at the activated output that
/// `foward_mut` cached, not at the weighted sum.
pub trait NetLayer: Sized {
    /// The number type of inputs, outputs, weights and deltas.
    type Scalar: Copy;

    /// Input width and output width.
    open spec fn spec_format(&self) -> (usize, usize) {
        arbitrary()
    }

    /// One row of weights for each unit.
    open spec fn spec_weights(&self) -> Seq<Seq<Self::Scalar>> {
        arbitrary()
    }

    /// The activated output cached by the latest `foward_mut`.
    open spec fn spec_last_result(&self) -> Seq<Self::Scalar> {
        arbitrary()
    }

    /// The delta of each unit cached by the latest backward step.
    open spec fn spec_errors(&self) -> Seq<Self::Scalar> {
        arbitrary()
    }

    /// What the layer computes from `inputs`.
    open spec fn spec_foward(&self, inputs: Seq<Self::Scalar>) -> Seq<Self::Scalar> {
        arbitrary()
    }

    /// The layer after `foward_mut` on `inputs`.
    open spec fn spec_cached(&self, inputs: Seq<Self::Scalar>) -> Self {
        arbitrary()
    }

    /// The layer after `backward_output` against `expected`.
    open spec fn spec_output_delta(&self, expected: Seq<Self::Scalar>) -> Self {
        arbitrary()
    }

    /// The layer after `backward` through the next layer's weights and deltas.
    open spec fn spec_delta(
        &self,
        nl_ws: Seq<Seq<Self::Scalar>>,
        nl_deltas: Seq<Self::Scalar>,
    ) -> Self {
        arbitrary()
    }

    /// The layer after `update_layer`.
    open spec fn spec_updated(&self, pl_result: Seq<Self::Scalar>, l_rate: Self::Scalar) -> Self {
        arbitrary()
    }

    /// Input width and output width.
    fn format(&self) -> (r: (usize, usize))
        ensures
            r == self.spec_format(),
    ;

    /// A snapshot of the weights, one row per unit.
    fn get_weights(&self) -> (r: Vec<Vec<Self::Scalar>>)
        ensures
            rows(&r) == self.spec_weights(),
            has_shape(rows(&r), self.spec_format().1 as int, self.spec_format().0 as int),
    ;

    /// The cached deltas, one per unit.
    fn get_errors(&self) -> (r: Vec<Self::Scalar>)
        ensures
            r@ == self.spec_errors(),
            r@.len() == self.spec_format().1,
    ;

    /// The cached activated output, one value per unit.
    fn get_last_result(&self) -> (r: Vec<Self::Scalar>)
        ensures
            r@ == self.spec_last_result(),
            r@.len() == self.spec_format().1,
    ;

    /// Pure inference: the activation applied to weights times inputs plus bias.
    fn foward(&self, inputs: &Vec<Self::Scalar>) -> (r: Vec<Self::Scalar>)
        requires
            inputs@.len() == self.spec_format().0,
        ensures
            r@ == self.spec_foward(inputs@),
            r@.len() == self.spec_format().1,
    ;

    /// The same computation as `foward`; the output is also cached. The
    /// deltas stay, and so does what the layer computes.
    fn foward_mut(&mut self, inputs: &Vec<Self::Scalar>) -> (r: Vec<Self::Scalar>)
        requires
            inputs@.len() == old(self).spec_format().0,
        ensures
            r@ == old(self).spec_foward(inputs@),
            r@.len() == old(self).spec_format().1,
            *final(self) == old(self).spec_cached(inputs@),
            final(self).spec_format() == old(self).spec_format(),
            final(self).spec_weights() == old(self).spec_weights(),
            final(self).spec_last_result() == r@,
            final(self).spec_errors() == old(self).spec_errors(),
            forall|x: Seq<Self::Scalar>| #[trigger]
                final(self).spec_foward(x) == old(self).spec_foward(x),
    ;

    /// The delta of a terminal layer: the squared difference between
    /// `expected` and the cached output, times the derivative at that output.
    /// The delta is cached and returned.
    fn backward_output(&mut self, expected: &Vec<Self::Scalar>) -> (r: Vec<Self::Scalar>)
        requires
            expected@.len() == old(self).spec_format().1,
        ensures
            r@ == final(self).spec_errors(),
            r@.len() == old(self).spec_format().1,
            *final(self) == old(self).spec_output_delta(expected@),
            final(self).spec_format() == old(self).spec_format(),
            final(self).spec_weights() == old(self).spec_weights(),
            final(self).spec_last_result() == old(self).spec_last_result(),
            forall|x: Seq<Self::Scalar>| #[trigger]
                final(self).spec_foward(x) == old(self).spec_foward(x),
    ;

    /// The delta of a layer that another one follows: the next layer's
    /// weights, transposed, times its deltas, times the derivative at the
    /// cached output. The delta is cached and returned.
    fn backward(&mut self, nl_ws: &Vec<Vec<Self::Scalar>>, nl_deltas: &Vec<Self::Scalar>) -> (r:
        Vec<Self::Scalar>)
        requires
            has_shape(rows(nl_ws), nl_deltas@.len() as int, old(self).spec_format().1 as int),
        ensures
            r@ == final(self).spec_errors(),
            r@.len() == old(self).spec_format().1,
            *final(self) == old(self).spec_delta(rows(nl_ws), nl_deltas@),
            final(self).spec_format() == old(self).spec_format(),
            final(self).spec_weights() == old(self).spec_weights(),
            final(self).spec_last_result() == old(self).spec_last_result(),
            forall|x: Seq<Self::Scalar>| #[trigger]
                final(self).spec_foward(x) == old(self).spec_foward(x),
    ;

    /// One step of gradient descent: from the weight of unit `i` for input
    /// `j` goes `l_rate` times the delta of `i` times `pl_result[j]`, and
    /// from the bias of `i` goes `l_rate` times the delta of `i`.
    fn update_layer(&mut self, pl_result: &Vec<Self::Scalar>, l_rate: Self::Scalar)
        requires
            pl_result@.len() == old(self).spec_format().0,
        ensures
            *final(self) == old(self).spec_updated(pl_result@, l_rate),
            final(self).spec_format() == old(self).spec_format(),
            final(self).spec_last_result() == old(self).spec_last_result(),
            final(self).spec_errors() == old(self).spec_errors(),
    ;
}

} // verus!

//! The activation a dense layer applies. The functions themselves work
//! on floating-point values and live with the caller.

use vstd::prelude::*;

verus! {

/// Which activation a layer uses. `OutputSoftmax` marks the output
/// layer, whose softmax derivative is already folded into the
/// cross-entropy gradient.
#[derive(Clone, Copy, Debug, PartialEq, Eq, Structural)]
pub enum ActivationType {
    Sigmoid,
    ReLU,
    OutputSoftmax,
}

} // verus!

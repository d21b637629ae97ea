//! The nonlinearities a layer can apply to its weighted sums.

use vstd::prelude::*;

verus! {

/// Which nonlinearity a layer applies: hyperbolic tangent, the logistic sigmoid
/// `1 / (1 + e^-x)`, or the identity.
#[derive(Clone, Copy, Debug, PartialEq, Eq)]
pub enum Act {
    Tanh,
    Sig,
    Lin,
}

} // verus!

//! The cost that training drives down.

use vstd::prelude::*;

verus! {

/// Which cost the output error is measured by: the squared error `err²`, whose
/// derivative `2·err` is not divided by the number of outputs.
#[derive(Clone, Copy, Debug, PartialEq, Eq)]
pub enum Cost {
    MSE,
}

} // verus!

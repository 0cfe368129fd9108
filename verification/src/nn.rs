//! Neural-network layers. Module composition lives in the frontend; this
//! module is the place for native layers, which are not written yet.

use vstd::prelude::*;
use vstd::string::*;
use crate::error::{ErrorText, OxitorchError, OxitorchResult};
use crate::tensor::Tensor;

verus! {

/// The forward pass of a linear layer; not implemented.
pub fn linear<E>(_input: &Tensor<E>, _weight: &Tensor<E>, _bias: Option<&Tensor<E>>) -> (r:
    OxitorchResult<Tensor<E>>)
    ensures
        r matches Err(e) && e@ == ErrorText::NotImplemented(
            "nn layers land in Phase 3 (plan.md weeks 9–12)"@,
        ),
{
    Err(OxitorchError::NotImplemented("nn layers land in Phase 3 (plan.md weeks 9–12)".to_string()))
}

} // verus!

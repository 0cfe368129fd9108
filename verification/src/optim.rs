//! Optimizers over bare tensors, which are not written yet. The optimizers
//! over graph parameters are in [`crate::autograd::optim`].

use vstd::prelude::*;
use vstd::string::*;
use crate::error::{ErrorText, OxitorchError, OxitorchResult};
use crate::tensor::Tensor;

verus! {

/// One SGD step on a bare tensor; not implemented.
pub fn sgd_step<E>(param: &mut Tensor<E>, _grad: &Tensor<E>, _lr: E) -> (r: OxitorchResult<()>)
    ensures
        r matches Err(e) && e@ == ErrorText::NotImplemented(
            "optimizers land in Phase 4 (plan.md week 13)"@,
        ),
        *final(param) == *old(param),
{
    Err(OxitorchError::NotImplemented("optimizers land in Phase 4 (plan.md week 13)".to_string()))
}

} // verus!

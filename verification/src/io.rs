//! Serialization and interop. Reading and writing safetensors files is not
//! written yet.

use vstd::prelude::*;
use vstd::string::*;
use crate::error::{ErrorText, OxitorchError, OxitorchResult};
use crate::tensor::Tensor;

verus! {

/// Saves named tensors to a safetensors file; not implemented.
pub fn save_safetensors<E>(_state: &[(String, Tensor<E>)], _path: &str) -> (r: OxitorchResult<()>)
    ensures
        r matches Err(e) && e@ == ErrorText::NotImplemented(
            "safetensors IO lands in Phase 6 (plan.md week 15)"@,
        ),
{
    Err(
        OxitorchError::NotImplemented(
            "safetensors IO lands in Phase 6 (plan.md week 15)".to_string(),
        ),
    )
}

} // verus!

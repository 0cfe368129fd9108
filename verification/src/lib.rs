//! A small tensor engine with reverse-mode differentiation and a data
//! pipeline.
//!
//! - [`tensor`]: tensors over shared storage, generic over their element type
//!   ([`elem`]).
//! - [`autograd`]: the computation graph, backward passes, gradient checks and
//!   optimizers.
//! - [`data`]: batches, image transforms, random numbers, MNIST files and the
//!   loader.
//! - [`frontend`]: the rules behind a scripting frontend's tensor object.

pub mod autograd;
pub mod data;
pub mod elem;
pub mod error;
pub mod exact;
pub mod frontend;
pub mod index;
pub mod io;
pub mod iterate;
pub mod layout;
pub mod nn;
pub mod ops;
pub mod optim;
pub mod parallel;
pub mod shape;
pub mod tensor;
pub mod text;
pub mod types;

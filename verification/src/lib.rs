//! A feed-forward neural network, trained by gradient descent one example
//! at a time, and the labelled-image data set it is shown on.
//!
//! The library holds a real number as the bits of a double and does no
//! arithmetic on it: it decides which operation is applied to which values,
//! and leaves the operation to the `Reals` that its caller hands in.
//!
//! - `scalar`: the order of doubles, by their bits.
//! - `matrix`: matrices of reals.
//! - `reals`: the operations that the caller supplies.
//! - `nnet`: layers, networks, the forward pass and its classification.
//! - `trainer`: backpropagation and the training loop.
//! - `store`: a network as the bytes of a file.
//! - `mnist`: the files of the data set.

pub mod matrix;
pub mod mnist;
pub mod nnet;
pub mod reals;
pub mod scalar;
pub mod store;
pub mod trainer;

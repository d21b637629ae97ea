//! A feedforward neural network's verified core: strided matrices and their
//! transposed views, reverse indexing, mini-batch scheduling, network
//! topology and the IDX dataset byte format.

pub mod activation;
pub mod back_index;
pub mod cost;
pub mod idx;
pub mod matrix;
pub mod training;

//! Minibatch iteration over in-memory datasets: aligned batches over a pair
//! of arrays, and a character-level text dataset with shuffled windows.
pub mod batch;
pub mod perm;
pub mod tensor;
pub mod text;

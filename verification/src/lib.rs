//! Verified core of a from-scratch Fashion-MNIST classifier: the
//! xorshift64 generator, Fisher-Yates shuffling and batching, the
//! confusion matrix, the dataset and weights text formats, and the
//! draw-and-predict grid.

pub mod activation;
pub mod rng;
pub mod metrics;
pub mod training;
pub mod text;
pub mod dataset;
pub mod weights;
pub mod drawing;
pub mod report;

//! Genome encodings, decoders and fitness functions of both planning stages.
pub mod batches;
pub mod genome;
pub mod orders;

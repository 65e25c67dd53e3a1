//! Benchmark collections: the growing striped table behind the operations a
//! benchmark driver issues.
pub mod striped;

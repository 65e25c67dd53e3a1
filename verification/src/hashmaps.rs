//! Hash tables that grow.
pub mod striped;

//! Genomic coordinate and viewport bookkeeping for a multi-chromosome
//! association plot.

pub mod coordinates;
pub mod error;
pub mod frame;
pub mod gwas;
pub mod input;
pub mod number;

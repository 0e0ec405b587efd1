//! Block-compressed virtual addressing and region-query indexing.

pub mod bai;
pub mod bai_reader;
pub mod bcf;
pub mod binning;
pub mod block;
pub mod chunk;
pub mod container;
pub mod genotype;
pub mod index;
pub mod indexed_reader;
pub mod paths;
pub mod sam;
pub mod stream;
pub mod virtual_position;

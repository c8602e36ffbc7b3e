//! Sparse matrix structures: a coordinate-keyed builder (`CooMat`) and a
//! compressed-row snapshot (`CsrMat`), generic over the stored payload.

pub mod coo_mat;
pub mod csr_mat;
pub mod entries;
pub mod error;
pub mod vector;
pub mod solver;

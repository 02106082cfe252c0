//! The CPU backend: plans over one arena, and the index arithmetic of its kernels.

pub mod attention;
pub mod compat;
pub mod gemm;
pub mod par;
pub mod plan;
pub mod qgemm;
pub mod run;
pub mod upload;

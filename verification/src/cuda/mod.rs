//! The NVIDIA backend: what every launch of a plan is, decided on plain numbers.

pub mod launch;
pub mod plan;
pub mod tune;
pub mod types;

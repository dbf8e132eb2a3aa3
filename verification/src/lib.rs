//! Uniform spatial grid and discrete rules of a 2-D particle fluid step.

pub mod binary32;
pub mod chunk;
pub mod entity_set;
pub mod kernel;
pub mod lookup;
pub mod particle;

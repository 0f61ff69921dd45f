//! The parts that the engine is built from, for those who build on them.

pub use crate::combination::expand_combinations;
pub use crate::combination::expand_combinations_iter;
pub use crate::combination::generate_combinations;
pub use crate::ctx::Ctx;

pub mod address;
pub mod bits;
pub mod decimal;
pub mod factory;
pub mod list;
pub mod pool;
pub mod tick;
pub mod tick_index;
pub mod tick_math;
pub mod token_bridge;
pub mod token_validator;
pub mod weighted_pool;

pub mod ff;
pub mod model;
pub mod prime_field;
pub mod rescue_prime;

pub use rescue_prime::{hash_elements, merge};

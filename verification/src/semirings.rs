//! The semiring algebra: the weight contract and its concrete instances.

pub mod semiring;
pub mod boolean_weight;
pub mod integer_weight;
pub mod tropical_weight;
pub mod product_weight;

pub use semiring::DivideType;
pub use semiring::Semiring;
pub use semiring::SemiringProperties;
pub use semiring::WeaklyDivisibleSemiring;
pub use semiring::WeightQuantize;
pub use boolean_weight::BooleanWeight;
pub use integer_weight::IntegerWeight;
pub use tropical_weight::TropicalWeight;
pub use product_weight::ProductWeight;

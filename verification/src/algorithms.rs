//! Graph algorithms on transducers: trimming, transition sorting and
//! deduplication, projection, inversion, label encoding, weight factoring,
//! label mapping, and state mapping.

pub mod connect;
pub mod tr_sort;
pub mod tr_unique;
pub mod projection;
pub mod inversion;
pub mod encode;
pub mod arc_mappers;
pub mod state_map;
pub mod factor_weight;
pub mod rm_epsilon;

pub use arc_mappers::ArcMapper;
pub use arc_mappers::InputEpsilonMapper;
pub use connect::accessible;
pub use connect::coaccessible;
pub use connect::connect;
pub use connect::ConnectVisitor;
pub use encode::decode;
pub use encode::encode;
pub use factor_weight::FactorIterator;
pub use factor_weight::FactorWeightFst;
pub use factor_weight::IdentityFactor;
pub use encode::EncodeMapper;
pub use encode::EncodeTable;
pub use inversion::invert;
pub use projection::project;
pub use rm_epsilon::rm_epsilon;
pub use projection::project_input;
pub use projection::project_output;
pub use state_map::state_map;
pub use state_map::StateMapper;
pub use tr_sort::tr_sort;
pub use tr_unique::tr_compare;
pub use tr_unique::tr_unique;

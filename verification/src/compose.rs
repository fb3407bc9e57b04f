//! The composition machinery: interval sets, label reachability, matchers,
//! the composition filter, and the matcher-augmented transducer.

pub mod interval_set;
pub mod label_reachable;
pub mod matchers;
pub mod match_compose_filter;
pub mod matcher_fst;

pub use interval_set::IntInterval;
pub use interval_set::IntervalSet;
pub use label_reachable::LabelReachable;
pub use label_reachable::LabelReachableData;
pub use match_compose_filter::IntegerFilterState;
pub use match_compose_filter::MatchComposeFilter;
pub use match_compose_filter::MatchComposeFilterBuilder;
pub use matcher_fst::MatcherFst;
pub use matchers::MatchType;
pub use matchers::SortedMatcher;

//! A multi-tier key-value cache core with borrow-checker-style ownership.
//!
//! Every cache key-space is governed by an explicit ownership declaration:
//! one registered owner per overlapping namespace, with many permitted
//! read-only borrowers. Conflicting writers on the same namespace are
//! rejected before traffic flows, and cross-layer invalidation is derived
//! from declared dependency relationships.
//!
//! The crate is organised leaf-first:
//! - [`pattern`]: compiles pattern templates and answers "does key K match
//!   pattern P" and "are patterns A and B overlapping or disjoint".
//! - [`ownership`]: the owner/borrow registry with conflict detection and
//!   the invalidation-dependency graph.
//! - [`layer`]: the layer coordinator, which routes get/set/delete to the
//!   correct tier with fallback and propagates invalidation.
//! - [`strategy`]: the strategy interface the coordinator implements.

pub mod cache;
pub mod error;
pub mod layer;
pub mod ownership;
pub mod pattern;
pub mod strategy;

pub use cache::CacheEntry;
pub use error::Error;
pub use layer::CacheLayer;
pub use layer::Layer;
pub use layer::LayerCoordinator;
pub use layer::MemoryLayer;
pub use ownership::CacheArgs;
pub use ownership::Lifetime;
pub use ownership::ManifestArgs;
pub use ownership::Ownership;
pub use ownership::OwnershipGraph;
pub use pattern::Pattern;
pub use pattern::PatternMatcher;
pub use strategy::CacheStrategy;

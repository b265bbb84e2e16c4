//! A leveled cache that keeps and promotes the most commonly and most recently used items.
//!
//! The cache is a list of levels; level `n` has a nominal capacity of `base^n`. New items
//! enter near the bottom, items that are read move up one level, and on every such move each
//! level below may shed one item to the level beneath it, with a probability that grows
//! with how full the level is. Items that fall off the bottom are forgotten. So items that
//! are used often and recently stand high in the cache, and items that have not been used
//! for a while leave it.
//!
//! The randomness comes from a generator that the caller may provide; with a seeded
//! generator the behaviour is reproducible. What is proved of the operations holds
//! whatever the generator draws.
//!
//! - `cache`: the cache and its operations.
//! - `handle`: entries and indexes, the two kinds of handle to a slot of the cache.
//! - `model`: the cache as a sequence of levels, and what the operations make of it.
//! - `lemmas`: the facts about such sequences that the proofs rest on.
//! - `laws`: what holds of every cache, and of the operations taken together.
//! - `items`, `random`: the container of a level and the source of randomness, which are
//!   not proved here but stated.
//! - `narrow`: the filters by which users of a cache of streams name what they look for.
pub mod cache;
pub mod handle;
pub mod items;
pub mod laws;
pub mod lemmas;
pub mod model;
pub mod narrow;
pub mod random;

pub use cache::CommonCache;
pub use handle::Entry;
pub use handle::Index;
pub use narrow::Narrow;

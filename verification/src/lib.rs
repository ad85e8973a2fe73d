//! A bidirectional one-to-one associative container.
//!
//! `KeyValMap<K, V>` keeps a strict pairing between a set of keys and a set
//! of values: each key is bound to exactly one value and each value to
//! exactly one key, and either side can be looked up or removed through the
//! other. Both directions are specified by mathematical maps over the
//! elements' views, and the bijection between the two is proved.

mod assoc;
mod element;
mod kvmap;
mod laws;

pub use element::Element;
pub use kvmap::KeyValMap;
pub use kvmap::KeyValMapError;

pub use laws::lemma_bijection_by_key;
pub use laws::lemma_bijection_by_val;
pub use laws::lemma_removal_symmetry;
pub use laws::lemma_round_trip;
pub use laws::lemma_size_symmetry;

pub use assoc::distinct_firsts;
pub use assoc::firsts;
pub use assoc::flip;
pub use assoc::has_first;
pub use assoc::index_of_first;
pub use assoc::map_of;

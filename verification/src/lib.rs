//! An in-memory undirected graph store addressed by opaque, typed identifiers.
//!
//! The crate is organised around three building blocks:
//! - [`ids`]: strongly-typed opaque identifiers and the contexts that mint
//!   them, with [`idmap`] pairing such a context with a keyed store;
//! - [`uord`]: an unordered pair, the composite key identifying a link;
//! - [`graph`]: the bidirectional node/link container that keeps per-node
//!   adjacency sets consistent with the link collection.
//!
//! [`assoc`] holds the association-sequence reasoning the containers share,
//! and [`offset_int`] holds small checked-arithmetic helpers for offsetting
//! unsigned integers by signed amounts.

pub mod assoc;
pub mod graph;
pub mod idmap;
pub mod ids;
pub mod offset_int;
pub mod order;
pub mod uord;

pub use crate::graph::Graph;
pub use crate::graph::GraphDecodeError;
pub use crate::graph::IdPair;
pub use crate::idmap::IdMap;
pub use crate::ids::AtomicIdContext;
pub use crate::ids::Id;
pub use crate::ids::IdContext;
pub use crate::uord::UOrd;

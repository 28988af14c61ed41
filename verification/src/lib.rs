/// Identity, score and metadata value types shared by the graph layer.
pub mod types;
/// The graph vertex: fixed-capacity neighbor slots with probe/replace
/// insertion, single parent/child links, and a bounded version chain.
pub mod prob_node;
/// In-memory image of a versioned buffered file, with a cursor and exact
/// byte-level write/read semantics.
pub mod buffered_io;
/// The versioned growable chunk store and its fixed-width incremental
/// serialization format.
pub mod growable_data;

//! Erasure coding of data into chunks, any large enough part of which gives back
//! the data.
//!
//! Data is split into shards, and the Reed-Solomon codec adds recovery shards to
//! them; together they are the chunks. [`construct_chunks`] makes the chunks,
//! [`reconstruct`] puts the data together from any of them, and
//! [`reconstruct_from_systematic`] from those that hold the data itself.
//!
//! Segments of a fixed size are coded in batches into subshards of twelve bytes:
//! see [`SubShardEncoder`] and [`SubShardDecoder`].

pub mod chunk_laws;
pub mod chunks;
pub mod codec;
pub mod error;
pub mod layout;
pub mod parallel;
pub mod reconstruct;
pub mod reconstruct_laws;
pub mod round_trip;
pub mod segment;
pub mod selection;
pub mod selection_laws;
pub mod subshard_decoder;
pub mod subshard_encoder;
pub mod subshard_laws;
pub mod systematic;
pub mod systematic_laws;
pub mod turn_laws;

pub use chunks::{
    construct_chunks, recovery_threshold, systematic_recovery_threshold, ChunkIndex, ErasureChunk,
    MAX_CHUNKS,
};
pub use error::Error;
pub use parallel::{construct_chunks_parallel, ThreadPoolCache};
pub use reconstruct::reconstruct;
pub use segment::{Segment, SubShard};
pub use subshard_decoder::SubShardDecoder;
pub use subshard_encoder::SubShardEncoder;
pub use systematic::reconstruct_from_systematic;

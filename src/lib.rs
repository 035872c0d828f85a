//! Sort-merge joins over key-ordered streams of key-value pairs.
//!
//! An intersection join (`KVAJoin`) yields a row for each key that every
//! stream holds; a union join (`KVOJoin`) yields a row for each key that some
//! stream holds, with an absent slot for each stream that lacks it, and ends
//! as soon as any one stream runs out. Both take from two to ten streams;
//! a wider join nests one join's rows, as a stream, inside another.
pub mod keys;
pub mod stream;
pub mod and_join;
pub mod or_join;

pub use stream::Stream;
pub use and_join::KVAJoin;
pub use or_join::KVOJoin;

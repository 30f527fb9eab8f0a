//! A small content-addressed object store: typed objects framed as
//! `<type> <length>\0<payload>`, named by the SHA-1 of that frame, kept
//! zlib-compressed under a sharded directory layout, plus the key/value/message
//! text format used inside commits and tags, and the rules by which a
//! repository is created and found.

pub mod codec;
pub mod compress;
pub mod digest;
pub mod error;
pub mod kvlm;
pub mod locate;
pub mod object;
pub mod repository;
pub mod serializer;
pub mod store;

//! Tree hashing and a verifiable tree encoding of byte content: the root hash of a BLAKE2b tree,
//! the combined and outboard encodings, and decoders that hand out only verified bytes.
pub mod hash;
pub mod state;
pub mod simple;
pub mod encode;
pub mod decode;
pub mod slice;

//! Streams bytes through block-wise authenticated encryption and back.
//!
//! A [`split::Split`] cuts a byte source into blocks of a fixed size, names
//! each block by its SHA-256 hash and encrypts it under a key that a
//! [`crypto::KeyTree`] derives from that hash. A [`merge::Merge`] decrypts the
//! resulting pairs in order and hands the plaintext out to buffers of any
//! size.
use vstd::prelude::*;

pub mod chunks;
pub mod crypto;
pub mod error;
pub mod merge;
pub mod source;
pub mod split;

verus! {

} // verus!

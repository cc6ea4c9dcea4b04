//! An append-only event store: events are appended to named streams and
//! persisted in bounded, digest-protected log chunks; an in-memory index
//! maps each stream (and the synthetic `$all` stream) to the location of
//! every one of its events.
//!
//! The store computes over chunk *images* — full in-memory copies of the
//! chunk files — so that all of its logic is plain byte manipulation:
//! reading the files in and writing the images back is the caller's part.
//!
//! - [`codec`] fixes the binary event encoding and proves it round-trips;
//! - [`chunk`] holds one log segment: header, digest, records, offsets;
//! - [`index`] maps stream names to event locations;
//! - [`writer`] appends batches, rotating to a fresh chunk when full;
//! - [`reader`] streams one stream's events out of a snapshot;
//! - [`engine`] composes them behind the public facade;
//! - [`model`] states which event lives where, the spine of every contract.
use vstd::prelude::*;

pub mod chunk;
pub mod clock;
pub mod codec;
pub mod engine;
pub mod hashing;
pub mod index;
pub mod model;
pub mod reader;
pub mod writer;

verus! {

/// Maximum on-disk size of any chunk file, including its header, in bytes.
pub const MAX_CHUNK_SIZE: u32 = 1000000;

/// The errors the store surfaces to its callers.
#[derive(Clone, Copy, PartialEq, Eq, Structural, Debug)]
pub enum StoreError {
    /// A chunk file's stored digest does not match its contents, or the
    /// file is too short to carry a header.
    Corrupt,
    /// A chunk file's records do not decode, or the file oversteps the
    /// chunk size limit.
    Malformed,
    /// The set of chunk files is not numbered densely from 1, or an id
    /// leaves no room for the next event id.
    BadLayout,
    /// An append named a reserved stream.
    IllegalStream,
}

impl StoreError {
    /// The message surfaced for a rejected append.
    pub fn message(&self) -> (r: &'static str)
        ensures
            *self is IllegalStream ==> r@ == "Illegal stream_name parameter."@,
    {
        match self {
            StoreError::Corrupt => "Corrupt log chunk.",
            StoreError::Malformed => "Malformed log chunk.",
            StoreError::BadLayout => "Bad chunk directory layout.",
            StoreError::IllegalStream => "Illegal stream_name parameter.",
        }
    }
}

} // verus!

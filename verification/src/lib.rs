//! The verified core of a file transfer over a datagram channel: the messages
//! both sides exchange, the bookkeeping of which byte ranges have arrived, and
//! the decisions of the downloading and of the serving side.
use vstd::prelude::*;

pub mod client;
pub mod exchange;
pub mod in_flight;
pub mod progress;
pub mod server;

verus! {

/// A message between the two sides.
#[derive(PartialEq, Debug, Clone)]
pub enum Event {
    /// Asks for the metadata of the file at a path.
    Metadata(String),
    /// The metadata that was asked for.
    AckMetadata(Metadata),
    /// Asks for the bytes `[start, end)` of a file.
    File(FileRequest),
    /// A piece of the bytes that were asked for.
    AckFile(FilePart),
    /// All that was asked for under this file identifier has been sent.
    FileEnd(u64),
    /// Asks for several byte ranges of a file at once.
    Ranges(RangesRequest),
}

/// What the serving side tells of a file.
#[derive(PartialEq, Debug, Clone)]
pub struct Metadata {
    pub size: u64,
}

/// A request for one byte range of a file.
#[derive(PartialEq, Debug, Clone)]
pub struct FileRequest {
    pub path: String,
    /// The first byte.
    pub start: u64,
    /// The byte after the last one.
    pub end: u64,
    pub fid: u64,
}

/// Consecutive bytes of a file, from `start` on.
#[derive(PartialEq, Debug, Clone)]
pub struct FilePart {
    pub data: Vec<u8>,
    pub start: u64,
    pub fid: u64,
}

/// A request for several byte ranges `[start, end)` of a file.
#[derive(PartialEq, Debug, Clone)]
pub struct RangesRequest {
    pub path: String,
    pub ranges: Vec<(u64, u64)>,
    /// Marks the parts that answer this download.
    pub file_id: u64,
    /// Tells one request of a download from the next; what is sent for the request
    /// does not depend on it.
    pub action_id: u64,
}

} // verus!

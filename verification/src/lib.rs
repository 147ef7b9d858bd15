//! Verified core of a top-artists / top-tags pipeline: decoding of the
//! paginated artist-list envelope and of per-artist tag responses, the
//! pagination state machine, the weighted tag aggregation with its final
//! ascending sort, and the encoding/decoding of the two on-disk caches.
//! All network and file I/O lives outside this crate; callers hand the
//! decoded JSON documents in and drive the state machines.

pub mod aggregate;
pub mod cache;
pub mod decode;
pub mod json;
pub mod numstr;
pub mod paginate;
pub mod records;
pub mod url;

//! Exhaustive recovery of the key behind an HMAC-SHA256 tag.
//!
//! Candidate keys are numbered per length over an ordered alphabet; the index
//! space of one length is cut into contiguous ranges, one per worker, and each
//! range is scanned until a key reproduces the target tag or a shared flag says
//! that another worker already found one.
pub mod candidate;
pub mod partition;
pub mod mac;
pub mod signal;
pub mod search;
pub mod token;

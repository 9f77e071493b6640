//! Coordination engine for a sequential, multi-party cryptographic ceremony.
//!
//! A changing pool of remote participants each attempt, one at a time, to
//! extend a shared reference string. The engine keeps the admission queue,
//! ranks waiting participants by bid, notifies them of their position, and
//! hands exactly one contributor at a time to the contribution handler. All
//! scheduling and penalty decisions live here, verified; delivering messages,
//! running timers and talking to storage are the caller's part.

pub mod types;
pub mod queue;
pub mod handler;
pub mod coordinator;
pub mod exclusivity;

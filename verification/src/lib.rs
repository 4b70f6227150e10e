//! A resumable fetch client's core: an incremental response reader that frames
//! one response out of arbitrarily sized reads, and the accounting that decides
//! which byte range to ask for next until the whole resource is collected.

pub mod bytes;
pub mod decimal;
pub mod header;
pub mod framer;
pub mod stream;
pub mod framing_laws;
pub mod request;
pub mod resume;
pub mod send;

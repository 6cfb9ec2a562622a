//! The file-backed storage: the serialized collection format and the backend
//! that keeps an in-memory mirror of it.

pub mod codec;
pub mod entry;

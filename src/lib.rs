//! A blocking bridge between foreign callers and an object store: how a
//! caller's path names a container and a key, the tickets that stand for
//! live clients, the bounded copy of a downloaded object into a caller's
//! buffer, and the integer codes that cross the foreign boundary.

pub mod handles;
pub mod path;
pub mod transfer;

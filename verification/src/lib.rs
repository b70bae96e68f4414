//! The engine of a bot that runs final comment periods: it keeps a store in
//! step with an issue tracker, sweep by sweep, and decides from the store and
//! the team roster where each proposal stands.
//!
//! Nothing here reads a file, a clock or a socket. The caller fetches the
//! tracker's events and hands them over; the library says what the store
//! holds afterwards and which notices go out.
pub mod consensus;
pub mod feed;
pub mod ingest;
pub mod order;
pub mod roster;
pub mod scheduler;
pub mod store;
pub mod teams;

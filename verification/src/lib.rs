//! A shared-read, multi-tenant key-value store.
//!
//! Many logical users each see a private view of one keyspace, but most
//! users' values for a given key coincide. Instead of one copy per user,
//! the engine keeps one shared ("global") value-set per key together with a
//! per-key visibility bitmap saying which users currently see it; a user
//! whose value diverges from the shared copy gets a private override entry.
//!
//! The engine itself is [`srmap::SRMap`]; [`handles`] wraps one engine
//! instance behind a reader-writer lock and hands out a read and a write
//! front end; [`codec`] gives the state a byte form that round-trips; [`laws`]
//! proves the sharing, divergence, garbage-collection, isolation and
//! idempotence properties of the policy once and for all.

pub mod assoc;
pub mod codec;
pub mod handles;
pub mod laws;
pub mod srmap;

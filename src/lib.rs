//! A durable registry of service units and the recruits, projects, vehicles
//! and expenses that belong to them.
//!
//! - `codec`: the byte layout of stored records.
//! - `record`: the records and their stored forms.
//! - `store`: regions of stable memory, ordered tables, the id counter.
//! - `registry`: the operations, which check payloads and parent units.
//! - `ledger`: what a unit's expenses add up to.
pub mod codec;
pub mod ledger;
pub mod record;
pub mod registry;
mod store;

//! Sanctioned cryptocurrency addresses: an in-memory store of the canonical
//! dataset, the extraction of addresses from the published feed, and the
//! decisions of the HTTP query API.

pub mod address;
pub mod error;
pub mod feed;
pub mod path;
pub mod router;
pub mod store;

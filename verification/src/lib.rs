//! An embeddable two-tier cache: byte blobs are stored under string keys,
//! hot data is kept in memory and colder data is demoted to a modelled disk
//! tier once the configured byte budgets are exceeded.
//!
//! The crate is organised around three components:
//! * [`memdb`] holds the key-to-entry index ([`memdb::FastDB`]) and the
//!   eviction/demotion algorithm that moves entries between tiers;
//! * [`disk`] models the on-disk tier, one file per key;
//! * [`cache`] is the facade that owns the budgets, the running byte
//!   accounting and the public get/set/remove/resize operations.
//!
//! [`laws`] states and proves the properties that relate several operations,
//! and [`tools`] holds the clock and the logging helpers.

pub mod assoc;
pub mod cache;
pub mod disk;
pub mod eviction;
pub mod laws;
pub mod memdb;
pub mod tools;

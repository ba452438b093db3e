//! Duplicate-key tables, sorted scans and stable cursors on a flat store.
//!
//! The store below knows byte keys in byte order and one value per key. This
//! crate makes it behave like a storage engine with two kinds of tables: plain
//! tables, which are ordered maps, and duplicate-key tables, in which a key
//! owns a sorted set of values. The same cursor navigates and changes both.
//!
//! From the bottom up:
//!
//! - [`bytes`] is the byte order, and [`codec`] the encodings that preserve
//!   the order of what they encode;
//! - [`dups`] formats the physical keys of duplicate-key tables: primary key,
//!   subkey and tie-breaker;
//! - [`store`] is the flat store, and [`table`] one keyspace of it read through
//!   a key layout, with the consistency that every write keeps;
//! - [`ties`] and [`model`] state what a write does to the physical and to the
//!   logical entries of a table, and [`raw`] admits physical entries that come
//!   from outside;
//! - [`cursor`] and [`cursor_write`] are the cursor, and [`walker`] the lazy
//!   sequences over it;
//! - [`tx`] and [`env`] are transactions over the tables of an environment,
//!   [`estimate`] the estimate of the size of a table, and [`error`] what can
//!   go wrong;
//! - [`laws`] proves what holds of all keys, values and tables;
//! - [`root_cache`] and [`command`] serve the callers of the tables: a cache
//!   of storage roots, and what the database command decides.
//!
//! Every function is verified against its contract. The contracts speak of
//! the logical entries of a table, primary key and value in sorted order, and
//! of the position of the cursor among them.

pub mod bytes;
pub mod codec;
pub mod command;
pub mod cursor;
pub mod cursor_write;
pub mod dups;
pub mod env;
pub mod error;
pub mod estimate;
pub mod laws;
pub mod model;
pub mod raw;
pub mod root_cache;
pub mod store;
pub mod table;
pub mod ties;
pub mod tx;
pub mod walker;

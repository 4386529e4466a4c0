//! A static key→value store that inverts CRC-32 over the decimal text of
//! 32-bit ids. The ids are cut into bundles, each bundle is one sorted table,
//! ids whose hash collides go to a table family of duplicates, and the
//! duplicates are filed once more under a second hash.
//!
//! The library works on tables in memory and on plain values; reading and
//! writing files is left to its caller.
//!
//! - [`codec`], [`data`], [`stream`]: integers, headers, records, table
//!   images, and reading and writing them record by record.
//! - [`hash`], [`heap`], [`bitmap`], [`gendata`]: the two hashes, and the
//!   builds of the three table families.
//! - [`query`]: the probe of one table and the query of a database.
//! - [`shell`], [`catalog`], [`sorted`], [`args`]: names of tables on disk,
//!   the catalog of a family, and numbers in command-line text.

pub mod args;
pub mod bitmap;
pub mod catalog;
pub mod codec;
pub mod data;
pub mod error;
pub mod gendata;
pub mod hash;
pub mod heap;
pub mod query;
pub mod shell;
pub mod sorted;
pub mod stream;

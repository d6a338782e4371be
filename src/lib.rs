//! Offline reverse geocoding over a compact spatial database.
//!
//! A database is a string table, an array of compact records (string
//! indices and fixed-point coordinates) and a grid index from 0.1-degree
//! cells to record ids.
//!
//! - [`coords`]: fixed-point coordinates and cell keys.
//! - [`model`]: the records and the database.
//! - [`grid`]: building the grid index and scanning a 3x3 block of cells.
//! - [`codec`]: the binary layout, with [`round_trip`] proving that
//!   decoding an encoding gives the database back.
//! - [`geocoder`]: loading a database and answering nearest-record queries.
//! - [`interner`], [`merge`], [`dedup`], [`builder`], [`rows`]: the build
//!   pipeline from source rows to a database.
//! - [`fxmap`]: the operations on `rustc_hash::FxHashMap` that the library
//!   relies on.
pub mod coords;
pub mod fxmap;
pub mod model;
pub mod grid;
pub mod codec;
pub mod round_trip;
pub mod geocoder;
pub mod interner;
pub mod merge;
pub mod dedup;
pub mod builder;
pub mod rows;

pub use builder::Builder;
pub use codec::{decode_database, encode_database, DecodeError};
pub use geocoder::{Geocoder, LoadError};
pub use interner::StringInterner;
pub use model::{CompactPlace, Database, PostalCode, RawPlace, ResolvedPlace};

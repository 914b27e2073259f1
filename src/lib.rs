//! Collections over a flat byte-keyed store: key encoding, storage
//! addresses, single cells, keyed maps, double-ended sequences and prefix
//! scans.
//!
//! A key is one or more segments (`keys`): raw bytes, UTF-8 text, or
//! fixed-width big-endian integers, signed ones with the sign bit flipped so
//! that byte order is numeric order. A namespace and the segments make one
//! address (`address`): with one segment the two are concatenated; with more,
//! the namespace and every segment but the last carry a two-byte length
//! prefix, which keeps addresses unambiguous and prefix scans exact (`range`).
//! Values are stored as bytes; encoding them is left to the caller.
use vstd::prelude::*;

pub mod endian;
pub mod error;
pub mod keys;
pub mod address;
pub mod store;
pub mod path;
pub mod item;
pub mod map;
pub mod deque;
pub mod range;
pub mod cli_types;
pub mod cli;
pub mod keepers;

pub use address::PrimaryKey;
pub use cli_types::{Contractable, Deployable, NetContract};
pub use deque::{AppendStore, DequeStore};
pub use error::StorageError;
pub use item::Item;
pub use keys::KeySegment;
pub use map::KeyedMap;
pub use path::{Path, UpdateError};
pub use range::{Bound, Order};

//! Logic of an ESP overlay for a UE4 game: pointer chains through the game's
//! object graph, readability checks with a region cache, the class
//! inheritance filter, enemy classification by class name, and the class
//! grouping and selection behind the overlay's filters.
//!
//! The game's memory is read through readers handed in by the caller (see
//! `reader::is_reader`). The contracts hold under this model: a reader
//! answers for every address and gives one answer per address, so the
//! memory it reads does not change during one call of the library.
use vstd::prelude::*;

pub mod features;
pub mod memory;
pub mod reader;
pub mod region_cache;
pub mod text;

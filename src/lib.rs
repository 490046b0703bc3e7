//! A log-structured key-value storage engine: append-only data segments,
//! checksummed hint files for fast recovery, and an in-memory key directory.
//! The library holds the record formats and every decision of the engine;
//! the caller performs the file operations it asks for.

pub mod bytes;
pub mod cask;
pub mod data;
pub mod hash;
pub mod hint;
pub mod index;
pub mod log;
pub mod names;
pub mod segment;

pub use cask::{read_value, Cask};
pub use data::{CodecError, Entry};
pub use hint::{decode_hint_file, Hint};
pub use index::{KeyDir, Location};
pub use log::{Append, Log};
pub use names::{get_data_file_path, get_hint_file_path, parse_data_file_name};
pub use segment::{Entries, Hints, RecreateHints};

//! A small persistent store of entries, each with an access count and a
//! last-access time, kept as one text record per line.
//!
//! - [`field`]: an entry and its record line, `<count>,<time>,<data>`.
//! - [`time`]: timestamps and their RFC 3339 text.
//! - [`number`]: the decimal count field.
//! - [`lines`]: splitting a store text into lines.
//! - [`db`]: reading a store, adding an entry, and changing one record in
//!   place.
//! - [`reconcile`]: merging a list of names into a store and writing the
//!   whole store.
//! - [`sort`]: stable orders for listing a store.

pub mod db;
pub mod field;
pub mod lines;
pub mod number;
pub mod reconcile;
pub mod sort;
pub mod text;
pub mod time;

pub use db::{add_db, increment_db, is_valid_entry, read_db, setfield_db, DbError, Patch};
pub use field::{parse_line, record_line, Field, RecordError};
pub use lines::split_lines;
pub use reconcile::{get_old_fields, init_db, update_db, update_fields, write_fields};
pub use sort::{sort_fields, stable_order, FieldSlice, SortMode};
pub use time::{format_time, parse_time, time_from_parsed, TimeError, Timestamp};

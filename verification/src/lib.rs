pub mod date;
pub mod date_filter;
pub mod date_parse;
pub mod entry;
pub mod strutil;
pub mod time_parse;
pub mod timestamp;
pub mod util_time;

pub use date_filter::DateFilter;
pub use entry::{hh_mm, pick, Entry, EntryIterator};

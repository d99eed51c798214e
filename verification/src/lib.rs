//! A directory lister in the spirit of `ls`: which entries are shown, in what
//! order, and how they are laid out on the terminal.
//!
//! The library decides; the caller reads directories and writes the bytes
//! it is given. `command` turns the flags into a `Config`; `list` walks the
//! directories; `entry` orders entries; `output`, `columns` and `size` lay them out; `system`
//! holds what is asked of the system through other crates.

pub mod bytes;
pub mod columns;
pub mod command;
pub mod config;
pub mod entry;
pub mod list;
pub mod output;
pub mod size;
pub mod system;

pub use bytes::{compare_bytes, decimal, join_path, Order};
pub use command::{extract_format, extract_hidden_mode, extract_paths, extract_sort, CommandLine};
pub use config::{Config, Format, HiddenMode, Sort};
pub use entry::{needs_link_target, sort_entries_by, EntryInfo, ErrorKind, FileTime, Metadata};
pub use list::{gnu_style_error, Action, Lister};
pub use size::human_size;
pub use columns::{calculate_columns_widths, columns_for_width, write_columns};
pub use output::{
    get_formatter, is_old, mode_string, time_pattern, total_kb_blocks, ColumnsFormatter,
    Formatter, HumanLongFormatter, LongFormatColumnWidths, LongFormatLine, LongFormatter, OneLineFormatter,
    OutputFormatter,
};

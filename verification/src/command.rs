//! From the flags on the command line to a `Config`.
//!
//! Each flag is given by its position among the arguments, or 0 where it was
//! not given on the command line; options that override each other are
//! decided by those positions.

use vstd::prelude::*;
use crate::config::{Config, Format, HiddenMode, Sort};

verus! {

/// The flags of one command line, each by its position (0: not given).
pub struct CommandLine {
    /// `-1`
    pub one_line: usize,
    /// `-l`
    pub long: usize,
    /// `-a`
    pub all: usize,
    /// `-A`
    pub almost_all: usize,
    /// `-f`
    pub unsorted_all: usize,
    /// `-t`
    pub time: usize,
    /// `-S`
    pub size: usize,
    /// `-r`
    pub reverse: bool,
    /// `-d`
    pub directory: bool,
    /// `-R`
    pub recursive: bool,
    /// `-h`
    pub human_readable: bool,
    /// The operands (`.` where none was given).
    pub paths: Vec<Vec<u8>>,
}

pub open spec fn max_spec(a: int, b: int) -> int {
    if a >= b { a } else { b }
}

/// The layout the flags ask for: `-l` wherever it stands, else `-1`.
pub open spec fn format_spec(one_line: int, long: int) -> Format {
    if max_spec(one_line, long) == 0 {
        Format::Default
    } else if long > 0 {
        Format::Long
    } else {
        Format::OneLine
    }
}

/// The hidden-entry mode: the last of `-a`, `-A`, `-f` decides.
pub open spec fn hidden_mode_spec(all: int, almost_all: int, unsorted_all: int) -> HiddenMode {
    let m = max_spec(max_spec(all, almost_all), unsorted_all);
    if m == 0 {
        HiddenMode::Default
    } else if m == almost_all {
        HiddenMode::AlmostAll
    } else {
        HiddenMode::All
    }
}

/// The sort key: the last of `-t`, `-S` and `-f` decides; `-f` leaves the
/// entries unsorted.
pub open spec fn sort_spec(time: int, size: int, unsorted_all: int) -> Sort {
    let m = max_spec(max_spec(time, size), unsorted_all);
    if m == 0 {
        Sort::Default
    } else if m == time {
        Sort::Time
    } else if m == size {
        Sort::Size
    } else {
        Sort::Unsorted
    }
}

pub fn extract_format(options: &CommandLine) -> (f: Format)
    ensures
        f == format_spec(options.one_line as int, options.long as int),
{
    let one_line_idx = options.one_line;
    let long_idx = options.long;
    let max_idx = if one_line_idx >= long_idx { one_line_idx } else { long_idx };
    if max_idx == 0 {
        Format::Default
    } else if long_idx > 0 {
        Format::Long
    } else {
        Format::OneLine
    }
}

pub fn extract_hidden_mode(options: &CommandLine) -> (h: HiddenMode)
    ensures
        h == hidden_mode_spec(
            options.all as int,
            options.almost_all as int,
            options.unsorted_all as int,
        ),
{
    let all_idx = options.all;
    let almost_all_idx = options.almost_all;
    let unsorted_all_idx = options.unsorted_all;
    let m1 = if all_idx >= almost_all_idx { all_idx } else { almost_all_idx };
    let max_idx = if m1 >= unsorted_all_idx { m1 } else { unsorted_all_idx };
    if max_idx == 0 {
        HiddenMode::Default
    } else if max_idx == almost_all_idx {
        HiddenMode::AlmostAll
    } else {
        HiddenMode::All
    }
}

pub fn extract_sort(options: &CommandLine) -> (s: Sort)
    ensures
        s == sort_spec(options.time as int, options.size as int, options.unsorted_all as int),
{
    let time_idx = options.time;
    let size_idx = options.size;
    let unsorted_idx = options.unsorted_all;
    let m1 = if time_idx >= size_idx { time_idx } else { size_idx };
    let max_idx = if m1 >= unsorted_idx { m1 } else { unsorted_idx };
    if max_idx == 0 {
        Sort::Default
    } else if max_idx == time_idx {
        Sort::Time
    } else if max_idx == size_idx {
        Sort::Size
    } else {
        Sort::Unsorted
    }
}

/// A copy of the operands.
pub fn extract_paths(options: &CommandLine) -> (paths: Vec<Vec<u8>>)
    ensures
        paths@.len() == options.paths@.len(),
        forall|i: int| 0 <= i < paths@.len() ==> #[trigger] paths@[i]@ == options.paths@[i]@,
{
    let mut paths: Vec<Vec<u8>> = Vec::new();
    let mut i: usize = 0;
    while i < options.paths.len()
        invariant
            i <= options.paths@.len(),
            paths@.len() == i,
            forall|k: int| 0 <= k < i ==> #[trigger] paths@[k]@ == options.paths@[k]@,
        decreases options.paths.len() - i,
    {
        let p = crate::bytes::copy_bytes(options.paths[i].as_slice());
        paths.push(p);
        i = i + 1;
    }
    paths
}

impl Config {
    /// The configuration that a command line asks for.
    pub fn from(options: &CommandLine) -> (c: Config)
        ensures
            c.format == format_spec(options.one_line as int, options.long as int),
            c.hidden_mode == hidden_mode_spec(
                options.all as int,
                options.almost_all as int,
                options.unsorted_all as int,
            ),
            c.reverse == options.reverse,
            c.list_dir == options.directory,
            c.recursive == options.recursive,
            c.sort == sort_spec(
                options.time as int,
                options.size as int,
                options.unsorted_all as int,
            ),
            c.human_readable == options.human_readable,
            c.path_seqs() == options.paths@.map_values(|p: Vec<u8>| p@),
    {
        let paths = extract_paths(options);
        let c = Config {
            format: extract_format(options),
            hidden_mode: extract_hidden_mode(options),
            reverse: options.reverse,
            list_dir: options.directory,
            recursive: options.recursive,
            sort: extract_sort(options),
            human_readable: options.human_readable,
            paths,
        };
        proof {
            assert(c.path_seqs() =~= options.paths@.map_values(|p: Vec<u8>| p@));
        }
        c
    }
}

} // verus!

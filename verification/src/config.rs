//! What a listing is asked to do.

use vstd::prelude::*;

verus! {

/// How the entries of one listing are laid out.
#[derive(PartialEq, Eq, Structural, Clone, Copy, Debug)]
pub enum Format {
    /// One name per line (`-1`).
    OneLine,
    /// The long format with mode, links, owner, group, size and time (`-l`).
    Long,
    /// Names in as many columns as the terminal holds.
    Default,
}

/// Which entries whose names start with `.` are shown.
#[derive(PartialEq, Eq, Structural, Clone, Copy, Debug)]
pub enum HiddenMode {
    /// All of them, and `.` and `..` besides (`-a`, `-f`).
    All,
    /// All of them, without `.` and `..` (`-A`).
    AlmostAll,
    /// None of them.
    Default,
}

/// The key that entries are sorted by.
#[derive(PartialEq, Eq, Structural, Clone, Copy, Debug)]
pub enum Sort {
    /// Newest first (`-t`).
    Time,
    /// Largest first (`-S`).
    Size,
    /// By name.
    Default,
    /// Not at all: the order the directory gives (`-f`).
    Unsorted,
}

/// The options of one run.
pub struct Config {
    pub format: Format,
    pub hidden_mode: HiddenMode,
    pub reverse: bool,
    pub list_dir: bool,
    pub recursive: bool,
    pub sort: Sort,
    /// Sizes in the long format with a unit suffix, such as `1.5K` (`-h`).
    pub human_readable: bool,
    /// The operands, as byte strings.
    pub paths: Vec<Vec<u8>>,
}

impl Config {
    /// The operands, each as a byte sequence.
    pub open spec fn path_seqs(&self) -> Seq<Seq<u8>> {
        self.paths@.map_values(|p: Vec<u8>| p@)
    }
}

} // verus!

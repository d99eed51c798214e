//! Writing a listing: one name per line, the long format, or columns.

use vstd::prelude::*;
use vstd::utf8::valid_utf8;
use crate::bytes::{
    align_left, align_right, decimal, decimal_spec, push_all, push_left_aligned,
    push_right_aligned,
};
use crate::columns::{
    calculate_columns_widths, ceil_div, cell, cells, column_choice, columns_ok, columns_spec,
    fit_columns, lemma_fit_bound, names, rows_spec, widths_as_nat, write_columns,
};
use crate::config::{Config, Format};
use crate::entry::{is_permutation, lemma_permutation_onto, EntryInfo};
use crate::size::{human_size, human_size_spec};
use crate::system::{
    days_since, format_local_time, in_calendar_range, lookup_group_name, lookup_user_name,
    to_utf8_lossy, utf8_lossy,
};

verus! {

/// `c` where the permission bit `mask` is set, else `-`.
pub open spec fn perm_char(permissions: u32, mask: u32, c: u8) -> u8 {
    if permissions & mask > 0 {
        c
    } else {
        45u8
    }
}

/// The mode column: `d` for a directory, `l` for a symbolic link, `-`
/// otherwise, then `rwx` for owner, group and others, `-` for a bit not set.
pub open spec fn mode_spec(is_dir: bool, is_symlink: bool, permissions: u32) -> Seq<u8> {
    seq![
        if is_dir { 100u8 } else if is_symlink { 108u8 } else { 45u8 },
        perm_char(permissions, 0o400, 114u8),
        perm_char(permissions, 0o200, 119u8),
        perm_char(permissions, 0o100, 120u8),
        perm_char(permissions, 0o40, 114u8),
        perm_char(permissions, 0o20, 119u8),
        perm_char(permissions, 0o10, 120u8),
        perm_char(permissions, 0o4, 114u8),
        perm_char(permissions, 0o2, 119u8),
        perm_char(permissions, 0o1, 120u8),
    ]
}

fn push_perm(mode: &mut Vec<u8>, permissions: u32, mask: u32, c: u8)
    ensures
        final(mode)@ == old(mode)@.push(perm_char(permissions, mask, c)),
{
    if permissions & mask > 0 {
        mode.push(c);
    } else {
        mode.push(45u8);
    }
}

/// The mode column of an entry, such as `drwxr-xr-x`.
pub fn mode_string(is_dir: bool, is_symlink: bool, permissions: u32) -> (mode: Vec<u8>)
    ensures
        mode@ == mode_spec(is_dir, is_symlink, permissions),
{
    let mut mode: Vec<u8> = Vec::new();
    if is_dir {
        mode.push(100u8);
    } else if is_symlink {
        mode.push(108u8);
    } else {
        mode.push(45u8);
    }
    push_perm(&mut mode, permissions, 0o400, 114u8);
    push_perm(&mut mode, permissions, 0o200, 119u8);
    push_perm(&mut mode, permissions, 0o100, 120u8);
    push_perm(&mut mode, permissions, 0o40, 114u8);
    push_perm(&mut mode, permissions, 0o20, 119u8);
    push_perm(&mut mode, permissions, 0o10, 120u8);
    push_perm(&mut mode, permissions, 0o4, 114u8);
    push_perm(&mut mode, permissions, 0o2, 119u8);
    push_perm(&mut mode, permissions, 0o1, 120u8);
    proof {
        assert(mode@ =~= mode_spec(is_dir, is_symlink, permissions));
    }
    mode
}

/// ` -> `
pub open spec fn arrow() -> Seq<u8> {
    seq![32u8, 45u8, 62u8, 32u8]
}

/// The name column: the name shown as text, and for a symbolic link whose
/// target was read, ` -> ` and the target.
pub open spec fn display_name_spec(name: Seq<u8>, target: Option<Seq<u8>>) -> Seq<u8> {
    match target {
        Some(t) => utf8_lossy(name) + arrow() + utf8_lossy(t),
        None => utf8_lossy(name),
    }
}

/// An owner or group column: the name found for the id, else the id in
/// decimal.
pub open spec fn owner_spec(found: Option<Seq<u8>>, id: u32) -> Seq<u8> {
    match found {
        Some(n) => n,
        None => decimal_spec(id as nat),
    }
}

/// The size column: the size in bytes, or with `-h` in a unit people
/// read (`1.5K`).
pub open spec fn size_text(size: u64, human_readable: bool) -> Seq<u8> {
    if human_readable {
        human_size_spec(size as nat)
    } else {
        decimal_spec(size as nat)
    }
}

fn size_column(size: u64, human_readable: bool) -> (r: Vec<u8>)
    ensures
        r@ == size_text(size, human_readable),
{
    if human_readable {
        human_size(size as u128)
    } else {
        decimal(size)
    }
}

/// Entries modified more than this many days ago show the year in place of
/// the time of day.
pub open spec fn recent_days() -> int {
    180
}

/// Whether a file last modified `age_days` days ago shows its year.
pub fn is_old(age_days: i64) -> (old: bool)
    ensures
        old == (age_days > recent_days()),
{
    age_days > 180
}

/// The pattern the modification time is written with: month, day and year
/// for old files, month, day, hour and minute for recent ones.
pub fn time_pattern(old: bool) -> (pattern: &'static str)
    ensures
        old ==> pattern@ == "%b %e  %Y"@,
        !old ==> pattern@ == "%b %e %H:%M"@,
{
    if old {
        "%b %e  %Y"
    } else {
        "%b %e %H:%M"
    }
}

/// The columns of one line of the long format, before alignment.
pub struct LongFormatLine {
    pub mode: Vec<u8>,
    pub nlink: Vec<u8>,
    pub user_name: Vec<u8>,
    pub group_name: Vec<u8>,
    pub size: Vec<u8>,
    pub modified: Vec<u8>,
    pub name: Vec<u8>,
}

impl LongFormatLine {
    /// The columns of an entry's line, the parts the system tells (user and
    /// group names, modification time) given; sizes as `size_text` writes
    /// them.
    pub fn from_parts(
        value: &EntryInfo,
        user: Option<Vec<u8>>,
        group: Option<Vec<u8>>,
        modified: Vec<u8>,
        human_readable: bool,
    ) -> (line: LongFormatLine)
        ensures
            line.mode@ == mode_spec(value.is_dir, value.is_symlink, value.permissions),
            line.nlink@ == decimal_spec(value.nlink as nat),
            line.user_name@ == owner_spec(
                match user {
                    Some(n) => Some(n@),
                    None => None,
                },
                value.uid,
            ),
            line.group_name@ == owner_spec(
                match group {
                    Some(n) => Some(n@),
                    None => None,
                },
                value.gid,
            ),
            line.size@ == size_text(value.size, human_readable),
            line.modified@ == modified@,
            line.name@ == display_name_spec(
                value.name@,
                match value.symlink_target {
                    Some(t) => Some(t@),
                    None => None,
                },
            ),
    {
        let mode = mode_string(value.is_dir, value.is_symlink, value.permissions);
        let user_name = match user {
            Some(n) => n,
            None => decimal(value.uid as u64),
        };
        let group_name = match group {
            Some(n) => n,
            None => decimal(value.gid as u64),
        };
        let name = match &value.symlink_target {
            Some(target) => {
                let mut n = to_utf8_lossy(value.name.as_slice());
                push_all(&mut n, &[32u8, 45u8, 62u8, 32u8]);
                let t = to_utf8_lossy(target.as_slice());
                push_all(&mut n, t.as_slice());
                n
            },
            None => to_utf8_lossy(value.name.as_slice()),
        };
        LongFormatLine {
            mode,
            nlink: decimal(value.nlink),
            user_name,
            group_name,
            size: size_column(value.size, human_readable),
            modified,
            name,
        }
    }

    /// The columns of an entry's line: user and group names from the
    /// system's databases, the time in the local time zone, the size in
    /// bytes.
    pub fn from(value: &EntryInfo) -> (line: LongFormatLine)
        requires
            in_calendar_range(value.modified_at),
        ensures
            line_shows(line, *value, false),
    {
        LongFormatLine::from_entry(value, false)
    }

    /// The columns of an entry's line, with sizes for people to read where
    /// `human_readable` is set.
    pub fn from_entry(value: &EntryInfo, human_readable: bool) -> (line: LongFormatLine)
        requires
            in_calendar_range(value.modified_at),
        ensures
            line_shows(line, *value, human_readable),
    {
        let user = lookup_user_name(value.uid);
        let group = lookup_group_name(value.gid);
        let old = is_old(days_since(value.modified_at));
        let modified = format_local_time(value.modified_at, time_pattern(old));
        LongFormatLine::from_parts(value, user, group, modified, human_readable)
    }
}

/// The width of the widest of `fields`, in bytes.
pub open spec fn max_len(fields: Seq<Seq<u8>>) -> nat
    decreases fields.len(),
{
    if fields.len() == 0 {
        0
    } else {
        let m = max_len(fields.drop_last());
        if fields.last().len() > m {
            fields.last().len()
        } else {
            m
        }
    }
}

pub open spec fn modes(lines: Seq<LongFormatLine>) -> Seq<Seq<u8>> {
    lines.map_values(|l: LongFormatLine| l.mode@)
}

pub open spec fn nlinks(lines: Seq<LongFormatLine>) -> Seq<Seq<u8>> {
    lines.map_values(|l: LongFormatLine| l.nlink@)
}

pub open spec fn user_names(lines: Seq<LongFormatLine>) -> Seq<Seq<u8>> {
    lines.map_values(|l: LongFormatLine| l.user_name@)
}

pub open spec fn group_names(lines: Seq<LongFormatLine>) -> Seq<Seq<u8>> {
    lines.map_values(|l: LongFormatLine| l.group_name@)
}

pub open spec fn sizes(lines: Seq<LongFormatLine>) -> Seq<Seq<u8>> {
    lines.map_values(|l: LongFormatLine| l.size@)
}

pub open spec fn modifieds(lines: Seq<LongFormatLine>) -> Seq<Seq<u8>> {
    lines.map_values(|l: LongFormatLine| l.modified@)
}

/// The width of each aligned column of the long format.
pub struct LongFormatColumnWidths {
    pub mode: usize,
    pub nlink: usize,
    pub user_name: usize,
    pub group_name: usize,
    pub size: usize,
    pub modified: usize,
}

impl LongFormatColumnWidths {
    /// Each column is as wide as its widest entry (in bytes).
    pub open spec fn fits(self, lines: Seq<LongFormatLine>) -> bool {
        &&& self.mode == max_len(modes(lines))
        &&& self.nlink == max_len(nlinks(lines))
        &&& self.user_name == max_len(user_names(lines))
        &&& self.group_name == max_len(group_names(lines))
        &&& self.size == max_len(sizes(lines))
        &&& self.modified == max_len(modifieds(lines))
    }

    /// The column widths for these lines.
    pub fn from_lines(lines: &[LongFormatLine]) -> (w: LongFormatColumnWidths)
        ensures
            w.fits(lines@),
    {
        let mut w = LongFormatColumnWidths {
            mode: 0,
            nlink: 0,
            user_name: 0,
            group_name: 0,
            size: 0,
            modified: 0,
        };
        let mut i: usize = 0;
        while i < lines.len()
            invariant
                i <= lines@.len(),
                w.fits(lines@.subrange(0, i as int)),
            decreases lines.len() - i,
        {
            let ghost prefix = lines@.subrange(0, i as int);
            let ghost next = lines@.subrange(0, i + 1);
            proof {
                assert(next.drop_last() =~= prefix);
                assert(modes(next).drop_last() =~= modes(prefix));
                assert(nlinks(next).drop_last() =~= nlinks(prefix));
                assert(user_names(next).drop_last() =~= user_names(prefix));
                assert(group_names(next).drop_last() =~= group_names(prefix));
                assert(sizes(next).drop_last() =~= sizes(prefix));
                assert(modifieds(next).drop_last() =~= modifieds(prefix));
            }
            let l = &lines[i];
            if l.mode.len() > w.mode {
                w.mode = l.mode.len();
            }
            if l.nlink.len() > w.nlink {
                w.nlink = l.nlink.len();
            }
            if l.user_name.len() > w.user_name {
                w.user_name = l.user_name.len();
            }
            if l.group_name.len() > w.group_name {
                w.group_name = l.group_name.len();
            }
            if l.size.len() > w.size {
                w.size = l.size.len();
            }
            if l.modified.len() > w.modified {
                w.modified = l.modified.len();
            }
            i = i + 1;
        }
        proof {
            assert(lines@.subrange(0, i as int) =~= lines@);
        }
        w
    }
}

/// One line of the long format: mode, link count, owner, group, size and
/// time aligned to their columns (text left, numbers right), one space
/// apart, then the name and a newline.
pub open spec fn long_line_spec(line: LongFormatLine, w: LongFormatColumnWidths) -> Seq<u8> {
    align_right(line.mode@, w.mode as nat) + seq![32u8] + align_right(line.nlink@, w.nlink as nat)
        + seq![32u8] + align_left(line.user_name@, w.user_name as nat) + seq![32u8] + align_left(
        line.group_name@,
        w.group_name as nat,
    ) + seq![32u8] + align_right(line.size@, w.size as nat) + seq![32u8] + align_right(
        line.modified@,
        w.modified as nat,
    ) + seq![32u8] + line.name@ + seq![10u8]
}

impl LongFormatLine {
    /// Writes this line aligned to the column widths.
    pub fn write(&self, out: &mut Vec<u8>, col_widths: &LongFormatColumnWidths)
        ensures
            final(out)@ == old(out)@ + long_line_spec(*self, *col_widths),
    {
        push_right_aligned(out, self.mode.as_slice(), col_widths.mode);
        out.push(32u8);
        push_right_aligned(out, self.nlink.as_slice(), col_widths.nlink);
        out.push(32u8);
        push_left_aligned(out, self.user_name.as_slice(), col_widths.user_name);
        out.push(32u8);
        push_left_aligned(out, self.group_name.as_slice(), col_widths.group_name);
        out.push(32u8);
        push_right_aligned(out, self.size.as_slice(), col_widths.size);
        out.push(32u8);
        push_right_aligned(out, self.modified.as_slice(), col_widths.modified);
        out.push(32u8);
        push_all(out, self.name.as_slice());
        out.push(10u8);
        proof {
            assert(out@ =~= old(out)@ + long_line_spec(*self, *col_widths));
        }
    }
}

/// The sum of the entries' sizes in 512-byte blocks.
pub open spec fn blocks_sum(entries: Seq<EntryInfo>) -> nat
    decreases entries.len(),
{
    if entries.len() == 0 {
        0
    } else {
        blocks_sum(entries.drop_last()) + entries.last().blocks_512 as nat
    }
}

/// The total the long format starts with: the blocks the entries take,
/// counted in kilobytes (two 512-byte blocks each).
pub fn total_kb_blocks(entries: &[EntryInfo]) -> (total: u64)
    requires
        blocks_sum(entries@) <= u64::MAX,
    ensures
        total == blocks_sum(entries@) / 2,
{
    total_blocks(entries) / 2
}

/// The 512-byte blocks the entries take.
fn total_blocks(entries: &[EntryInfo]) -> (sum: u64)
    requires
        blocks_sum(entries@) <= u64::MAX,
    ensures
        sum == blocks_sum(entries@),
{
    let mut sum: u64 = 0;
    let mut i: usize = 0;
    while i < entries.len()
        invariant
            i <= entries@.len(),
            sum == blocks_sum(entries@.subrange(0, i as int)),
            blocks_sum(entries@) <= u64::MAX,
        decreases entries.len() - i,
    {
        proof {
            assert(entries@.subrange(0, i + 1).drop_last() =~= entries@.subrange(0, i as int));
            lemma_blocks_sum_prefix(entries@, i + 1);
        }
        sum = sum + entries[i].blocks_512;
        i = i + 1;
    }
    proof {
        assert(entries@.subrange(0, i as int) =~= entries@);
    }
    sum
}

/// The blocks of a prefix are no more than those of the whole.
proof fn lemma_blocks_sum_prefix(entries: Seq<EntryInfo>, k: int)
    requires
        0 <= k <= entries.len(),
    ensures
        blocks_sum(entries.subrange(0, k)) <= blocks_sum(entries),
    decreases entries.len() - k,
{
    if k < entries.len() {
        lemma_blocks_sum_prefix(entries, k + 1);
        assert(entries.subrange(0, k + 1).drop_last() =~= entries.subrange(0, k));
    } else {
        assert(entries.subrange(0, k) =~= entries);
    }
}

/// `total ` followed by the blocks the entries take and a newline: counted
/// in kilobytes, or with `-h` as the bytes of their 512-byte blocks written
/// for people to read.
pub open spec fn total_line_spec(entries: Seq<EntryInfo>, human_readable: bool) -> Seq<u8> {
    seq![116u8, 111u8, 116u8, 97u8, 108u8, 32u8] + (if human_readable {
        human_size_spec(blocks_sum(entries) * 512)
    } else {
        decimal_spec(blocks_sum(entries) / 2)
    }) + seq![10u8]
}

/// The lines of the long format after the total, in order.
pub open spec fn long_lines_spec(lines: Seq<LongFormatLine>, w: LongFormatColumnWidths) -> Seq<
    u8,
>
    decreases lines.len(),
{
    if lines.len() == 0 {
        Seq::empty()
    } else {
        long_lines_spec(lines.drop_last(), w) + long_line_spec(lines.last(), w)
    }
}

/// `line` holds what the long format shows of `entry`: the columns that
/// follow from the entry itself exactly (the size as `size_text` writes it),
/// the owner and group as a name or the id in decimal, and a time as text.
pub open spec fn line_shows(line: LongFormatLine, entry: EntryInfo, human_readable: bool) -> bool {
    &&& line.mode@ == mode_spec(entry.is_dir, entry.is_symlink, entry.permissions)
    &&& line.nlink@ == decimal_spec(entry.nlink as nat)
    &&& line.user_name@ == decimal_spec(entry.uid as nat) || valid_utf8(line.user_name@)
    &&& line.group_name@ == decimal_spec(entry.gid as nat) || valid_utf8(line.group_name@)
    &&& line.size@ == size_text(entry.size, human_readable)
    &&& valid_utf8(line.modified@)
    &&& line.name@ == display_name_spec(
        entry.name@,
        match entry.symlink_target {
            Some(t) => Some(t@),
            None => None,
        },
    )
}

/// The long format: the total, then for each entry a line, all lines
/// aligned to the same column widths.
pub open spec fn long_listing(
    entries: Seq<EntryInfo>,
    lines: Seq<LongFormatLine>,
    out: Seq<u8>,
    human_readable: bool,
) -> bool {
    &&& lines.len() == entries.len()
    &&& forall|i: int|
        0 <= i < lines.len() ==> line_shows(#[trigger] lines[i], entries[i], human_readable)
    &&& exists|w: LongFormatColumnWidths|
        w.fits(lines) && out == total_line_spec(entries, human_readable) + long_lines_spec(lines, w)
}

/// The entries can be shown in the long format: their times are on
/// chrono's calendar and their blocks add up within `u64`.
pub open spec fn long_format_ok(entries: Seq<EntryInfo>) -> bool {
    &&& blocks_sum(entries) <= u64::MAX
    &&& forall|i: int| 0 <= i < entries.len() ==> in_calendar_range(#[trigger] entries[i].modified_at)
}

/// A way of writing the entries of one listing.
pub trait OutputFormatter {
    /// The entries this formatter can write.
    spec fn accepts(&self, entries: Seq<EntryInfo>) -> bool;

    /// `text` is what this formatter may write for `entries`.
    spec fn shows(&self, entries: Seq<EntryInfo>, text: Seq<u8>) -> bool;

    /// Appends the listing of `entries` to `out`.
    fn write(&self, out: &mut Vec<u8>, entries: &[EntryInfo])
        requires
            self.accepts(entries@),
        ensures
            final(out)@.len() >= old(out)@.len(),
            final(out)@.subrange(0, old(out)@.len() as int) == old(out)@,
            self.shows(entries@, final(out)@.subrange(old(out)@.len() as int, final(out)@.len() as int)),
    ;
}

/// Appends the long format of `entries` to `out`, sizes for people to read
/// where `human_readable` is set.
fn write_long(out: &mut Vec<u8>, entries: &[EntryInfo], human_readable: bool)
    requires
        long_format_ok(entries@),
    ensures
        final(out)@.len() >= old(out)@.len(),
        final(out)@.subrange(0, old(out)@.len() as int) == old(out)@,
        exists|lines: Seq<LongFormatLine>|
            long_listing(
                entries@,
                lines,
                final(out)@.subrange(old(out)@.len() as int, final(out)@.len() as int),
                human_readable,
            ),
{
    let ghost start = out@;
    let mut lines: Vec<LongFormatLine> = Vec::new();
    let mut i: usize = 0;
    while i < entries.len()
        invariant
            i <= entries@.len(),
            lines@.len() == i,
            long_format_ok(entries@),
            forall|k: int|
                0 <= k < i ==> line_shows(#[trigger] lines@[k], entries@[k], human_readable),
        decreases entries.len() - i,
    {
        lines.push(LongFormatLine::from_entry(&entries[i], human_readable));
        i = i + 1;
    }
    let col_widths = LongFormatColumnWidths::from_lines(lines.as_slice());
    push_all(out, &[116u8, 111u8, 116u8, 97u8, 108u8, 32u8]);
    let blocks = total_blocks(entries);
    let total = if human_readable {
        human_size(blocks as u128 * 512)
    } else {
        decimal(blocks / 2)
    };
    push_all(out, total.as_slice());
    out.push(10u8);
    let ghost header = out@;
    proof {
        assert(header =~= start + total_line_spec(entries@, human_readable));
    }
    let mut j: usize = 0;
    while j < lines.len()
        invariant
            j <= lines@.len(),
            out@ == header + long_lines_spec(lines@.subrange(0, j as int), col_widths),
        decreases lines.len() - j,
    {
        lines[j].write(out, &col_widths);
        proof {
            assert(lines@.subrange(0, j + 1).drop_last() =~= lines@.subrange(0, j as int));
        }
        j = j + 1;
    }
    proof {
        assert(lines@.subrange(0, j as int) =~= lines@);
        let added = out@.subrange(start.len() as int, out@.len() as int);
        assert(added =~= total_line_spec(entries@, human_readable) + long_lines_spec(
            lines@,
            col_widths,
        ));
        assert(out@.subrange(0, start.len() as int) =~= start);
        assert(long_listing(entries@, lines@, added, human_readable));
    }
}

/// Writes entries in the long format, sizes in bytes.
pub struct LongFormatter;

impl OutputFormatter for LongFormatter {
    open spec fn accepts(&self, entries: Seq<EntryInfo>) -> bool {
        long_format_ok(entries)
    }

    open spec fn shows(&self, entries: Seq<EntryInfo>, text: Seq<u8>) -> bool {
        exists|lines: Seq<LongFormatLine>| long_listing(entries, lines, text, false)
    }

    fn write(&self, out: &mut Vec<u8>, entries: &[EntryInfo]) {
        write_long(out, entries, false);
    }
}

/// Writes entries in the long format, sizes for people to read (`-l -h`).
pub struct HumanLongFormatter;

impl OutputFormatter for HumanLongFormatter {
    open spec fn accepts(&self, entries: Seq<EntryInfo>) -> bool {
        long_format_ok(entries)
    }

    open spec fn shows(&self, entries: Seq<EntryInfo>, text: Seq<u8>) -> bool {
        exists|lines: Seq<LongFormatLine>| long_listing(entries, lines, text, true)
    }

    fn write(&self, out: &mut Vec<u8>, entries: &[EntryInfo]) {
        write_long(out, entries, true);
    }
}

/// The one-name-per-line format: each name's bytes and a newline.
pub open spec fn one_line_spec(entries: Seq<EntryInfo>) -> Seq<u8>
    decreases entries.len(),
{
    if entries.len() == 0 {
        Seq::empty()
    } else {
        one_line_spec(entries.drop_last()) + entries.last().name@ + seq![10u8]
    }
}

/// Writes one name per line.
pub struct OneLineFormatter;

impl OutputFormatter for OneLineFormatter {
    open spec fn accepts(&self, entries: Seq<EntryInfo>) -> bool {
        true
    }

    open spec fn shows(&self, entries: Seq<EntryInfo>, text: Seq<u8>) -> bool {
        text == one_line_spec(entries)
    }

    fn write(&self, out: &mut Vec<u8>, entries: &[EntryInfo])
        ensures
            final(out)@ == old(out)@ + one_line_spec(entries@),
    {
        let ghost start = out@;
        let mut i: usize = 0;
        while i < entries.len()
            invariant
                i <= entries@.len(),
                out@ == start + one_line_spec(entries@.subrange(0, i as int)),
            decreases entries.len() - i,
        {
            push_all(out, entries[i].name.as_slice());
            out.push(10u8);
            proof {
                assert(entries@.subrange(0, i + 1).drop_last() =~= entries@.subrange(0, i as int));
            }
            i = i + 1;
        }
        proof {
            assert(entries@.subrange(0, i as int) =~= entries@);
            assert(out@.subrange(0, start.len() as int) =~= start);
            assert(out@.subrange(start.len() as int, out@.len() as int) =~= one_line_spec(entries@));
        }
    }
}

/// Laid out in a single column of width 0, the names come one per line,
/// exactly as the one-per-line format writes them.
pub proof fn lemma_single_column_is_one_line(entries: Seq<EntryInfo>)
    ensures
        columns_spec(names(entries), seq![0usize]) == one_line_spec(entries),
{
    let n = entries.len() as int;
    assert(ceil_div(n, 1) == n);
    lemma_single_column_rows(entries, n);
    assert(entries.subrange(0, n) =~= entries);
}

proof fn lemma_single_column_rows(entries: Seq<EntryInfo>, r: int)
    requires
        0 <= r <= entries.len(),
    ensures
        rows_spec(names(entries), seq![0usize], entries.len() as int, r) == one_line_spec(
            entries.subrange(0, r),
        ),
    decreases r,
{
    if r > 0 {
        lemma_single_column_rows(entries, r - 1);
        let ns = names(entries);
        let n = entries.len() as int;
        let w = seq![0usize];
        assert(cells(ns, w, n, r - 1, 0) =~= Seq::<u8>::empty());
        assert(cell(ns, w, n, r - 1, 0) == ns[r - 1]);
        assert(cells(ns, w, n, r - 1, 1) =~= entries[r - 1].name@);
        assert(entries.subrange(0, r).drop_last() =~= entries.subrange(0, r - 1));
    }
}

/// The widths of a single column that needs no padding.
fn single_column() -> (v: Vec<usize>)
    ensures
        v@ == seq![0usize],
{
    let mut v: Vec<usize> = Vec::new();
    v.push(0);
    proof {
        assert(v@ =~= seq![0usize]);
    }
    v
}

/// Writes names in as many columns as the terminal holds.
pub struct ColumnsFormatter;

impl OutputFormatter for ColumnsFormatter {
    open spec fn accepts(&self, entries: Seq<EntryInfo>) -> bool {
        columns_ok(entries)
    }

    /// A layout of two or more columns that fits some terminal width, or,
    /// where the terminal holds none (or there is no terminal), one name
    /// per line.
    open spec fn shows(&self, entries: Seq<EntryInfo>, text: Seq<u8>) -> bool {
        ||| text == one_line_spec(entries)
        ||| exists|widths: Seq<usize>|
            column_choice(entries, widths) && text == columns_spec(names(entries), widths)
    }

    fn write(&self, out: &mut Vec<u8>, entries: &[EntryInfo])
        ensures
            entries@.len() <= 1 ==> final(out)@ == old(out)@ + one_line_spec(entries@),
    {
        let layout = calculate_columns_widths(entries);
        let ghost found = layout;
        proof {
            if let Some(v) = found {
                let term = choose|term: int|
                    0 <= term <= u16::MAX && fit_columns(
                        names(entries@),
                        entries@.len() as int,
                        term,
                    ) == Some(widths_as_nat(v@));
                assert forall|i: int| 0 <= i < names(entries@).len() implies #[trigger] names(
                    entries@,
                )[i].len() <= usize::MAX - 2 by {
                    assert(entries@[i].name@.len() + 2 <= usize::MAX);
                }
                let ws = widths_as_nat(v@);
                lemma_fit_bound(names(entries@), entries@.len() as int, term, usize::MAX - 2, ws);
                assert forall|k: int| 0 <= k < v@.len() implies #[trigger] v@[k] + 2
                    <= usize::MAX by {
                    assert(ws[k] == v@[k]);
                }
                if v@.len() > 0 {
                    assert(column_choice(entries@, v@));
                }
            }
        }
        let ghost start = out@;
        self.write_layout(out, entries, layout);
        proof {
            assert(out@.subrange(0, start.len() as int) =~= start);
            assert(out@.subrange(start.len() as int, out@.len() as int) =~= layout_text(
                entries@,
                found,
            ));
        }
    }
}

/// What the column format writes for the layout found, if any: the names
/// in its columns, or one name per line where no layout of at least one
/// column was found.
pub open spec fn layout_text(entries: Seq<EntryInfo>, layout: Option<Vec<usize>>) -> Seq<u8> {
    match layout {
        Some(w) => if w@.len() > 0 {
            columns_spec(names(entries), w@)
        } else {
            one_line_spec(entries)
        },
        None => one_line_spec(entries),
    }
}

/// Every column of the layout but the last leaves room for two spaces of
/// padding.
pub open spec fn layout_ok(layout: Option<Vec<usize>>) -> bool {
    layout matches Some(w) ==> forall|k: int|
        0 <= k < w@.len() - 1 ==> #[trigger] w@[k] + 2 <= usize::MAX
}

impl ColumnsFormatter {
    /// Writes the names in the columns of `layout`, or one per line where
    /// there is no layout or it has no columns.
    pub fn write_layout(&self, out: &mut Vec<u8>, entries: &[EntryInfo], layout: Option<Vec<usize>>)
        requires
            layout_ok(layout),
        ensures
            final(out)@ == old(out)@ + layout_text(entries@, layout),
    {
        let col_widths = match layout {
            Some(v) => if v.len() > 0 {
                v
            } else {
                single_column()
            },
            None => single_column(),
        };
        proof {
            lemma_single_column_is_one_line(entries@);
        }
        write_columns(out, entries, col_widths.as_slice());
    }
}

/// The formatter a configuration asks for.
pub enum Formatter {
    OneLine(OneLineFormatter),
    Long(LongFormatter),
    HumanLong(HumanLongFormatter),
    Columns(ColumnsFormatter),
}

/// The formatter for each layout; the long format with sizes for people
/// to read where `human_readable` is set.
pub open spec fn formatter_for(format: Format, human_readable: bool) -> Formatter {
    match format {
        Format::OneLine => Formatter::OneLine(OneLineFormatter),
        Format::Long => if human_readable {
            Formatter::HumanLong(HumanLongFormatter)
        } else {
            Formatter::Long(LongFormatter)
        },
        Format::Default => Formatter::Columns(ColumnsFormatter),
    }
}

impl OutputFormatter for Formatter {
    open spec fn accepts(&self, entries: Seq<EntryInfo>) -> bool {
        match self {
            Formatter::OneLine(f) => f.accepts(entries),
            Formatter::Long(f) => f.accepts(entries),
            Formatter::HumanLong(f) => f.accepts(entries),
            Formatter::Columns(f) => f.accepts(entries),
        }
    }

    open spec fn shows(&self, entries: Seq<EntryInfo>, text: Seq<u8>) -> bool {
        match self {
            Formatter::OneLine(f) => f.shows(entries, text),
            Formatter::Long(f) => f.shows(entries, text),
            Formatter::HumanLong(f) => f.shows(entries, text),
            Formatter::Columns(f) => f.shows(entries, text),
        }
    }

    fn write(&self, out: &mut Vec<u8>, entries: &[EntryInfo]) {
        match self {
            Formatter::OneLine(f) => f.write(out, entries),
            Formatter::Long(f) => f.write(out, entries),
            Formatter::HumanLong(f) => f.write(out, entries),
            Formatter::Columns(f) => f.write(out, entries),
        }
    }
}

/// The formatter for the configured layout.
pub fn get_formatter(config: &Config) -> (f: Formatter)
    ensures
        f == formatter_for(config.format, config.human_readable),
{
    match config.format {
        Format::OneLine => Formatter::OneLine(OneLineFormatter),
        Format::Long => if config.human_readable {
            Formatter::HumanLong(HumanLongFormatter)
        } else {
            Formatter::Long(LongFormatter)
        },
        Format::Default => Formatter::Columns(ColumnsFormatter),
    }
}

proof fn lemma_blocks_sum_remove(s: Seq<EntryInfo>, j: int)
    requires
        0 <= j < s.len(),
    ensures
        blocks_sum(s) == blocks_sum(s.remove(j)) + s[j].blocks_512,
    decreases s.len(),
{
    if j == s.len() - 1 {
        assert(s.remove(j) =~= s.drop_last());
    } else {
        lemma_blocks_sum_remove(s.drop_last(), j);
        assert(s.remove(j).drop_last() =~= s.drop_last().remove(j));
        assert(s.remove(j).last() == s.last());
    }
}

/// Reordering entries does not change the blocks they take.
proof fn lemma_blocks_sum_permuted(input: Seq<EntryInfo>, output: Seq<EntryInfo>, p: Seq<int>)
    requires
        is_permutation(p, input.len() as int),
        output.len() == input.len(),
        forall|k: int| 0 <= k < p.len() ==> output[k] == input[#[trigger] p[k]],
    ensures
        blocks_sum(output) == blocks_sum(input),
    decreases input.len(),
{
    let n = input.len() as int;
    if n > 0 {
        let j = p[n - 1];
        let input2 = input.remove(j);
        let output2 = output.drop_last();
        let p2 = Seq::new((n - 1) as nat, |k: int| if p[k] < j { p[k] } else { p[k] - 1 });
        assert forall|k: int| 0 <= k < n - 1 implies 0 <= #[trigger] p2[k] < n - 1 by {
            assert(p[k] != p[n - 1]);
            assert(0 <= p[k] < n);
        }
        assert forall|k: int, l: int| 0 <= k < l < n - 1 implies #[trigger] p2[k]
            != #[trigger] p2[l] by {
            assert(p[k] != p[l]);
            assert(p[k] != p[n - 1]);
            assert(p[l] != p[n - 1]);
        }
        assert forall|k: int| 0 <= k < p2.len() implies output2[k] == input2[#[trigger] p2[k]] by {
            assert(output[k] == input[p[k]]);
            assert(p[k] != p[n - 1]);
        }
        lemma_blocks_sum_permuted(input2, output2, p2);
        lemma_blocks_sum_remove(input, j);
        assert(output.last() == input[j]);
    }
}

/// What a formatter accepts does not depend on the order of the entries.
pub proof fn lemma_accepts_permuted(
    format: Format,
    human_readable: bool,
    input: Seq<EntryInfo>,
    output: Seq<EntryInfo>,
    p: Seq<int>,
)
    requires
        is_permutation(p, input.len() as int),
        output.len() == input.len(),
        forall|k: int| 0 <= k < p.len() ==> output[k] == input[#[trigger] p[k]],
        formatter_for(format, human_readable).accepts(input),
    ensures
        formatter_for(format, human_readable).accepts(output),
{
    let n = input.len() as int;
    lemma_permutation_onto(p, n);
    match format {
        Format::OneLine => {},
        Format::Long => {
            lemma_blocks_sum_permuted(input, output, p);
            assert forall|k: int| 0 <= k < output.len() implies in_calendar_range(
                #[trigger] output[k].modified_at,
            ) by {
                assert(output[k] == input[p[k]]);
            }
        },
        Format::Default => {
            assert forall|k: int| 0 <= k < output.len() implies #[trigger] output[k].name@.len() + 2
                <= usize::MAX by {
                assert(output[k] == input[p[k]]);
            }
        },
    }
}

} // verus!

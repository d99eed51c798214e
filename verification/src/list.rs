//! The course of a listing: which directories are read, in what order, and
//! what is written for each. The reading itself is left to the caller: the
//! lister says what to read next and turns what was read into output.

use vstd::prelude::*;
use vstd::string::StringSliceAdditionalSpecFns;
use std::collections::VecDeque;
use crate::bytes::{copy_bytes, join_path, join_spec, push_all};
use crate::config::{Config, HiddenMode, Sort};
use crate::entry::{
    is_permutation, is_stable_sort_of, lemma_permutation_onto, reaches, same_entry,
    sort_entries_by, stable_permutation, EntryInfo, ErrorKind,
};
use crate::output::{formatter_for, get_formatter, lemma_accepts_permuted, OutputFormatter};
use crate::system::{to_utf8_lossy, utf8_lossy};

verus! {

/// What the caller is to do next.
pub enum Action {
    /// Write `header`, read the directory at `path`, and hand its entries to
    /// `Lister::finish_dir`.
    ReadDir { path: Vec<u8>, header: Vec<u8> },
    /// Find the entry of each operand itself and hand them, in the order of
    /// the operands, to `Lister::finish_operands`.
    ListOperands,
    /// The listing is complete.
    Done,
}

/// `:` and a newline.
pub open spec fn colon_newline() -> Seq<u8> {
    seq![58u8, 10u8]
}

/// What is written before a directory's entries: its path and a colon, when
/// there are several operands or the listing is recursive.
pub open spec fn header_spec(config: Config, path: Seq<u8>) -> Seq<u8> {
    if config.paths@.len() > 1 || config.recursive {
        path + colon_newline()
    } else {
        Seq::empty()
    }
}

/// Whether an entry of this name is shown: names starting with `.` only
/// outside the default mode.
pub open spec fn shown(mode: HiddenMode, name: Seq<u8>) -> bool {
    mode != HiddenMode::Default || !(name.len() > 0 && name[0] == 46u8)
}

/// The positions among the first `k` names of the names that are shown.
pub open spec fn shown_indices(mode: HiddenMode, names: Seq<Seq<u8>>, k: int) -> Seq<int>
    decreases k,
{
    if k <= 0 {
        Seq::empty()
    } else if shown(mode, names[k - 1]) {
        shown_indices(mode, names, k - 1).push(k - 1)
    } else {
        shown_indices(mode, names, k - 1)
    }
}

/// The entries that are directories, in order.
pub open spec fn directories(entries: Seq<EntryInfo>) -> Seq<EntryInfo>
    decreases entries.len(),
{
    if entries.len() == 0 {
        Seq::empty()
    } else if entries.last().is_dir {
        directories(entries.drop_last()).push(entries.last())
    } else {
        directories(entries.drop_last())
    }
}

/// `a` and `b` hold entries with the same field values, one for one.
pub open spec fn same_entries(a: Seq<EntryInfo>, b: Seq<EntryInfo>) -> bool {
    a.len() == b.len() && forall|k: int| 0 <= k < a.len() ==> same_entry(#[trigger] a[k], b[k])
}

/// The paths of `entries` inside `dir`.
pub open spec fn joined(dir: Seq<u8>, entries: Seq<EntryInfo>) -> Seq<Seq<u8>> {
    entries.map_values(|e: EntryInfo| join_spec(dir, e.name@))
}

/// `text` is how `config` shows `entries`: sorted as configured, written
/// by the configured formatter.
pub open spec fn shows_sorted(config: Config, entries: Seq<EntryInfo>, text: Seq<u8>) -> bool {
    exists|sorted: Seq<EntryInfo>|
        is_stable_sort_of(entries, sorted, config.sort, config.reverse) && formatter_for(
            config.format,
            config.human_readable,
        ).shows(sorted, text)
}

/// The entries of one directory and, when asked for, its `.` and `..`.
pub open spec fn with_dots(entries: Seq<EntryInfo>, dots: Option<(EntryInfo, EntryInfo)>) -> Seq<
    EntryInfo,
> {
    match dots {
        Some((d, dd)) => entries.push(d).push(dd),
        None => entries,
    }
}

/// Lists directories one after another, as `ls` does.
pub struct Lister<'a> {
    config: &'a Config,
    queue: VecDeque<Vec<u8>>,
    started: bool,
}

impl<'a> Lister<'a> {
    /// The configuration of this listing.
    pub closed spec fn configuration(&self) -> Config {
        *self.config
    }

    /// The directories still to be listed, the next first.
    pub closed spec fn pending(&self) -> Seq<Seq<u8>> {
        self.queue@.map_values(|p: Vec<u8>| p@)
    }

    /// Whether the first action was taken.
    pub closed spec fn has_started(&self) -> bool {
        self.started
    }

    /// A lister for the operands of `config`.
    pub fn new(config: &'a Config) -> (l: Lister<'a>)
        ensures
            l.configuration() == *config,
            l.pending() == config.path_seqs(),
            !l.has_started(),
    {
        let mut queue: VecDeque<Vec<u8>> = VecDeque::new();
        let mut i: usize = 0;
        while i < config.paths.len()
            invariant
                i <= config.paths@.len(),
                queue@.len() == i,
                forall|k: int| 0 <= k < i ==> #[trigger] queue@[k]@ == config.paths@[k]@,
            decreases config.paths.len() - i,
        {
            queue.push_back(copy_bytes(config.paths[i].as_slice()));
            i = i + 1;
        }
        let l = Lister { config, queue, started: false };
        proof {
            assert(l.pending() =~= config.path_seqs());
        }
        l
    }

    /// The next thing to do: with `-d`, list the operands themselves once;
    /// otherwise read the next pending directory, after its header.
    pub fn next_action(&mut self) -> (a: Action)
        ensures
            final(self).configuration() == old(self).configuration(),
            final(self).has_started(),
            old(self).configuration().list_dir ==> {
                &&& final(self).pending() == old(self).pending()
                &&& if old(self).has_started() {
                    a is Done
                } else {
                    a is ListOperands
                }
            },
            !old(self).configuration().list_dir ==> if old(self).pending().len() == 0 {
                &&& a is Done
                &&& final(self).pending() == old(self).pending()
            } else {
                &&& a matches Action::ReadDir { path, header } && path@ == old(self).pending()[0]
                    && header@ == header_spec(old(self).configuration(), path@)
                &&& final(self).pending() == old(self).pending().drop_first()
            },
    {
        let was_started = self.started;
        self.started = true;
        if self.config.list_dir {
            if was_started {
                Action::Done
            } else {
                Action::ListOperands
            }
        } else if self.queue.len() == 0 {
            Action::Done
        } else {
            let path = match self.queue.pop_front() {
                Some(p) => p,
                None => Vec::new(),
            };
            proof {
                assert(self.pending() =~= old(self).pending().drop_first());
            }
            let mut header: Vec<u8> = Vec::new();
            if self.config.paths.len() > 1 || self.config.recursive {
                push_all(&mut header, path.as_slice());
                header.push(58u8);
                header.push(10u8);
            }
            proof {
                assert(header@ =~= header_spec(*self.config, path@));
            }
            Action::ReadDir { path, header }
        }
    }

    /// The positions of the names that are shown, in order: in the default
    /// mode those of the names that do not start with `.`, in the other
    /// modes all of them.
    pub fn select_visible(&self, names: &[Vec<u8>]) -> (r: Vec<usize>)
        ensures
            r@.map_values(|x: usize| x as int) == shown_indices(
                self.configuration().hidden_mode,
                names@.map_values(|n: Vec<u8>| n@),
                names@.len() as int,
            ),
            forall|i: int|
                #![trigger names@[i]]
                0 <= i < names@.len() ==> (r@.contains(i as usize) <==> (
                self.configuration().hidden_mode != HiddenMode::Default || names@[i]@.len() == 0
                    || names@[i]@[0] != 46u8)),
            forall|a: int, b: int| 0 <= a < b < r@.len() ==> #[trigger] r@[a] < #[trigger] r@[b],
    {
        let ghost ns = names@.map_values(|n: Vec<u8>| n@);
        let mut r: Vec<usize> = Vec::new();
        let mut i: usize = 0;
        while i < names.len()
            invariant
                i <= names@.len(),
                ns == names@.map_values(|n: Vec<u8>| n@),
                r@.map_values(|x: usize| x as int) == shown_indices(
                    self.configuration().hidden_mode,
                    ns,
                    i as int,
                ),
            decreases names.len() - i,
        {
            let name = &names[i];
            let hidden = name.len() > 0 && name[0] == 46u8;
            let ghost before = r@;
            if self.config.hidden_mode != HiddenMode::Default || !hidden {
                r.push(i);
                proof {
                    assert(r@.map_values(|x: usize| x as int) =~= before.map_values(
                        |x: usize| x as int,
                    ).push(i as int));
                }
            }
            i = i + 1;
        }
        proof {
            let mode = self.configuration().hidden_mode;
            let n = names@.len() as int;
            let si = shown_indices(mode, ns, n);
            let rv = r@.map_values(|x: usize| x as int);
            assert(rv == si);
            assert forall|m: int| 0 <= m < r@.len() implies #[trigger] si[m] == r@[m] as int by {
                assert(rv[m] == r@[m] as int);
            }
            lemma_hidden_by_first_byte(mode, ns, n);
            assert forall|i: int| 0 <= i < names@.len() && #[trigger] r@.contains(i as usize) implies (
            mode != HiddenMode::Default || names@[i]@.len() == 0 || names@[i]@[0] != 46u8) by {
                assert(ns[i] == names@[i]@);
                let m = choose|m: int| 0 <= m < r@.len() && r@[m] == i as usize;
                assert(si[m] == r@[m] as int);
                assert(selected(mode, ns, n, i));
            }
            assert forall|i: int|
                0 <= i < names@.len() && (mode != HiddenMode::Default || names@[i]@.len() == 0
                    || names@[i]@[0] != 46u8) implies #[trigger] r@.contains(i as usize) by {
                assert(ns[i] == names@[i]@);
                assert(selected(mode, ns, n, i));
                let m = choose|m: int| 0 <= m < si.len() && #[trigger] si[m] == i;
                assert(r@[m] as int == si[m]);
                assert(r@[m] == i as usize);
            }
            assert forall|a: int, b: int| 0 <= a < b < r@.len() implies #[trigger] r@[a]
                < #[trigger] r@[b] by {
                assert(si[a] == r@[a] as int);
                assert(si[b] == r@[b] as int);
            }
        }
        r
    }

    /// Whether `.` and `..` are listed with a directory's entries.
    pub fn wants_dots(&self) -> (r: bool)
        ensures
            r == (self.configuration().hidden_mode == HiddenMode::All),
    {
        self.config.hidden_mode == HiddenMode::All
    }

    /// Sorts entries in the configured order; unsorted, they stay as they
    /// are.
    pub fn sort_entries(&self, entries: &mut Vec<EntryInfo>)
        ensures
            is_stable_sort_of(
                old(entries)@,
                final(entries)@,
                self.configuration().sort,
                self.configuration().reverse,
            ),
            self.configuration().sort == Sort::Unsorted ==> final(entries)@ == old(entries)@,
    {
        sort_entries_by(self.config, entries);
    }

    /// Sorts and writes entries; the written text is appended to `out`.
    fn write_sorted(&self, out: &mut Vec<u8>, entries: Vec<EntryInfo>)
        requires
            formatter_for(
                self.configuration().format,
                self.configuration().human_readable,
            ).accepts(entries@),
        ensures
            final(out)@.subrange(0, old(out)@.len() as int) == old(out)@,
            final(out)@.len() >= old(out)@.len(),
            shows_sorted(
                self.configuration(),
                entries@,
                final(out)@.subrange(old(out)@.len() as int, final(out)@.len() as int),
            ),
    {
        let mut sorted = entries;
        let ghost input = sorted@;
        self.sort_entries(&mut sorted);
        proof {
            let p = choose|p: Seq<int>|
                stable_permutation(
                    input,
                    sorted@,
                    p,
                    self.configuration().sort,
                    self.configuration().reverse,
                );
            lemma_accepts_permuted(
                self.configuration().format,
                self.configuration().human_readable,
                input,
                sorted@,
                p,
            );
        }
        let formatter = get_formatter(self.config);
        formatter.write(out, sorted.as_slice());
    }

    /// What to write for the directory at `path`, given its shown entries
    /// and, when `wants_dots`, its `.` and `..`. With `-R` its
    /// subdirectories, in the order the listing shows them, become the next
    /// pending directories.
    pub fn finish_dir(
        &mut self,
        path: &[u8],
        entries: Vec<EntryInfo>,
        dots: Option<(EntryInfo, EntryInfo)>,
    ) -> (text: Vec<u8>)
        requires
            formatter_for(
                old(self).configuration().format,
                old(self).configuration().human_readable,
            ).accepts(with_dots(entries@, dots)),
        ensures
            final(self).configuration() == old(self).configuration(),
            final(self).has_started() == old(self).has_started(),
            !old(self).configuration().recursive ==> final(self).pending() == old(self).pending(),
            old(self).configuration().recursive ==> exists|dirs: Seq<EntryInfo>, sorted: Seq<EntryInfo>|
                same_entries(dirs, directories(entries@)) && is_stable_sort_of(
                    dirs,
                    sorted,
                    old(self).configuration().sort,
                    old(self).configuration().reverse,
                ) && final(self).pending() == joined(path@, sorted) + old(self).pending(),
            old(self).configuration().recursive ==> {
                &&& final(self).pending().len() >= old(self).pending().len()
                &&& final(self).pending().subrange(
                    final(self).pending().len() - old(self).pending().len(),
                    final(self).pending().len() as int,
                ) == old(self).pending()
                &&& forall|k: int|
                    0 <= k < entries@.len() && #[trigger] entries@[k].is_dir
                        ==> final(self).pending().subrange(
                        0,
                        final(self).pending().len() - old(self).pending().len(),
                    ).contains(join_spec(path@, entries@[k].name@))
                &&& forall|j: int|
                    0 <= j < final(self).pending().len() - old(self).pending().len()
                        ==> is_subdir_path(path@, entries@, #[trigger] final(self).pending()[j])
            },
            exists|listing: Seq<u8>|
                shows_sorted(old(self).configuration(), with_dots(entries@, dots), listing)
                    && text@ == listing + if final(self).pending().len() > 0 {
                    seq![10u8]
                } else {
                    Seq::empty()
                },
    {
        if self.config.recursive {
            let mut dirs: Vec<EntryInfo> = Vec::new();
            let mut i: usize = 0;
            while i < entries.len()
                invariant
                    i <= entries@.len(),
                    same_entries(dirs@, directories(entries@.subrange(0, i as int))),
                decreases entries.len() - i,
            {
                proof {
                    assert(entries@.subrange(0, i + 1).drop_last() =~= entries@.subrange(
                        0,
                        i as int,
                    ));
                }
                if entries[i].is_dir {
                    dirs.push(entries[i].duplicate());
                }
                i = i + 1;
            }
            proof {
                assert(entries@.subrange(0, i as int) =~= entries@);
            }
            let ghost dirs_before = dirs@;
            self.sort_entries(&mut dirs);
            let ghost old_pending = self.pending();
            let mut k: usize = dirs.len();
            while k > 0
                invariant
                    k <= dirs@.len(),
                    self.config == old(self).config,
                    self.started == old(self).started,
                    self.pending() == joined(path@, dirs@.subrange(k as int, dirs@.len() as int))
                        + old_pending,
                decreases k,
            {
                k = k - 1;
                let ghost rest = self.pending();
                self.queue.push_front(join_path(path, dirs[k].name.as_slice()));
                proof {
                    let d = join_spec(path@, dirs@[k as int].name@);
                    assert(self.pending() =~= seq![d] + rest);
                    assert(joined(path@, dirs@.subrange(k as int, dirs@.len() as int)) =~= seq![d]
                        + joined(path@, dirs@.subrange(k + 1, dirs@.len() as int)));
                    assert(self.pending() =~= joined(
                        path@,
                        dirs@.subrange(k as int, dirs@.len() as int),
                    ) + old_pending);
                }
            }
            proof {
                assert(dirs@.subrange(0, dirs@.len() as int) =~= dirs@);
                assert(same_entries(dirs_before, directories(entries@)));
                lemma_recursion_queues_every_directory(
                    path@,
                    entries@,
                    dirs_before,
                    dirs@,
                    self.configuration().sort,
                    self.configuration().reverse,
                );
                let fresh = joined(path@, dirs@);
                assert(self.pending().subrange(fresh.len() as int, self.pending().len() as int)
                    =~= old_pending);
                assert(self.pending().subrange(0, fresh.len() as int) =~= fresh);
                assert forall|j: int| 0 <= j < fresh.len() implies self.pending()[j]
                    == fresh[j] by {}
            }
        }
        let mut all = entries;
        match dots {
            Some((d, dd)) => {
                all.push(d);
                all.push(dd);
            },
            None => {},
        }
        let mut text: Vec<u8> = Vec::new();
        self.write_sorted(&mut text, all);
        let ghost listing = text@;
        proof {
            assert(text@.subrange(0, 0) =~= Seq::<u8>::empty());
            assert(text@.subrange(0, text@.len() as int) =~= text@);
        }
        if self.queue.len() > 0 {
            text.push(10u8);
        }
        text
    }

    /// What to write for the operands themselves (`-d`), given the entry of
    /// each.
    pub fn finish_operands(&self, entries: Vec<EntryInfo>) -> (text: Vec<u8>)
        requires
            formatter_for(
                self.configuration().format,
                self.configuration().human_readable,
            ).accepts(entries@),
        ensures
            shows_sorted(self.configuration(), entries@, text@),
    {
        let mut text: Vec<u8> = Vec::new();
        self.write_sorted(&mut text, entries);
        proof {
            assert(text@.subrange(0, text@.len() as int) =~= text@);
        }
        text
    }
}

/// The reason `ls` gives for an error.
pub open spec fn reason_spec(kind: ErrorKind) -> Seq<u8> {
    match kind {
        ErrorKind::NotFound => "No such file or directory".spec_bytes(),
        ErrorKind::PermissionDenied => "Permission denied".spec_bytes(),
        ErrorKind::NotADirectory => "Not a directory".spec_bytes(),
        ErrorKind::Other => "Unknown error".spec_bytes(),
    }
}

/// The message `ls` prints when it cannot read the directory at `path`.
pub open spec fn gnu_error_spec(path: Seq<u8>, kind: ErrorKind) -> Seq<u8> {
    "ls: cannot access '".spec_bytes() + utf8_lossy(path) + "': ".spec_bytes() + reason_spec(kind)
}

fn push_text(out: &mut Vec<u8>, text: &str)
    ensures
        final(out)@ == old(out)@ + text.spec_bytes(),
{
    push_all(out, text.as_bytes());
}

/// The message for an error reading the directory at `path`, as GNU `ls`
/// words it.
pub fn gnu_style_error(path: &[u8], kind: ErrorKind) -> (msg: Vec<u8>)
    ensures
        msg@ == gnu_error_spec(path@, kind),
{
    let mut msg: Vec<u8> = Vec::new();
    push_text(&mut msg, "ls: cannot access '");
    let shown = to_utf8_lossy(path);
    push_all(&mut msg, shown.as_slice());
    push_text(&mut msg, "': ");
    match kind {
        ErrorKind::NotFound => push_text(&mut msg, "No such file or directory"),
        ErrorKind::PermissionDenied => push_text(&mut msg, "Permission denied"),
        ErrorKind::NotADirectory => push_text(&mut msg, "Not a directory"),
        ErrorKind::Other => push_text(&mut msg, "Unknown error"),
    }
    proof {
        assert(msg@ =~= gnu_error_spec(path@, kind));
    }
    msg
}

/// The name at position `i` is among the selected ones.
pub open spec fn selected(mode: HiddenMode, names: Seq<Seq<u8>>, k: int, i: int) -> bool {
    exists|m: int|
        0 <= m < shown_indices(mode, names, k).len() && #[trigger] shown_indices(mode, names, k)[m]
            == i
}

/// Exactly the shown names are selected, in order: in the default mode
/// every name but those starting with `.`, in the others every name.
pub proof fn lemma_shown_indices(mode: HiddenMode, names: Seq<Seq<u8>>, k: int)
    requires
        0 <= k <= names.len(),
    ensures
        forall|i: int|
            0 <= i < k ==> (#[trigger] selected(mode, names, k, i) <==> shown(mode, names[i])),
        forall|a: int, b: int|
            0 <= a < b < shown_indices(mode, names, k).len() ==> #[trigger] shown_indices(
                mode,
                names,
                k,
            )[a] < #[trigger] shown_indices(mode, names, k)[b],
        forall|a: int|
            0 <= a < shown_indices(mode, names, k).len() ==> #[trigger] shown_indices(
                mode,
                names,
                k,
            )[a] < k,
    decreases k,
{
    if k > 0 {
        lemma_shown_indices(mode, names, k - 1);
        let prev = shown_indices(mode, names, k - 1);
        let cur = shown_indices(mode, names, k);
        assert forall|a: int| 0 <= a < cur.len() implies #[trigger] cur[a] < k by {
            if a < prev.len() {
                assert(prev[a] < k - 1);
            }
        }
        assert forall|a: int, b: int| 0 <= a < b < cur.len() implies #[trigger] cur[a]
            < #[trigger] cur[b] by {
            assert(prev[a] < k - 1);
            if b < prev.len() {
                assert(prev[a] < prev[b]);
            }
        }
        assert forall|i: int| 0 <= i < k implies (#[trigger] selected(mode, names, k, i) <==> shown(
            mode,
            names[i],
        )) by {
            if i < k - 1 {
                if selected(mode, names, k, i) {
                    let m = choose|m: int| 0 <= m < cur.len() && #[trigger] cur[m] == i;
                    if m < prev.len() {
                        assert(prev[m] == i);
                        assert(selected(mode, names, k - 1, i));
                    }
                }
                if selected(mode, names, k - 1, i) {
                    let m = choose|m: int| 0 <= m < prev.len() && #[trigger] prev[m] == i;
                    assert(cur[m] == i);
                }
            } else {
                if shown(mode, names[k - 1]) {
                    assert(cur[cur.len() - 1] == k - 1);
                } else if selected(mode, names, k, i) {
                    let m = choose|m: int| 0 <= m < cur.len() && #[trigger] cur[m] == i;
                    assert(prev[m] < k - 1);
                }
            }
        }
    }
}

/// `q` is the path, inside `path`, of an entry among `entries` that is a
/// directory.
pub open spec fn is_subdir_path(path: Seq<u8>, entries: Seq<EntryInfo>, q: Seq<u8>) -> bool {
    exists|k: int|
        #![trigger entries[k]]
        0 <= k < entries.len() && entries[k].is_dir && join_spec(path, entries[k].name@) == q
}

/// Every directory among the entries is kept by `directories`, and it keeps
/// nothing else.
pub proof fn lemma_directories_exact(entries: Seq<EntryInfo>)
    ensures
        forall|k: int|
            0 <= k < entries.len() && #[trigger] entries[k].is_dir ==> directories(
                entries,
            ).contains(entries[k]),
        forall|m: int|
            0 <= m < directories(entries).len() ==> #[trigger] directories(entries)[m].is_dir
                && entries.contains(directories(entries)[m]),
    decreases entries.len(),
{
    if entries.len() > 0 {
        let init = entries.drop_last();
        let n = entries.len() as int;
        lemma_directories_exact(init);
        let d0 = directories(init);
        let d = directories(entries);
        assert forall|k: int| 0 <= k < n && #[trigger] entries[k].is_dir implies d.contains(
            entries[k],
        ) by {
            if k < n - 1 {
                assert(init[k] == entries[k]);
                assert(init[k].is_dir);
                let m = choose|m: int| 0 <= m < d0.len() && d0[m] == init[k];
                assert(d[m] == d0[m]);
            } else {
                assert(d[d.len() - 1] == entries[k]);
            }
        }
        assert forall|m: int| 0 <= m < d.len() implies #[trigger] d[m].is_dir && entries.contains(
            d[m],
        ) by {
            if m < d0.len() {
                assert(d[m] == d0[m]);
                assert(d0[m].is_dir);
                assert(init.contains(d0[m]));
                let k = choose|k: int| 0 <= k < init.len() && init[k] == d0[m];
                assert(entries[k] == init[k]);
            } else {
                assert(d[m] == entries[n - 1]);
            }
        }
    }
}

/// With `-R`, the paths queued for a directory are exactly those of its
/// subdirectories: each entry that is a directory, whatever its name, has
/// its path among them, and each of them is the path of such an entry.
pub proof fn lemma_recursion_queues_every_directory(
    path: Seq<u8>,
    entries: Seq<EntryInfo>,
    dirs: Seq<EntryInfo>,
    sorted: Seq<EntryInfo>,
    sort: Sort,
    reverse: bool,
)
    requires
        same_entries(dirs, directories(entries)),
        is_stable_sort_of(dirs, sorted, sort, reverse),
    ensures
        joined(path, sorted).len() == sorted.len(),
        forall|k: int|
            0 <= k < entries.len() && #[trigger] entries[k].is_dir ==> joined(path, sorted).contains(
                join_spec(path, entries[k].name@),
            ),
        forall|j: int|
            0 <= j < sorted.len() ==> is_subdir_path(path, entries, #[trigger] joined(path, sorted)[j]),
{
    let p = choose|p: Seq<int>| stable_permutation(dirs, sorted, p, sort, reverse);
    lemma_queued_through(path, entries, dirs, sorted, p);
}

proof fn lemma_queued_through(
    path: Seq<u8>,
    entries: Seq<EntryInfo>,
    dirs: Seq<EntryInfo>,
    sorted: Seq<EntryInfo>,
    p: Seq<int>,
)
    requires
        same_entries(dirs, directories(entries)),
        is_permutation(p, dirs.len() as int),
        sorted.len() == dirs.len(),
        forall|j: int| 0 <= j < p.len() ==> sorted[j] == dirs[#[trigger] p[j]],
    ensures
        joined(path, sorted).len() == sorted.len(),
        forall|k: int|
            0 <= k < entries.len() && #[trigger] entries[k].is_dir ==> joined(path, sorted).contains(
                join_spec(path, entries[k].name@),
            ),
        forall|j: int|
            0 <= j < sorted.len() ==> is_subdir_path(path, entries, #[trigger] joined(path, sorted)[j]),
{
    lemma_directories_exact(entries);
    let d = directories(entries);
    let js = joined(path, sorted);
    lemma_permutation_onto(p, dirs.len() as int);
    assert forall|k: int| 0 <= k < entries.len() && #[trigger] entries[k].is_dir implies js.contains(
        join_spec(path, entries[k].name@),
    ) by {
        assert(d.contains(entries[k]));
        let m = choose|m: int| 0 <= m < d.len() && d[m] == entries[k];
        assert(same_entry(dirs[m], d[m]));
        assert(reaches(p, m));
        let j = choose|j: int| 0 <= j < p.len() && #[trigger] p[j] == m;
        assert(sorted[j] == dirs[p[j]]);
        assert(js[j] == join_spec(path, sorted[j].name@));
    }
    assert forall|j: int| 0 <= j < sorted.len() implies is_subdir_path(path, entries, #[trigger] js[j]) by {
        let m = p[j];
        assert(sorted[j] == dirs[m]);
        assert(same_entry(dirs[m], d[m]));
        assert(d[m].is_dir && entries.contains(d[m]));
        let k = choose|k: int| 0 <= k < entries.len() && entries[k] == d[m];
        assert(js[j] == join_spec(path, sorted[j].name@));
        assert(entries[k].is_dir);
        assert(join_spec(path, entries[k].name@) == js[j]);
    }
}

/// In the default mode a name is selected exactly when it is empty or its
/// first byte is not `.`; in the other modes every name is selected. The
/// selected positions come in increasing order and are below `k`.
pub proof fn lemma_hidden_by_first_byte(mode: HiddenMode, names: Seq<Seq<u8>>, k: int)
    requires
        0 <= k <= names.len(),
    ensures
        forall|i: int|
            0 <= i < k ==> (#[trigger] selected(mode, names, k, i) <==> (mode
                != HiddenMode::Default || names[i].len() == 0 || names[i][0] != 46u8)),
        forall|a: int, b: int|
            0 <= a < b < shown_indices(mode, names, k).len() ==> #[trigger] shown_indices(
                mode,
                names,
                k,
            )[a] < #[trigger] shown_indices(mode, names, k)[b],
        forall|a: int|
            0 <= a < shown_indices(mode, names, k).len() ==> 0 <= #[trigger] shown_indices(
                mode,
                names,
                k,
            )[a] < k,
{
    lemma_shown_indices(mode, names, k);
    lemma_shown_indices_nonnegative(mode, names, k);
}

proof fn lemma_shown_indices_nonnegative(mode: HiddenMode, names: Seq<Seq<u8>>, k: int)
    ensures
        forall|a: int|
            0 <= a < shown_indices(mode, names, k).len() ==> 0 <= #[trigger] shown_indices(
                mode,
                names,
                k,
            )[a],
    decreases k,
{
    if k > 0 {
        lemma_shown_indices_nonnegative(mode, names, k - 1);
        let prev = shown_indices(mode, names, k - 1);
        let cur = shown_indices(mode, names, k);
        assert forall|a: int| 0 <= a < cur.len() implies 0 <= #[trigger] cur[a] by {
            if a < prev.len() {
                assert(cur[a] == prev[a]);
            }
        }
    }
}

} // verus!
